//! Programs of a Brainfuck-like instruction set with phext extensions.
//!
//! A program has a tape of 64 instructions and a tape of 64 data cells.
//! Each step executes the instruction under the instruction pointer and
//! reports what the program asks of its neighborhood.

use vstd::prelude::*;
use crate::random::{small_rng_seed_from_u64, small_gen_range_u8};

verus! {

/// The sixteen instructions, numbered 0 to 15 in the order written here.
#[derive(Clone, Copy, PartialEq, Eq, Debug, Structural)]
pub enum Instruction {
    Right,
    Left,
    Inc,
    Dec,
    Output,
    Input,
    JumpFwd,
    JumpBack,
    DimUp,
    DimDown,
    ReadNeighbor,
    WriteNeighbor,
    CopySelf,
    Jump,
    Nop,
    Halt,
}

/// The instruction with number `n`; every number from 15 on is `Halt`.
pub open spec fn decode(n: u8) -> Instruction {
    if n == 0 {
        Instruction::Right
    } else if n == 1 {
        Instruction::Left
    } else if n == 2 {
        Instruction::Inc
    } else if n == 3 {
        Instruction::Dec
    } else if n == 4 {
        Instruction::Output
    } else if n == 5 {
        Instruction::Input
    } else if n == 6 {
        Instruction::JumpFwd
    } else if n == 7 {
        Instruction::JumpBack
    } else if n == 8 {
        Instruction::DimUp
    } else if n == 9 {
        Instruction::DimDown
    } else if n == 10 {
        Instruction::ReadNeighbor
    } else if n == 11 {
        Instruction::WriteNeighbor
    } else if n == 12 {
        Instruction::CopySelf
    } else if n == 13 {
        Instruction::Jump
    } else if n == 14 {
        Instruction::Nop
    } else {
        Instruction::Halt
    }
}

/// The instruction that a byte encodes: its low four bits.
pub open spec fn byte_instruction(b: u8) -> Instruction {
    decode(b % 16)
}

/// The number of an instruction.
pub open spec fn opcode(i: Instruction) -> u8 {
    match i {
        Instruction::Right => 0,
        Instruction::Left => 1,
        Instruction::Inc => 2,
        Instruction::Dec => 3,
        Instruction::Output => 4,
        Instruction::Input => 5,
        Instruction::JumpFwd => 6,
        Instruction::JumpBack => 7,
        Instruction::DimUp => 8,
        Instruction::DimDown => 9,
        Instruction::ReadNeighbor => 10,
        Instruction::WriteNeighbor => 11,
        Instruction::CopySelf => 12,
        Instruction::Jump => 13,
        Instruction::Nop => 14,
        Instruction::Halt => 15,
    }
}

/// The display color of an instruction, red, green and blue.
pub open spec fn instruction_color(i: Instruction) -> Seq<u8> {
    match i {
        Instruction::Right => seq![255u8, 100u8, 100u8],
        Instruction::Left => seq![100u8, 255u8, 100u8],
        Instruction::Inc => seq![100u8, 100u8, 255u8],
        Instruction::Dec => seq![255u8, 255u8, 100u8],
        Instruction::Output => seq![255u8, 100u8, 255u8],
        Instruction::Input => seq![100u8, 255u8, 255u8],
        Instruction::JumpFwd => seq![255u8, 200u8, 100u8],
        Instruction::JumpBack => seq![200u8, 100u8, 255u8],
        Instruction::DimUp => seq![150u8, 255u8, 150u8],
        Instruction::DimDown => seq![255u8, 150u8, 150u8],
        Instruction::ReadNeighbor => seq![100u8, 200u8, 200u8],
        Instruction::WriteNeighbor => seq![200u8, 200u8, 100u8],
        Instruction::CopySelf => seq![255u8, 255u8, 255u8],
        Instruction::Jump => seq![200u8, 150u8, 255u8],
        Instruction::Nop => seq![50u8, 50u8, 50u8],
        Instruction::Halt => seq![0u8, 0u8, 0u8],
    }
}

impl Instruction {
    /// The instruction encoded by the low four bits of `b`.
    pub fn from_byte(b: u8) -> (i: Self)
        ensures
            i == byte_instruction(b),
    {
        let n: u8 = b & 0x0F;
        assert(n == b % 16) by (bit_vector)
            requires
                n == b & 0x0F,
        ;
        match n {
            0 => Instruction::Right,
            1 => Instruction::Left,
            2 => Instruction::Inc,
            3 => Instruction::Dec,
            4 => Instruction::Output,
            5 => Instruction::Input,
            6 => Instruction::JumpFwd,
            7 => Instruction::JumpBack,
            8 => Instruction::DimUp,
            9 => Instruction::DimDown,
            10 => Instruction::ReadNeighbor,
            11 => Instruction::WriteNeighbor,
            12 => Instruction::CopySelf,
            13 => Instruction::Jump,
            14 => Instruction::Nop,
            _ => Instruction::Halt,
        }
    }

    /// The number of this instruction (its byte in a program).
    pub fn to_byte(&self) -> (b: u8)
        ensures
            b == opcode(*self),
    {
        match self {
            Instruction::Right => 0,
            Instruction::Left => 1,
            Instruction::Inc => 2,
            Instruction::Dec => 3,
            Instruction::Output => 4,
            Instruction::Input => 5,
            Instruction::JumpFwd => 6,
            Instruction::JumpBack => 7,
            Instruction::DimUp => 8,
            Instruction::DimDown => 9,
            Instruction::ReadNeighbor => 10,
            Instruction::WriteNeighbor => 11,
            Instruction::CopySelf => 12,
            Instruction::Jump => 13,
            Instruction::Nop => 14,
            Instruction::Halt => 15,
        }
    }

    pub fn to_color(&self) -> (c: [u8; 3])
        ensures
            c@ == instruction_color(*self),
    {
        let c: [u8; 3] = match self {
            Instruction::Right => [255, 100, 100],
            Instruction::Left => [100, 255, 100],
            Instruction::Inc => [100, 100, 255],
            Instruction::Dec => [255, 255, 100],
            Instruction::Output => [255, 100, 255],
            Instruction::Input => [100, 255, 255],
            Instruction::JumpFwd => [255, 200, 100],
            Instruction::JumpBack => [200, 100, 255],
            Instruction::DimUp => [150, 255, 150],
            Instruction::DimDown => [255, 150, 150],
            Instruction::ReadNeighbor => [100, 200, 200],
            Instruction::WriteNeighbor => [200, 200, 100],
            Instruction::CopySelf => [255, 255, 255],
            Instruction::Jump => [200, 150, 255],
            Instruction::Nop => [50, 50, 50],
            Instruction::Halt => [0, 0, 0],
        };
        assert(c@ =~= instruction_color(*self));
        c
    }
}

/// What a step asks of the universe around the program.
#[derive(Debug, Clone, Copy)]
pub enum StepResult {
    Continue,
    Halted,
    ReadNeighbor { dim: u8, direction: i8 },
    WriteNeighbor { dim: u8, direction: i8, value: u8 },
    CopySelf { dim: u8, direction: i8 },
}

/// The mathematical state of a program.
#[verifier::ext_equal]
pub struct ProgramView {
    pub instructions: Seq<u8>,
    pub data: Seq<u8>,
    pub ip: usize,
    pub dp: usize,
    pub dim: u8,
    pub energy: u32,
    pub age: u64,
    pub generation: u64,
}

/// A program living at a coordinate.
#[derive(Clone)]
pub struct Program {
    pub instructions: [u8; 64],
    pub data: [u8; 64],
    pub ip: usize,
    pub dp: usize,
    pub dim: u8,
    pub energy: u32,
    pub age: u64,
    pub generation: u64,
}

impl View for Program {
    type V = ProgramView;

    open spec fn view(&self) -> ProgramView {
        ProgramView {
            instructions: self.instructions@,
            data: self.data@,
            ip: self.ip,
            dp: self.dp,
            dim: self.dim,
            energy: self.energy,
            age: self.age,
            generation: self.generation,
        }
    }
}

pub open spec fn tape_size() -> int {
    64
}

pub open spec fn max_steps() -> u32 {
    8192
}

/// The direction a data cell selects: up below 128, down from 128 on.
pub open spec fn direction_of(v: u8) -> i8 {
    if v < 128 {
        1i8
    } else {
        -1i8
    }
}

/// Where the search for the `]` that matches a `[` stops: moving right
/// from `ip` with `depth` brackets open, it stops when none is open or at
/// the last cell.
pub open spec fn seek_forward(instr: Seq<u8>, ip: int, depth: int) -> int
    decreases 63 - ip,
{
    if depth > 0 && ip < 63 {
        let next = ip + 1;
        let op = byte_instruction(instr[next]);
        let d = if op == Instruction::JumpFwd {
            depth + 1
        } else if op == Instruction::JumpBack {
            depth - 1
        } else {
            depth
        };
        seek_forward(instr, next, d)
    } else {
        ip
    }
}

/// Where the search for the `[` that matches a `]` stops, moving left.
pub open spec fn seek_backward(instr: Seq<u8>, ip: int, depth: int) -> int
    decreases ip,
{
    if depth > 0 && ip > 0 {
        let prev = ip - 1;
        let op = byte_instruction(instr[prev]);
        let d = if op == Instruction::JumpBack {
            depth + 1
        } else if op == Instruction::JumpFwd {
            depth - 1
        } else {
            depth
        };
        seek_backward(instr, prev, d)
    } else {
        ip
    }
}

/// The effect of the instruction under the instruction pointer, before
/// the pointer advances.
pub open spec fn execute(p: ProgramView) -> (ProgramView, StepResult) {
    let cell = p.data[p.dp as int];
    match byte_instruction(p.instructions[p.ip as int]) {
        Instruction::Right => (ProgramView { dp: ((p.dp + 1) % 64) as usize, ..p }, StepResult::Continue),
        Instruction::Left => (ProgramView { dp: ((p.dp + 63) % 64) as usize, ..p }, StepResult::Continue),
        Instruction::Inc => (
            ProgramView { data: p.data.update(p.dp as int, ((cell + 1) % 256) as u8), ..p },
            StepResult::Continue,
        ),
        Instruction::Dec => (
            ProgramView { data: p.data.update(p.dp as int, ((cell + 255) % 256) as u8), ..p },
            StepResult::Continue,
        ),
        Instruction::JumpFwd => (
            if cell == 0 {
                ProgramView { ip: seek_forward(p.instructions, p.ip as int, 1) as usize, ..p }
            } else {
                p
            },
            StepResult::Continue,
        ),
        Instruction::JumpBack => (
            if cell != 0 {
                ProgramView { ip: seek_backward(p.instructions, p.ip as int, 1) as usize, ..p }
            } else {
                p
            },
            StepResult::Continue,
        ),
        Instruction::DimUp => (ProgramView { dim: ((p.dim + 1) % 9) as u8, ..p }, StepResult::Continue),
        Instruction::DimDown => (ProgramView { dim: ((p.dim + 8) % 9) as u8, ..p }, StepResult::Continue),
        Instruction::ReadNeighbor => (
            p,
            StepResult::ReadNeighbor { dim: p.dim, direction: direction_of(cell) },
        ),
        Instruction::WriteNeighbor => (
            p,
            StepResult::WriteNeighbor {
                dim: p.dim,
                direction: direction_of(cell),
                value: p.data[(p.dp + 1) % 64],
            },
        ),
        Instruction::CopySelf => (
            p,
            StepResult::CopySelf { dim: p.dim, direction: direction_of(cell) },
        ),
        Instruction::Halt => (p, StepResult::Halted),
        _ => (p, StepResult::Continue),
    }
}

/// One step: with energy left, spend one unit, execute the current
/// instruction and advance the instruction pointer around the tape;
/// without energy, halt and change nothing.
pub open spec fn step_spec(p: ProgramView) -> (ProgramView, StepResult) {
    if p.energy == 0 {
        (p, StepResult::Halted)
    } else {
        let q = ProgramView { energy: (p.energy - 1) as u32, ..p };
        let (r, res) = execute(q);
        (ProgramView { ip: ((r.ip + 1) % 64) as usize, ..r }, res)
    }
}

/// A step computes without fault: out of energy, or with the pointers
/// each instruction uses on the tapes and no counter that overflows.
pub open spec fn step_defined(p: ProgramView) -> bool {
    p.energy == 0 || (p.ip < 64 && match byte_instruction(p.instructions[p.ip as int]) {
        Instruction::Right => p.dp < usize::MAX,
        Instruction::Left => p.dp + 64 <= usize::MAX,
        Instruction::Inc | Instruction::Dec | Instruction::JumpFwd | Instruction::JumpBack
        | Instruction::ReadNeighbor | Instruction::WriteNeighbor | Instruction::CopySelf => p.dp
            < 64,
        Instruction::DimUp => p.dim < 255,
        Instruction::DimDown => p.dim < 248,
        _ => true,
    })
}

/// The state after `reset`: pointers and dimension focus at zero, energy full.
pub open spec fn reset_spec(p: ProgramView) -> ProgramView {
    ProgramView { ip: 0, dp: 0, dim: 0, energy: max_steps(), ..p }
}

/// Pointers on the tapes and a dimension focus among the nine.
pub open spec fn program_wf(p: ProgramView) -> bool {
    &&& p.instructions.len() == 64
    &&& p.data.len() == 64
    &&& p.ip < 64
    &&& p.dp < 64
    &&& p.dim < 9
}

/// The program in the state `reset` leaves it in.
pub open spec fn is_reset(p: ProgramView) -> bool {
    &&& p.instructions.len() == 64
    &&& p.data.len() == 64
    &&& p.ip == 0
    &&& p.dp == 0
    &&& p.dim == 0
    &&& p.energy == max_steps()
}

/// The number of `CopySelf` instructions on a tape.
pub open spec fn copy_count(instr: Seq<u8>) -> nat
    decreases instr.len(),
{
    if instr.len() == 0 {
        0
    } else {
        copy_count(instr.drop_last()) + if byte_instruction(instr.last())
            == Instruction::CopySelf {
            1nat
        } else {
            0nat
        }
    }
}

impl Program {
    pub const TAPE_SIZE: usize = 64;

    pub const MAX_STEPS: u32 = 8192;

    /// A program with random instructions (each below 16), zeroed data and
    /// a fresh execution state. The generator is seeded with 42 each time.
    pub fn random() -> (p: Self)
        ensures
            forall|i: int| 0 <= i < 64 ==> #[trigger] p@.instructions[i] < 16,
            forall|i: int| 0 <= i < 64 ==> #[trigger] p@.data[i] == 0,
            is_reset(p@),
            p.age == 0,
            p.generation == 0,
    {
        let mut rng = small_rng_seed_from_u64(42);
        let mut instructions: [u8; 64] = [0u8; 64];
        let mut i: usize = 0;
        while i < 64
            invariant
                0 <= i <= 64,
                instructions@.len() == 64,
                forall|j: int| 0 <= j < 64 ==> #[trigger] instructions@[j] < 16,
            decreases 64 - i,
        {
            instructions[i] = small_gen_range_u8(&mut rng, 0, 16);
            i = i + 1;
        }
        Self {
            instructions,
            data: [0u8; 64],
            ip: 0,
            dp: 0,
            dim: 0,
            energy: Self::MAX_STEPS,
            age: 0,
            generation: 0,
        }
    }

    /// A program of no-ops with zeroed data and a fresh execution state.
    pub fn empty() -> (p: Self)
        ensures
            forall|i: int| 0 <= i < 64 ==> #[trigger] p@.instructions[i] == 14,
            forall|i: int| 0 <= i < 64 ==> #[trigger] p@.data[i] == 0,
            is_reset(p@),
            p.age == 0,
            p.generation == 0,
    {
        Self {
            instructions: [14u8; 64],
            data: [0u8; 64],
            ip: 0,
            dp: 0,
            dim: 0,
            energy: Self::MAX_STEPS,
            age: 0,
            generation: 0,
        }
    }

    /// Resets the execution state and keeps the tapes, age and generation.
    pub fn reset(&mut self)
        ensures
            final(self)@ == reset_spec(old(self)@),
    {
        self.ip = 0;
        self.dp = 0;
        self.dim = 0;
        self.energy = Self::MAX_STEPS;
    }

    pub fn current_instruction(&self) -> (i: Instruction)
        requires
            self.ip < 64,
        ensures
            i == byte_instruction(self@.instructions[self.ip as int]),
    {
        Instruction::from_byte(self.instructions[self.ip])
    }

    /// Executes one step and reports what the program asks for.
    pub fn step(&mut self) -> (r: StepResult)
        requires
            step_defined(old(self)@),
        ensures
            final(self)@ == step_spec(old(self)@).0,
            r == step_spec(old(self)@).1,
    {
        if self.energy == 0 {
            return StepResult::Halted;
        }
        self.energy = self.energy - 1;
        let ghost q = self@;
        let inst = self.current_instruction();
        let result = match inst {
            Instruction::Right => {
                self.dp = (self.dp + 1) % Self::TAPE_SIZE;
                StepResult::Continue
            },
            Instruction::Left => {
                self.dp = (self.dp + Self::TAPE_SIZE - 1) % Self::TAPE_SIZE;
                StepResult::Continue
            },
            Instruction::Inc => {
                self.data[self.dp] = self.data[self.dp].wrapping_add(1);
                StepResult::Continue
            },
            Instruction::Dec => {
                self.data[self.dp] = self.data[self.dp].wrapping_sub(1);
                StepResult::Continue
            },
            Instruction::Output => StepResult::Continue,
            Instruction::Input => StepResult::Continue,
            Instruction::JumpFwd => {
                if self.data[self.dp] == 0 {
                    self.seek_forward();
                }
                StepResult::Continue
            },
            Instruction::JumpBack => {
                if self.data[self.dp] != 0 {
                    self.seek_backward();
                }
                StepResult::Continue
            },
            Instruction::DimUp => {
                self.dim = (self.dim + 1) % 9;
                StepResult::Continue
            },
            Instruction::DimDown => {
                self.dim = (self.dim + 8) % 9;
                StepResult::Continue
            },
            Instruction::ReadNeighbor => {
                let direction: i8 = if self.data[self.dp] < 128 {
                    1
                } else {
                    -1
                };
                StepResult::ReadNeighbor { dim: self.dim, direction }
            },
            Instruction::WriteNeighbor => {
                let direction: i8 = if self.data[self.dp] < 128 {
                    1
                } else {
                    -1
                };
                let value = self.data[(self.dp + 1) % Self::TAPE_SIZE];
                StepResult::WriteNeighbor { dim: self.dim, direction, value }
            },
            Instruction::CopySelf => {
                let direction: i8 = if self.data[self.dp] < 128 {
                    1
                } else {
                    -1
                };
                StepResult::CopySelf { dim: self.dim, direction }
            },
            Instruction::Jump => StepResult::Continue,
            Instruction::Nop => StepResult::Continue,
            Instruction::Halt => StepResult::Halted,
        };
        assert(self@ =~= execute(q).0);
        assert(self.ip < 64);
        self.ip = (self.ip + 1) % Self::TAPE_SIZE;
        result
    }

    /// Moves the instruction pointer right to the `]` matching the `[`
    /// under it, or to the last cell.
    fn seek_forward(&mut self)
        requires
            old(self).ip < 64,
        ensures
            final(self).ip < 64,
            final(self)@ == (ProgramView {
                ip: seek_forward(old(self)@.instructions, old(self).ip as int, 1) as usize,
                ..old(self)@
            }),
    {
        let ghost start = self.ip as int;
        let mut depth: i32 = 1;
        while depth > 0 && self.ip < Self::TAPE_SIZE - 1
            invariant
                self.ip < 64,
                0 <= depth <= self.ip + 1,
                self@ == (ProgramView { ip: self.ip, ..old(self)@ }),
                seek_forward(self@.instructions, self.ip as int, depth as int) == seek_forward(
                    self@.instructions,
                    start,
                    1,
                ),
            decreases 63 - self.ip,
        {
            self.ip = self.ip + 1;
            match Instruction::from_byte(self.instructions[self.ip]) {
                Instruction::JumpFwd => depth = depth + 1,
                Instruction::JumpBack => depth = depth - 1,
                _ => {},
            }
        }
    }

    /// Moves the instruction pointer left to the `[` matching the `]`
    /// under it, or to the first cell.
    fn seek_backward(&mut self)
        requires
            old(self).ip < 64,
        ensures
            final(self).ip < 64,
            final(self)@ == (ProgramView {
                ip: seek_backward(old(self)@.instructions, old(self).ip as int, 1) as usize,
                ..old(self)@
            }),
    {
        let ghost start = self.ip as int;
        let mut depth: i32 = 1;
        while depth > 0 && self.ip > 0
            invariant
                self.ip < 64,
                0 <= depth <= 64 - self.ip,
                self@ == (ProgramView { ip: self.ip, ..old(self)@ }),
                seek_backward(self@.instructions, self.ip as int, depth as int) == seek_backward(
                    self@.instructions,
                    start,
                    1,
                ),
            decreases self.ip,
        {
            self.ip = self.ip - 1;
            match Instruction::from_byte(self.instructions[self.ip]) {
                Instruction::JumpBack => depth = depth + 1,
                Instruction::JumpFwd => depth = depth - 1,
                _ => {},
            }
        }
    }

    /// The instruction tape of this program followed by that of `other`.
    pub fn concatenate(&self, other: &Program) -> (tape: Vec<u8>)
        ensures
            tape@ == self@.instructions + other@.instructions,
    {
        let mut tape: Vec<u8> = Vec::with_capacity(128);
        let mut i: usize = 0;
        while i < 64
            invariant
                0 <= i <= 64,
                tape@ == self@.instructions.take(i as int),
            decreases 64 - i,
        {
            tape.push(self.instructions[i]);
            assert(self@.instructions.take(i + 1) =~= self@.instructions.take(i as int).push(
                self.instructions[i as int],
            ));
            i = i + 1;
        }
        let mut j: usize = 0;
        while j < 64
            invariant
                0 <= j <= 64,
                tape@ == self@.instructions + other@.instructions.take(j as int),
            decreases 64 - j,
        {
            tape.push(other.instructions[j]);
            assert(other@.instructions.take(j + 1) =~= other@.instructions.take(j as int).push(
                other.instructions[j as int],
            ));
            j = j + 1;
        }
        assert(self@.instructions.take(64) =~= self@.instructions);
        assert(other@.instructions.take(64) =~= other@.instructions);
        tape
    }

    /// A child: the same tapes, one generation later, age zero and a fresh
    /// execution state.
    pub fn replicate(&self) -> (child: Self)
        requires
            self.generation < u64::MAX,
        ensures
            child@ == reset_spec(
                ProgramView { generation: (self.generation + 1) as u64, age: 0, ..self@ },
            ),
    {
        let mut child = Program {
            instructions: self.instructions,
            data: self.data,
            ip: self.ip,
            dp: self.dp,
            dim: self.dim,
            energy: self.energy,
            age: self.age,
            generation: self.generation,
        };
        child.generation = self.generation + 1;
        child.age = 0;
        child.reset();
        child
    }

    /// The number of `CopySelf` instructions, a sign of a replicator.
    pub fn replicator_score(&self) -> (n: usize)
        ensures
            n == copy_count(self@.instructions),
    {
        let mut count: usize = 0;
        let mut i: usize = 0;
        while i < 64
            invariant
                0 <= i <= 64,
                self@.instructions.len() == 64,
                count == copy_count(self@.instructions.take(i as int)),
                count <= i,
            decreases 64 - i,
        {
            assert(self@.instructions.take(i + 1).drop_last() =~= self@.instructions.take(
                i as int,
            ));
            if Instruction::from_byte(self.instructions[i]) == Instruction::CopySelf {
                count = count + 1;
            }
            i = i + 1;
        }
        assert(self@.instructions.take(64) =~= self@.instructions);
        count
    }
}

// ----------------------------------------------------------------------
// Laws
// ----------------------------------------------------------------------

/// Every instruction survives being written as its number and read back,
/// and every number below 16 survives being read as an instruction and
/// written back.
pub proof fn law_opcode_roundtrip(i: Instruction, n: u8)
    ensures
        decode(opcode(i)) == i,
        byte_instruction(opcode(i)) == i,
        n < 16 ==> opcode(decode(n)) == n,
        byte_instruction(n) == byte_instruction((n % 16) as u8),
{
}

pub proof fn lemma_seek_forward_bounds(instr: Seq<u8>, ip: int, depth: int)
    requires
        0 <= ip < 64,
    ensures
        ip <= seek_forward(instr, ip, depth) < 64,
    decreases 63 - ip,
{
    if depth > 0 && ip < 63 {
        let next = ip + 1;
        let op = byte_instruction(instr[next]);
        let d = if op == Instruction::JumpFwd {
            depth + 1
        } else if op == Instruction::JumpBack {
            depth - 1
        } else {
            depth
        };
        lemma_seek_forward_bounds(instr, next, d);
    }
}

pub proof fn lemma_seek_backward_bounds(instr: Seq<u8>, ip: int, depth: int)
    requires
        0 <= ip < 64,
    ensures
        0 <= seek_backward(instr, ip, depth) <= ip,
    decreases ip,
{
    if depth > 0 && ip > 0 {
        let prev = ip - 1;
        let op = byte_instruction(instr[prev]);
        let d = if op == Instruction::JumpBack {
            depth + 1
        } else if op == Instruction::JumpFwd {
            depth - 1
        } else {
            depth
        };
        lemma_seek_backward_bounds(instr, prev, d);
    }
}

/// How many cells in positions `a` to `b - 1` hold instruction `op`.
pub open spec fn count_instr(instr: Seq<u8>, a: int, b: int, op: Instruction) -> int
    decreases b - a,
{
    if a >= b {
        0
    } else {
        (if byte_instruction(instr[a]) == op {
            1int
        } else {
            0int
        }) + count_instr(instr, a + 1, b, op)
    }
}

/// The `[` at `q` matches the `]` at `ip`: between them lie as many `[` as
/// `]`, and reading leftwards from `ip` no stretch ends with more `[` than `]`.
pub open spec fn matches_backward(instr: Seq<u8>, q: int, ip: int) -> bool {
    &&& 0 <= q < ip < instr.len()
    &&& byte_instruction(instr[q]) == Instruction::JumpFwd
    &&& count_instr(instr, q + 1, ip, Instruction::JumpFwd) == count_instr(
        instr,
        q + 1,
        ip,
        Instruction::JumpBack,
    )
    &&& forall|r: int|
        q < r <= ip ==> #[trigger] count_instr(instr, r, ip, Instruction::JumpFwd) <= count_instr(
            instr,
            r,
            ip,
            Instruction::JumpBack,
        )
}

/// The `]` at `q` matches the `[` at `ip`: between them lie as many `[` as
/// `]`, and reading rightwards from `ip` no stretch holds more `]` than `[`.
pub open spec fn matches_forward(instr: Seq<u8>, ip: int, q: int) -> bool {
    &&& 0 <= ip < q < instr.len()
    &&& byte_instruction(instr[q]) == Instruction::JumpBack
    &&& count_instr(instr, ip + 1, q, Instruction::JumpFwd) == count_instr(
        instr,
        ip + 1,
        q,
        Instruction::JumpBack,
    )
    &&& forall|s: int|
        ip < s <= q ==> count_instr(instr, ip + 1, s, Instruction::JumpBack) <= #[trigger] count_instr(
            instr,
            ip + 1,
            s,
            Instruction::JumpFwd,
        )
}

pub proof fn lemma_count_last(instr: Seq<u8>, a: int, b: int, op: Instruction)
    requires
        a <= b,
    ensures
        count_instr(instr, a, b + 1, op) == count_instr(instr, a, b, op) + (if byte_instruction(
            instr[b],
        ) == op {
            1int
        } else {
            0int
        }),
    decreases b - a,
{
    if a < b {
        lemma_count_last(instr, a + 1, b, op);
    } else {
        assert(count_instr(instr, a + 1, b + 1, op) == 0);
    }
}

/// The depth of the search for the `[` matching the `]` at `ip`, once it
/// has passed position `j`.
pub open spec fn back_depth(instr: Seq<u8>, j: int, ip: int) -> int {
    1 + count_instr(instr, j, ip, Instruction::JumpBack) - count_instr(
        instr,
        j,
        ip,
        Instruction::JumpFwd,
    )
}

/// The depth of the search for the `]` matching the `[` at `ip`, once it
/// has passed position `j`.
pub open spec fn fwd_depth(instr: Seq<u8>, ip: int, j: int) -> int {
    1 + count_instr(instr, ip + 1, j + 1, Instruction::JumpFwd) - count_instr(
        instr,
        ip + 1,
        j + 1,
        Instruction::JumpBack,
    )
}

proof fn lemma_seek_back_found(instr: Seq<u8>, ip: int, q: int, j: int)
    requires
        matches_backward(instr, q, ip),
        q < j <= ip,
    ensures
        seek_backward(instr, j, back_depth(instr, j, ip)) == q,
    decreases j - q,
{
    assert(count_instr(instr, j, ip, Instruction::JumpFwd) <= count_instr(
        instr,
        j,
        ip,
        Instruction::JumpBack,
    ));
    let prev = j - 1;
    assert(back_depth(instr, prev, ip) == back_depth(instr, j, ip) + (if byte_instruction(
        instr[prev],
    ) == Instruction::JumpBack {
        1int
    } else if byte_instruction(instr[prev]) == Instruction::JumpFwd {
        -1int
    } else {
        0int
    }));
    assert(seek_backward(instr, j, back_depth(instr, j, ip)) == seek_backward(
        instr,
        prev,
        back_depth(instr, prev, ip),
    ));
    if prev == q {
        assert(back_depth(instr, q, ip) == 0);
        assert(seek_backward(instr, q, 0) == q);
    } else {
        lemma_seek_back_found(instr, ip, q, prev);
    }
}

proof fn lemma_seek_back_unmatched(instr: Seq<u8>, ip: int, j: int)
    requires
        0 <= j <= ip < instr.len(),
        forall|q: int| !#[trigger] matches_backward(instr, q, ip),
        forall|r: int|
            j <= r <= ip ==> #[trigger] count_instr(instr, r, ip, Instruction::JumpFwd) <= count_instr(
                instr,
                r,
                ip,
                Instruction::JumpBack,
            ),
    ensures
        seek_backward(instr, j, back_depth(instr, j, ip)) == 0,
    decreases j,
{
    assert(count_instr(instr, j, ip, Instruction::JumpFwd) <= count_instr(
        instr,
        j,
        ip,
        Instruction::JumpBack,
    ));
    if j > 0 {
        let prev = j - 1;
        assert(back_depth(instr, prev, ip) == back_depth(instr, j, ip) + (if byte_instruction(
            instr[prev],
        ) == Instruction::JumpBack {
            1int
        } else if byte_instruction(instr[prev]) == Instruction::JumpFwd {
            -1int
        } else {
            0int
        }));
        assert(!matches_backward(instr, prev, ip));
        assert(seek_backward(instr, j, back_depth(instr, j, ip)) == seek_backward(
            instr,
            prev,
            back_depth(instr, prev, ip),
        ));
        lemma_seek_back_unmatched(instr, ip, prev);
    }
}

proof fn lemma_seek_fwd_found(instr: Seq<u8>, ip: int, q: int, j: int)
    requires
        instr.len() == 64,
        matches_forward(instr, ip, q),
        ip <= j < q,
    ensures
        seek_forward(instr, j, fwd_depth(instr, ip, j)) == q,
    decreases q - j,
{
    assert(count_instr(instr, ip + 1, j + 1, Instruction::JumpBack) <= count_instr(
        instr,
        ip + 1,
        j + 1,
        Instruction::JumpFwd,
    ));
    let next = j + 1;
    lemma_count_last(instr, ip + 1, next, Instruction::JumpFwd);
    lemma_count_last(instr, ip + 1, next, Instruction::JumpBack);
    assert(seek_forward(instr, j, fwd_depth(instr, ip, j)) == seek_forward(
        instr,
        next,
        fwd_depth(instr, ip, next),
    ));
    if next == q {
        assert(fwd_depth(instr, ip, q) == 0);
        assert(seek_forward(instr, q, 0) == q);
    } else {
        lemma_seek_fwd_found(instr, ip, q, next);
    }
}

proof fn lemma_seek_fwd_unmatched(instr: Seq<u8>, ip: int, j: int)
    requires
        instr.len() == 64,
        0 <= ip <= j <= 63,
        forall|q: int| !#[trigger] matches_forward(instr, ip, q),
        forall|s: int|
            ip < s <= j + 1 ==> count_instr(instr, ip + 1, s, Instruction::JumpBack)
                <= #[trigger] count_instr(instr, ip + 1, s, Instruction::JumpFwd),
    ensures
        seek_forward(instr, j, fwd_depth(instr, ip, j)) == 63,
    decreases 63 - j,
{
    assert(count_instr(instr, ip + 1, j + 1, Instruction::JumpBack) <= count_instr(
        instr,
        ip + 1,
        j + 1,
        Instruction::JumpFwd,
    ));
    if j < 63 {
        let next = j + 1;
        lemma_count_last(instr, ip + 1, next, Instruction::JumpFwd);
        lemma_count_last(instr, ip + 1, next, Instruction::JumpBack);
        assert(!matches_forward(instr, ip, next));
        assert(seek_forward(instr, j, fwd_depth(instr, ip, j)) == seek_forward(
            instr,
            next,
            fwd_depth(instr, ip, next),
        ));
        lemma_seek_fwd_unmatched(instr, ip, next);
    }
}

/// A `]` over a nonzero cell sends the program to just past the `[` that
/// matches it, brackets nesting; with no matching `[` it lands just past
/// the first cell. Nothing else changes but the spent energy.
pub proof fn law_jump_back_to_match(p: ProgramView)
    requires
        program_wf(p),
        p.energy > 0,
        byte_instruction(p.instructions[p.ip as int]) == Instruction::JumpBack,
        p.data[p.dp as int] != 0,
    ensures
        forall|q: int|
            #[trigger] matches_backward(p.instructions, q, p.ip as int) ==> step_spec(p).0.ip == q
                + 1,
        (forall|q: int| !#[trigger] matches_backward(p.instructions, q, p.ip as int))
            ==> step_spec(p).0.ip == 1,
        step_spec(p).1 == StepResult::Continue,
        step_spec(p).0 == (ProgramView { ip: step_spec(p).0.ip, energy: (p.energy - 1) as u32, ..p }),
{
    let instr = p.instructions;
    let ip = p.ip as int;
    assert(back_depth(instr, ip, ip) == 1);
    assert forall|q: int| #[trigger] matches_backward(instr, q, ip) implies step_spec(p).0.ip == q
        + 1 by {
        lemma_seek_back_found(instr, ip, q, ip);
    }
    if forall|q: int| !#[trigger] matches_backward(instr, q, ip) {
        lemma_seek_back_unmatched(instr, ip, ip);
    }
}

/// A `[` over a zero cell sends the program to just past the `]` that
/// matches it, brackets nesting; with no matching `]` the search stops at
/// the last cell and the program wraps to the first. Nothing else changes
/// but the spent energy.
pub proof fn law_jump_forward_to_match(p: ProgramView)
    requires
        program_wf(p),
        p.energy > 0,
        byte_instruction(p.instructions[p.ip as int]) == Instruction::JumpFwd,
        p.data[p.dp as int] == 0,
    ensures
        forall|q: int|
            #[trigger] matches_forward(p.instructions, p.ip as int, q) ==> step_spec(p).0.ip == (q
                + 1) % 64,
        (forall|q: int| !#[trigger] matches_forward(p.instructions, p.ip as int, q))
            ==> step_spec(p).0.ip == 0,
        step_spec(p).1 == StepResult::Continue,
        step_spec(p).0 == (ProgramView { ip: step_spec(p).0.ip, energy: (p.energy - 1) as u32, ..p }),
{
    let instr = p.instructions;
    let ip = p.ip as int;
    assert(fwd_depth(instr, ip, ip) == 1);
    assert forall|q: int| #[trigger] matches_forward(instr, ip, q) implies step_spec(p).0.ip == (q
        + 1) % 64 by {
        lemma_seek_fwd_found(instr, ip, q, ip);
    }
    if forall|q: int| !#[trigger] matches_forward(instr, ip, q) {
        lemma_seek_fwd_unmatched(instr, ip, ip);
    }
}

/// A well-formed program can always take a step, the step keeps it
/// well-formed, never touches its instructions, age or generation, and
/// spends one unit of energy when there is any.
pub proof fn law_step_keeps_wf(p: ProgramView)
    requires
        program_wf(p),
    ensures
        step_defined(p),
        program_wf(step_spec(p).0),
        step_spec(p).0.instructions == p.instructions,
        step_spec(p).0.age == p.age,
        step_spec(p).0.generation == p.generation,
        step_spec(p).0.energy == if p.energy == 0 {
            0
        } else {
            p.energy - 1
        },
        step_spec(p).0.data.len() == 64,
{
    if p.energy > 0 {
        let q = ProgramView { energy: (p.energy - 1) as u32, ..p };
        lemma_seek_forward_bounds(q.instructions, q.ip as int, 1);
        lemma_seek_backward_bounds(q.instructions, q.ip as int, 1);
    }
}

/// The program after a step that only spends energy and advances the
/// instruction pointer around the tape.
pub open spec fn advanced(p: ProgramView) -> ProgramView {
    ProgramView { ip: ((p.ip + 1) % 64) as usize, energy: (p.energy - 1) as u32, ..p }
}

/// What each instruction does in a step with energy left. `>` and `<`
/// move the data pointer one cell right or left around the tape; `+` and
/// `-` change the cell under it by one, wrapping; `↑` and `↓` move the
/// dimension focus one dimension up or down among the nine; `R`, `W` and
/// `C` ask the neighbor along the focused dimension, upwards when the cell
/// is below 128 and downwards otherwise, `W` offering the next cell; `H`
/// halts; the others do nothing. A `[` over a nonzero cell and a `]` over
/// a zero cell do nothing either. Every step spends one unit of energy and
/// moves on to the next instruction.
pub proof fn law_step_instructions(p: ProgramView)
    requires
        program_wf(p),
        p.energy > 0,
    ensures
        ({
            let inst = byte_instruction(p.instructions[p.ip as int]);
            let cell = p.data[p.dp as int];
            let dir = if cell < 128 {
                1i8
            } else {
                -1i8
            };
            let (q, r) = step_spec(p);
            &&& inst == Instruction::Right ==> q == (ProgramView {
                dp: ((p.dp + 1) % 64) as usize,
                ..advanced(p)
            }) && r == StepResult::Continue
            &&& inst == Instruction::Left ==> q == (ProgramView {
                dp: ((p.dp + 63) % 64) as usize,
                ..advanced(p)
            }) && r == StepResult::Continue
            &&& inst == Instruction::Inc ==> q == (ProgramView {
                data: p.data.update(p.dp as int, ((cell + 1) % 256) as u8),
                ..advanced(p)
            }) && r == StepResult::Continue
            &&& inst == Instruction::Dec ==> q == (ProgramView {
                data: p.data.update(p.dp as int, ((cell + 255) % 256) as u8),
                ..advanced(p)
            }) && r == StepResult::Continue
            &&& inst == Instruction::DimUp ==> q == (ProgramView {
                dim: ((p.dim + 1) % 9) as u8,
                ..advanced(p)
            }) && r == StepResult::Continue
            &&& inst == Instruction::DimDown ==> q == (ProgramView {
                dim: ((p.dim + 8) % 9) as u8,
                ..advanced(p)
            }) && r == StepResult::Continue
            &&& inst == Instruction::ReadNeighbor ==> q == advanced(p) && r
                == StepResult::ReadNeighbor { dim: p.dim, direction: dir }
            &&& inst == Instruction::WriteNeighbor ==> q == advanced(p) && r
                == StepResult::WriteNeighbor {
                dim: p.dim,
                direction: dir,
                value: p.data[(p.dp + 1) % 64],
            }
            &&& inst == Instruction::CopySelf ==> q == advanced(p) && r == StepResult::CopySelf {
                dim: p.dim,
                direction: dir,
            }
            &&& inst == Instruction::Halt ==> q == advanced(p) && r == StepResult::Halted
            &&& (inst == Instruction::Output || inst == Instruction::Input || inst
                == Instruction::Jump || inst == Instruction::Nop) ==> q == advanced(p) && r
                == StepResult::Continue
            &&& inst == Instruction::JumpFwd && cell != 0 ==> q == advanced(p) && r
                == StepResult::Continue
            &&& inst == Instruction::JumpBack && cell == 0 ==> q == advanced(p) && r
                == StepResult::Continue
        }),
{
}

/// Resetting twice is resetting once.
pub proof fn law_reset_idempotent(p: ProgramView)
    ensures
        reset_spec(reset_spec(p)) == reset_spec(p),
{
}

/// A program without energy halts and does not change.
pub proof fn law_no_energy_halts(p: ProgramView)
    requires
        p.energy == 0,
    ensures
        step_spec(p).0 == p,
        step_spec(p).1 is Halted,
{
}

/// A tape holds no more `CopySelf` instructions than it has cells.
pub proof fn law_copy_count_bound(instr: Seq<u8>)
    ensures
        copy_count(instr) <= instr.len(),
    decreases instr.len(),
{
    if instr.len() > 0 {
        law_copy_count_bound(instr.drop_last());
    }
}

} // verus!
