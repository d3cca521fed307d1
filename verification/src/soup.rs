//! The tape soup of the browser simulation.
//!
//! Programs are byte tapes on a cubic grid. Each epoch pairs programs
//! with a random neighbor, runs each pair on the concatenation of their
//! tapes with a two-headed Brainfuck-like interpreter, writes the halves
//! back, and mutates a few bytes into random opcodes.

use vstd::prelude::*;
use crate::random::DrawingRng;

verus! {

pub const LT: u8 = 60;

pub const GT: u8 = 62;

pub const LB: u8 = 123;

pub const RB: u8 = 125;

pub const MINUS: u8 = 45;

pub const PLUS: u8 = 43;

pub const DOT: u8 = 46;

pub const COMMA: u8 = 44;

pub const LBRACK: u8 = 91;

pub const RBRACK: u8 = 93;

/// What every byte that is no opcode is shown as.
pub const NORMALIZED: u8 = 255;

/// The ten opcodes, in the order random draws pick them.
pub open spec fn opcode_list() -> Seq<u8> {
    seq![LT, GT, LB, RB, MINUS, PLUS, DOT, COMMA, LBRACK, RBRACK]
}

pub open spec fn is_opcode_spec(v: u8) -> bool {
    opcode_list().contains(v)
}

/// The opcode at position `i` of the list of opcodes.
pub fn opcode_at(i: usize) -> (op: u8)
    requires
        i < 10,
    ensures
        op == opcode_list()[i as int],
{
    match i {
        0 => LT,
        1 => GT,
        2 => LB,
        3 => RB,
        4 => MINUS,
        5 => PLUS,
        6 => DOT,
        7 => COMMA,
        8 => LBRACK,
        _ => RBRACK,
    }
}

pub fn is_opcode(val: u8) -> (b: bool)
    ensures
        b == is_opcode_spec(val),
{
    let mut i: usize = 0;
    while i < 10
        invariant
            0 <= i <= 10,
            forall|j: int| 0 <= j < i ==> opcode_list()[j] != val,
        decreases 10 - i,
    {
        if opcode_at(i) == val {
            assert(opcode_list()[i as int] == val);
            return true;
        }
        i = i + 1;
    }
    false
}

/// An opcode stays as it is; any other byte becomes `NORMALIZED`.
pub open spec fn normalize_spec(val: u8) -> u8 {
    if is_opcode_spec(val) {
        val
    } else {
        NORMALIZED
    }
}

/// An opcode stays as it is; any other byte becomes `NORMALIZED`.
pub fn normalize(val: u8) -> (n: u8)
    ensures
        n == normalize_spec(val),
{
    if is_opcode(val) {
        val
    } else {
        NORMALIZED
    }
}

/// Where the search for a matching bracket ends. Starting at `pc` with
/// `depth` brackets open it moves by `step`, opening on `open` and closing
/// on `close`; it finds the position where the depth reaches zero, or
/// nothing when it leaves the tape first.
pub open spec fn seek_spec(tape: Seq<u8>, pc: int, step: int, open: u8, close: u8, depth: int) -> Option<
    int,
>
    decreases (if step > 0 {
        tape.len() - pc
    } else {
        pc + 1
    }),
    when step == 1 || step == -1
{
    if 0 <= pc < tape.len() && depth > 0 {
        let d = if tape[pc] == open {
            depth + 1
        } else if tape[pc] == close {
            depth - 1
        } else {
            depth
        };
        seek_spec(tape, pc + step, step, open, close, d)
    } else if depth == 0 {
        Some(pc - step)
    } else {
        None
    }
}

/// Finds the bracket matching the one at `start_pc`, searching by `step`.
pub fn seek_match(tape: &[u8], start_pc: usize, step: isize, open_tok: u8, close_tok: u8) -> (r: Option<usize>)
    requires
        start_pc < tape@.len(),
        tape@.len() < i32::MAX,
        step == 1 || step == -1,
    ensures
        match seek_spec(tape@, start_pc + step, step as int, open_tok, close_tok, 1) {
            Some(p) => r == Some(p as usize) && 0 <= p < tape@.len(),
            None => r is None,
        },
{
    let mut depth: i32 = 1;
    let mut pc: isize = start_pc as isize + step;
    while pc >= 0 && (pc as usize) < tape.len() && depth > 0
        invariant
            tape@.len() < i32::MAX,
            step == 1 || step == -1,
            -1 <= pc <= tape@.len(),
            0 <= depth <= tape@.len() + 1,
            depth == 0 ==> 0 <= pc - step < tape@.len(),
            seek_spec(tape@, pc as int, step as int, open_tok, close_tok, depth as int)
                == seek_spec(tape@, start_pc + step, step as int, open_tok, close_tok, 1),
            start_pc < tape@.len(),
            depth >= 1 ==> (if step > 0 {
                depth <= pc - start_pc
            } else {
                depth <= start_pc - pc
            }),
        decreases (if step > 0 {
            tape@.len() - pc
        } else {
            pc + 1
        }),
    {
        let opcode = tape[pc as usize];
        if opcode == open_tok {
            depth = depth + 1;
        } else if opcode == close_tok {
            depth = depth - 1;
        }
        pc = pc + step;
    }
    if depth == 0 {
        Some((pc - step) as usize)
    } else {
        None
    }
}

/// The tape after the interpreter has run from instruction `pc` with the
/// heads at `h0` and `h1` for at most `fuel` instructions. It stops when
/// `pc` leaves the tape or a jump finds no matching bracket.
pub open spec fn run_tape_spec(tape: Seq<u8>, pc: int, h0: int, h1: int, fuel: nat) -> Seq<u8>
    decreases fuel,
{
    if fuel == 0 || pc < 0 || pc >= tape.len() {
        tape
    } else {
        let n = tape.len() as int;
        let op = tape[pc];
        let f = (fuel - 1) as nat;
        if op == LT {
            run_tape_spec(tape, pc + 1, (h0 + n - 1) % n, h1, f)
        } else if op == GT {
            run_tape_spec(tape, pc + 1, (h0 + 1) % n, h1, f)
        } else if op == LB {
            run_tape_spec(tape, pc + 1, h0, (h1 + n - 1) % n, f)
        } else if op == RB {
            run_tape_spec(tape, pc + 1, h0, (h1 + 1) % n, f)
        } else if op == MINUS {
            run_tape_spec(tape.update(h0, ((tape[h0] + 255) % 256) as u8), pc + 1, h0, h1, f)
        } else if op == PLUS {
            run_tape_spec(tape.update(h0, ((tape[h0] + 1) % 256) as u8), pc + 1, h0, h1, f)
        } else if op == DOT {
            run_tape_spec(tape.update(h1, tape[h0]), pc + 1, h0, h1, f)
        } else if op == COMMA {
            run_tape_spec(tape.update(h0, tape[h1]), pc + 1, h0, h1, f)
        } else if op == LBRACK && tape[h0] == 0 {
            match seek_spec(tape, pc + 1, 1, LBRACK, RBRACK, 1) {
                Some(np) => run_tape_spec(tape, np + 1, h0, h1, f),
                None => tape,
            }
        } else if op == RBRACK && tape[h0] != 0 {
            match seek_spec(tape, pc - 1, -1, RBRACK, LBRACK, 1) {
                Some(np) => run_tape_spec(tape, np + 1, h0, h1, f),
                None => tape,
            }
        } else {
            run_tape_spec(tape, pc + 1, h0, h1, f)
        }
    }
}

/// What each instruction does, seen on the tape. With the program counter
/// at `pc` and heads at `h0` and `h1`: `+` and `-` change the cell under
/// head 0 by one, wrapping; `.` copies the cell under head 0 to the cell
/// under head 1 and `,` the other way; the head moves change no cell.
/// Followed by `.`, the moves show which head moved where: `>` and `<`
/// move head 0 one cell right or left around the tape, `}` and `{` head 1.
/// A byte that is no opcode does nothing and the run goes on after it.
pub proof fn law_tape_instructions(tape: Seq<u8>, pc: int, h0: int, h1: int, fuel: nat)
    requires
        0 <= pc,
        pc + 1 < tape.len(),
        0 <= h0 < tape.len(),
        0 <= h1 < tape.len(),
    ensures
        ({
            let n = tape.len() as int;
            let op = tape[pc];
            let next = tape[pc + 1];
            &&& op == PLUS ==> run_tape_spec(tape, pc, h0, h1, 1) == tape.update(
                h0,
                ((tape[h0] + 1) % 256) as u8,
            )
            &&& op == MINUS ==> run_tape_spec(tape, pc, h0, h1, 1) == tape.update(
                h0,
                ((tape[h0] + 255) % 256) as u8,
            )
            &&& op == DOT ==> run_tape_spec(tape, pc, h0, h1, 1) == tape.update(h1, tape[h0])
            &&& op == COMMA ==> run_tape_spec(tape, pc, h0, h1, 1) == tape.update(h0, tape[h1])
            &&& (op == LT || op == GT || op == LB || op == RB) ==> run_tape_spec(tape, pc, h0, h1, 1)
                == tape
            &&& op == GT && next == DOT ==> run_tape_spec(tape, pc, h0, h1, 2) == tape.update(
                h1,
                tape[(h0 + 1) % n],
            )
            &&& op == LT && next == DOT ==> run_tape_spec(tape, pc, h0, h1, 2) == tape.update(
                h1,
                tape[(h0 + n - 1) % n],
            )
            &&& op == RB && next == DOT ==> run_tape_spec(tape, pc, h0, h1, 2) == tape.update(
                (h1 + 1) % n,
                tape[h0],
            )
            &&& op == LB && next == DOT ==> run_tape_spec(tape, pc, h0, h1, 2) == tape.update(
                (h1 + n - 1) % n,
                tape[h0],
            )
            &&& !is_opcode_spec(op) ==> run_tape_spec(tape, pc, h0, h1, fuel + 1) == run_tape_spec(
                tape,
                pc + 1,
                h0,
                h1,
                fuel,
            )
        }),
{
    let n = tape.len() as int;
    reveal_with_fuel(run_tape_spec, 3);
    assert(0 <= (h0 + 1) % n < n && 0 <= (h0 + n - 1) % n < n);
    assert(0 <= (h1 + 1) % n < n && 0 <= (h1 + n - 1) % n < n);
    if !is_opcode_spec(tape[pc]) {
        assert(tape[pc] != LT && tape[pc] != GT && tape[pc] != LB && tape[pc] != RB);
        assert(tape[pc] != MINUS && tape[pc] != PLUS && tape[pc] != DOT && tape[pc] != COMMA);
        assert(tape[pc] != LBRACK && tape[pc] != RBRACK);
    }
}

/// How many cells in positions `a` to `b - 1` hold the byte `v`.
pub open spec fn count_byte(tape: Seq<u8>, a: int, b: int, v: u8) -> int
    decreases b - a,
{
    if a >= b {
        0
    } else {
        (if tape[a] == v {
            1int
        } else {
            0int
        }) + count_byte(tape, a + 1, b, v)
    }
}

proof fn lemma_count_byte_last(tape: Seq<u8>, a: int, b: int, v: u8)
    requires
        a <= b,
    ensures
        count_byte(tape, a, b + 1, v) == count_byte(tape, a, b, v) + (if tape[b] == v {
            1int
        } else {
            0int
        }),
    decreases b - a,
{
    if a < b {
        lemma_count_byte_last(tape, a + 1, b, v);
    } else {
        assert(count_byte(tape, a + 1, b + 1, v) == 0);
    }
}

/// The `]` at `q` matches the `[` at `pc`: between them lie as many `[`
/// as `]`, and reading rightwards from `pc` no stretch holds more `]` than `[`.
pub open spec fn closes_bracket(tape: Seq<u8>, pc: int, q: int) -> bool {
    &&& 0 <= pc < q < tape.len()
    &&& tape[q] == RBRACK
    &&& count_byte(tape, pc + 1, q, LBRACK) == count_byte(tape, pc + 1, q, RBRACK)
    &&& forall|s: int|
        pc < s <= q ==> count_byte(tape, pc + 1, s, RBRACK) <= #[trigger] count_byte(
            tape,
            pc + 1,
            s,
            LBRACK,
        )
}

/// The `[` at `q` matches the `]` at `pc`: between them lie as many `[`
/// as `]`, and reading leftwards from `pc` no stretch holds more `[` than `]`.
pub open spec fn opens_bracket(tape: Seq<u8>, q: int, pc: int) -> bool {
    &&& 0 <= q < pc < tape.len()
    &&& tape[q] == LBRACK
    &&& count_byte(tape, q + 1, pc, LBRACK) == count_byte(tape, q + 1, pc, RBRACK)
    &&& forall|r: int|
        q < r <= pc ==> #[trigger] count_byte(tape, r, pc, LBRACK) <= count_byte(tape, r, pc, RBRACK)
}

pub open spec fn fwd_seek_depth(tape: Seq<u8>, pc: int, j: int) -> int {
    1 + count_byte(tape, pc + 1, j, LBRACK) - count_byte(tape, pc + 1, j, RBRACK)
}

pub open spec fn back_seek_depth(tape: Seq<u8>, j: int, pc: int) -> int {
    1 + count_byte(tape, j + 1, pc, RBRACK) - count_byte(tape, j + 1, pc, LBRACK)
}

proof fn lemma_seek_fwd_closes(tape: Seq<u8>, pc: int, q: int, j: int)
    requires
        closes_bracket(tape, pc, q),
        pc + 1 <= j <= q,
    ensures
        seek_spec(tape, j, 1, LBRACK, RBRACK, fwd_seek_depth(tape, pc, j)) == Some(q),
    decreases q - j,
{
    assert(count_byte(tape, pc + 1, j, RBRACK) <= count_byte(tape, pc + 1, j, LBRACK));
    lemma_count_byte_last(tape, pc + 1, j, LBRACK);
    lemma_count_byte_last(tape, pc + 1, j, RBRACK);
    assert(seek_spec(tape, j, 1, LBRACK, RBRACK, fwd_seek_depth(tape, pc, j)) == seek_spec(
        tape,
        j + 1,
        1,
        LBRACK,
        RBRACK,
        fwd_seek_depth(tape, pc, j + 1),
    ));
    if j == q {
        assert(fwd_seek_depth(tape, pc, q + 1) == 0);
        assert(seek_spec(tape, q + 1, 1, LBRACK, RBRACK, 0) == Some(q));
    } else {
        lemma_seek_fwd_closes(tape, pc, q, j + 1);
    }
}

proof fn lemma_seek_fwd_unclosed(tape: Seq<u8>, pc: int, j: int)
    requires
        0 <= pc < j <= tape.len(),
        forall|q: int| !#[trigger] closes_bracket(tape, pc, q),
        forall|s: int|
            pc < s <= j ==> count_byte(tape, pc + 1, s, RBRACK) <= #[trigger] count_byte(
                tape,
                pc + 1,
                s,
                LBRACK,
            ),
    ensures
        seek_spec(tape, j, 1, LBRACK, RBRACK, fwd_seek_depth(tape, pc, j)) is None,
    decreases tape.len() - j,
{
    assert(count_byte(tape, pc + 1, j, RBRACK) <= count_byte(tape, pc + 1, j, LBRACK));
    if j < tape.len() {
        lemma_count_byte_last(tape, pc + 1, j, LBRACK);
        lemma_count_byte_last(tape, pc + 1, j, RBRACK);
        assert(!closes_bracket(tape, pc, j));
        assert(seek_spec(tape, j, 1, LBRACK, RBRACK, fwd_seek_depth(tape, pc, j)) == seek_spec(
            tape,
            j + 1,
            1,
            LBRACK,
            RBRACK,
            fwd_seek_depth(tape, pc, j + 1),
        ));
        lemma_seek_fwd_unclosed(tape, pc, j + 1);
    }
}

proof fn lemma_seek_back_opens(tape: Seq<u8>, q: int, pc: int, j: int)
    requires
        opens_bracket(tape, q, pc),
        q <= j < pc,
    ensures
        seek_spec(tape, j, -1, RBRACK, LBRACK, back_seek_depth(tape, j, pc)) == Some(q),
    decreases j - q,
{
    assert(count_byte(tape, j + 1, pc, LBRACK) <= count_byte(tape, j + 1, pc, RBRACK));
    assert(seek_spec(tape, j, -1, RBRACK, LBRACK, back_seek_depth(tape, j, pc)) == seek_spec(
        tape,
        j - 1,
        -1,
        RBRACK,
        LBRACK,
        back_seek_depth(tape, j - 1, pc),
    ));
    if j == q {
        assert(back_seek_depth(tape, q - 1, pc) == 0);
        assert(seek_spec(tape, q - 1, -1, RBRACK, LBRACK, 0) == Some(q));
    } else {
        lemma_seek_back_opens(tape, q, pc, j - 1);
    }
}

proof fn lemma_seek_back_unopened(tape: Seq<u8>, pc: int, j: int)
    requires
        -1 <= j < pc < tape.len(),
        forall|q: int| !#[trigger] opens_bracket(tape, q, pc),
        forall|r: int|
            j < r <= pc ==> #[trigger] count_byte(tape, r, pc, LBRACK) <= count_byte(
                tape,
                r,
                pc,
                RBRACK,
            ),
    ensures
        seek_spec(tape, j, -1, RBRACK, LBRACK, back_seek_depth(tape, j, pc)) is None,
    decreases j + 1,
{
    assert(count_byte(tape, j + 1, pc, LBRACK) <= count_byte(tape, j + 1, pc, RBRACK));
    if j >= 0 {
        assert(!opens_bracket(tape, j, pc));
        assert(seek_spec(tape, j, -1, RBRACK, LBRACK, back_seek_depth(tape, j, pc)) == seek_spec(
            tape,
            j - 1,
            -1,
            RBRACK,
            LBRACK,
            back_seek_depth(tape, j - 1, pc),
        ));
        lemma_seek_back_unopened(tape, pc, j - 1);
    }
}

/// Where the brackets send a run. A `[` over a zero cell sends it just
/// past the `]` that matches it, brackets nesting, and ends the run when
/// there is none; over a nonzero cell the run goes on with the next cell.
/// A `]` over a nonzero cell sends it just past the `[` that matches it,
/// and ends the run when there is none; over a zero cell the run goes on.
/// Neither changes the tape or the heads.
pub proof fn law_tape_brackets(tape: Seq<u8>, pc: int, h0: int, h1: int, fuel: nat)
    requires
        0 <= pc < tape.len(),
        0 <= h0 < tape.len(),
        0 <= h1 < tape.len(),
    ensures
        tape[pc] == LBRACK && tape[h0] == 0 ==> (forall|q: int|
            #[trigger] closes_bracket(tape, pc, q) ==> run_tape_spec(tape, pc, h0, h1, fuel + 1)
                == run_tape_spec(tape, q + 1, h0, h1, fuel)),
        tape[pc] == LBRACK && tape[h0] == 0 && (forall|q: int| !#[trigger] closes_bracket(tape, pc, q))
            ==> run_tape_spec(tape, pc, h0, h1, fuel + 1) == tape,
        tape[pc] == LBRACK && tape[h0] != 0 ==> run_tape_spec(tape, pc, h0, h1, fuel + 1)
            == run_tape_spec(tape, pc + 1, h0, h1, fuel),
        tape[pc] == RBRACK && tape[h0] != 0 ==> (forall|q: int|
            #[trigger] opens_bracket(tape, q, pc) ==> run_tape_spec(tape, pc, h0, h1, fuel + 1)
                == run_tape_spec(tape, q + 1, h0, h1, fuel)),
        tape[pc] == RBRACK && tape[h0] != 0 && (forall|q: int| !#[trigger] opens_bracket(tape, q, pc))
            ==> run_tape_spec(tape, pc, h0, h1, fuel + 1) == tape,
        tape[pc] == RBRACK && tape[h0] == 0 ==> run_tape_spec(tape, pc, h0, h1, fuel + 1)
            == run_tape_spec(tape, pc + 1, h0, h1, fuel),
{
    assert(fwd_seek_depth(tape, pc, pc + 1) == 1);
    assert(back_seek_depth(tape, pc - 1, pc) == 1);
    if tape[pc] == LBRACK && tape[h0] == 0 {
        assert forall|q: int| #[trigger] closes_bracket(tape, pc, q) implies run_tape_spec(
            tape,
            pc,
            h0,
            h1,
            fuel + 1,
        ) == run_tape_spec(tape, q + 1, h0, h1, fuel) by {
            lemma_seek_fwd_closes(tape, pc, q, pc + 1);
        }
        if forall|q: int| !#[trigger] closes_bracket(tape, pc, q) {
            lemma_seek_fwd_unclosed(tape, pc, pc + 1);
        }
    }
    if tape[pc] == RBRACK && tape[h0] != 0 {
        assert forall|q: int| #[trigger] opens_bracket(tape, q, pc) implies run_tape_spec(
            tape,
            pc,
            h0,
            h1,
            fuel + 1,
        ) == run_tape_spec(tape, q + 1, h0, h1, fuel) by {
            lemma_seek_back_opens(tape, q, pc, pc - 1);
        }
        if forall|q: int| !#[trigger] opens_bracket(tape, q, pc) {
            lemma_seek_back_unopened(tape, pc, pc - 1);
        }
    }
}

/// Runs the interpreter on `tape` from its first cell with both heads at
/// the start, for at most `max_iterations` instructions.
pub fn run_tape(tape: &mut [u8], max_iterations: usize)
    requires
        old(tape)@.len() < i32::MAX,
    ensures
        final(tape)@ == run_tape_spec(old(tape)@, 0, 0, 0, max_iterations as nat),
        final(tape)@.len() == old(tape)@.len(),
{
    let ghost result = run_tape_spec(tape@, 0, 0, 0, max_iterations as nat);
    let tape_size = tape.len();
    let mut pc: usize = 0;
    let mut head0: usize = 0;
    let mut head1: usize = 0;
    let mut iter: usize = 0;
    while iter < max_iterations
        invariant_except_break
            0 <= iter <= max_iterations,
            tape_size == tape@.len(),
            tape_size < i32::MAX,
            pc <= tape_size,
            tape_size > 0 ==> head0 < tape_size && head1 < tape_size,
            run_tape_spec(tape@, pc as int, head0 as int, head1 as int, (max_iterations - iter) as nat)
                == result,
        ensures
            tape@ == result,
            tape@.len() == tape_size,
        decreases max_iterations - iter,
    {
        if pc >= tape_size {
            break ;
        }
        let opcode = tape[pc];
        if opcode == LT {
            head0 = (head0 + tape_size - 1) % tape_size;
        } else if opcode == GT {
            head0 = (head0 + 1) % tape_size;
        } else if opcode == LB {
            head1 = (head1 + tape_size - 1) % tape_size;
        } else if opcode == RB {
            head1 = (head1 + 1) % tape_size;
        } else if opcode == MINUS {
            tape[head0] = tape[head0].wrapping_sub(1);
        } else if opcode == PLUS {
            tape[head0] = tape[head0].wrapping_add(1);
        } else if opcode == DOT {
            tape[head1] = tape[head0];
        } else if opcode == COMMA {
            tape[head0] = tape[head1];
        } else if opcode == LBRACK && tape[head0] == 0 {
            match seek_match(tape, pc, 1, LBRACK, RBRACK) {
                Some(new_pc) => {
                    pc = new_pc;
                },
                None => {
                    break ;
                },
            }
        } else if opcode == RBRACK && tape[head0] != 0 {
            match seek_match(tape, pc, -1, RBRACK, LBRACK) {
                Some(new_pc) => {
                    pc = new_pc;
                },
                None => {
                    break ;
                },
            }
        }
        pc = pc + 1;
        iter = iter + 1;
    }
}

/// The grid position `[l, s, c]` (each from 1 to `g`) of program `idx`,
/// `c` varying fastest.
pub open spec fn grid_coord(idx: int, g: int) -> Seq<int> {
    seq![(idx / g) / g + 1, (idx / g) % g + 1, idx % g + 1]
}

/// The index of grid position `[l, s, c]`.
pub open spec fn grid_index(coord: Seq<int>, g: int) -> int {
    (coord[0] - 1) * g * g + (coord[1] - 1) * g + (coord[2] - 1)
}

/// Every component of `coord` lies between 1 and `g`.
pub open spec fn in_grid(coord: Seq<int>, g: int) -> bool {
    coord.len() == 3 && forall|i: int| 0 <= i < 3 ==> 1 <= #[trigger] coord[i] <= g
}

pub open spec fn index_option(o: bool, coord: Seq<int>, g: int) -> Seq<usize> {
    if o {
        seq![grid_index(coord, g) as usize]
    } else {
        Seq::<usize>::empty()
    }
}

/// The grid neighbors of program `idx` along the first `n` axes: for each
/// axis the one below (if any) and then the one above (if any).
pub open spec fn grid_neighbors_upto(idx: int, g: int, n: int) -> Seq<usize>
    decreases n,
{
    if n <= 0 {
        Seq::<usize>::empty()
    } else {
        let c = grid_coord(idx, g);
        let d = n - 1;
        grid_neighbors_upto(idx, g, n - 1) + index_option(c[d] > 1, c.update(d, c[d] - 1), g)
            + index_option(c[d] < g, c.update(d, c[d] + 1), g)
    }
}

pub open spec fn grid_neighbors(idx: int, g: int) -> Seq<usize> {
    grid_neighbors_upto(idx, g, 3)
}

pub proof fn lemma_grid_coord_in_grid(idx: int, g: int)
    requires
        g >= 1,
        0 <= idx < g * g * g,
    ensures
        in_grid(grid_coord(idx, g), g),
        grid_index(grid_coord(idx, g), g) == idx,
{
    let q = idx / g;
    let c = idx % g;
    let l = q / g;
    let s = q % g;
    vstd::arithmetic::div_mod::lemma_fundamental_div_mod(idx, g);
    vstd::arithmetic::div_mod::lemma_fundamental_div_mod(q, g);
    assert(0 <= c < g);
    assert(0 <= s < g);
    assert(q >= 0 && l >= 0) by {
        vstd::arithmetic::div_mod::lemma_div_pos_is_pos(idx, g);
        vstd::arithmetic::div_mod::lemma_div_pos_is_pos(q, g);
    }
    assert(l < g) by (nonlinear_arith)
        requires
            idx == g * q + c,
            q == g * l + s,
            0 <= c < g,
            0 <= s < g,
            0 <= l,
            idx < g * g * g,
            g >= 1,
    ;
    assert((l + 1 - 1) * g * g + (s + 1 - 1) * g + (c + 1 - 1) == idx) by (nonlinear_arith)
        requires
            idx == g * q + c,
            q == g * l + s,
    ;
}

/// Decoding the index of a grid position gives the position back.
pub proof fn lemma_grid_index_roundtrip(coord: Seq<int>, g: int)
    requires
        g >= 1,
        in_grid(coord, g),
    ensures
        0 <= grid_index(coord, g) < g * g * g,
        grid_coord(grid_index(coord, g), g) == coord,
{
    let l = coord[0] - 1;
    let s = coord[1] - 1;
    let c = coord[2] - 1;
    assert(0 <= l < g && 0 <= s < g && 0 <= c < g);
    let idx = grid_index(coord, g);
    let q = l * g + s;
    assert(idx == q * g + c && 0 <= q) by (nonlinear_arith)
        requires
            idx == l * g * g + s * g + c,
            q == l * g + s,
            0 <= l,
            0 <= s,
            g >= 1,
    ;
    assert(0 <= idx < g * g * g) by (nonlinear_arith)
        requires
            idx == l * g * g + s * g + c,
            0 <= l < g,
            0 <= s < g,
            0 <= c < g,
    ;
    vstd::arithmetic::div_mod::lemma_fundamental_div_mod_converse(idx, g, q, c);
    vstd::arithmetic::div_mod::lemma_fundamental_div_mod_converse(q, g, l, s);
    assert(grid_coord(idx, g) =~= coord);
}

/// The grid position of program `idx`.
fn index_to_coord(idx: usize, grid_size: usize) -> (coord: [usize; 3])
    requires
        grid_size >= 1,
        idx < grid_size * grid_size * grid_size,
    ensures
        coord@.map_values(|x: usize| x as int) == grid_coord(idx as int, grid_size as int),
{
    proof {
        lemma_grid_coord_in_grid(idx as int, grid_size as int);
    }
    let c = (idx % grid_size) + 1;
    let rest = idx / grid_size;
    let s = (rest % grid_size) + 1;
    let l = rest / grid_size + 1;
    let coord: [usize; 3] = [l, s, c];
    assert(coord@.map_values(|x: usize| x as int) =~= grid_coord(idx as int, grid_size as int));
    coord
}

/// The index of a grid position.
fn coord_to_index(coord: &[usize; 3], grid_size: usize) -> (idx: usize)
    requires
        grid_size >= 1,
        grid_size * grid_size * grid_size <= usize::MAX,
        in_grid(coord@.map_values(|x: usize| x as int), grid_size as int),
    ensures
        idx == grid_index(coord@.map_values(|x: usize| x as int), grid_size as int),
{
    let ghost cv = coord@.map_values(|x: usize| x as int);
    let l = coord[0];
    let s = coord[1];
    let c = coord[2];
    assert(cv[0] == l && cv[1] == s && cv[2] == c);
    proof {
        lemma_grid_index_roundtrip(cv, grid_size as int);
    }
    let g = grid_size;
    assert(0 <= (l - 1) * g <= g * g && 0 <= (l - 1) * g * g <= g * g * g && 0 <= (s - 1) * g <= g
        * g && g * g <= g * g * g) by (nonlinear_arith)
        requires
            1 <= l <= g,
            1 <= s <= g,
    ;
    assert((l - 1) * g * g + (s - 1) * g + (c - 1) == grid_index(cv, g as int));
    let plane: usize = (l - 1) * g * g;
    let row: usize = (s - 1) * g;
    let col: usize = c - 1;
    assert(plane + row + col == grid_index(cv, g as int));
    plane + row + col
}

/// The neighbor table of a `grid_size` cube: for each program, the
/// programs one step away along one axis.
fn build_neighbors(grid_size: usize) -> (neighbors: Vec<Vec<usize>>)
    requires
        grid_size * grid_size * grid_size <= usize::MAX,
    ensures
        neighbors@.len() == grid_size * grid_size * grid_size,
        forall|i: int| 0 <= i < neighbors@.len() ==> #[trigger] neighbors@[i]@ == grid_neighbors(i, grid_size as int),
{
    assert(0 <= grid_size * grid_size <= grid_size * grid_size * grid_size || grid_size == 0) by (nonlinear_arith);
    let num_programs = grid_size * grid_size * grid_size;
    let mut neighbors: Vec<Vec<usize>> = Vec::new();
    let mut idx: usize = 0;
    while idx < num_programs
        invariant
            0 <= idx <= num_programs,
            num_programs == grid_size * grid_size * grid_size,
            num_programs <= usize::MAX,
            neighbors@.len() == idx,
            forall|i: int| 0 <= i < idx ==> #[trigger] neighbors@[i]@ == grid_neighbors(i, grid_size as int),
        decreases num_programs - idx,
    {
        assert(grid_size >= 1) by (nonlinear_arith)
            requires
                idx < grid_size * grid_size * grid_size,
        ;
        let coord = index_to_coord(idx, grid_size);
        let ghost cv = grid_coord(idx as int, grid_size as int);
        proof {
            lemma_grid_coord_in_grid(idx as int, grid_size as int);
        }
        assert(coord[0] as int == cv[0] && coord[1] as int == cv[1] && coord[2] as int == cv[2]);
        let mut list: Vec<usize> = Vec::new();
        let mut dim: usize = 0;
        while dim < 3
            invariant
                0 <= dim <= 3,
                grid_size >= 1,
                num_programs == grid_size * grid_size * grid_size,
                idx < num_programs,
                cv == grid_coord(idx as int, grid_size as int),
                in_grid(cv, grid_size as int),
                coord@.map_values(|x: usize| x as int) == cv,
                list@ == grid_neighbors_upto(idx as int, grid_size as int, dim as int),
            decreases 3 - dim,
        {
            let ghost before = list@;
            assert(coord[dim as int] as int == cv[dim as int]);
            if coord[dim] > 1 {
                let mut n_coord = coord;
                n_coord[dim] = n_coord[dim] - 1;
                assert(n_coord@.map_values(|x: usize| x as int) =~= cv.update(dim as int, cv[dim as int] - 1));
                list.push(coord_to_index(&n_coord, grid_size));
            }
            let ghost middle = list@;
            assert(middle == before + index_option(cv[dim as int] > 1, cv.update(dim as int, cv[dim as int] - 1), grid_size as int));
            if coord[dim] < grid_size {
                let mut n_coord = coord;
                n_coord[dim] = n_coord[dim] + 1;
                assert(n_coord@.map_values(|x: usize| x as int) =~= cv.update(dim as int, cv[dim as int] + 1));
                list.push(coord_to_index(&n_coord, grid_size));
            }
            assert(list@ == middle + index_option(cv[dim as int] < grid_size, cv.update(dim as int, cv[dim as int] + 1), grid_size as int));
            dim = dim + 1;
        }
        neighbors.push(list);
        idx = idx + 1;
    }
    neighbors
}

/// The display color of a byte (red, green, blue, alpha), by its
/// normalized value.
pub open spec fn soup_color(b: u8) -> Seq<u8> {
    let n = normalize_spec(b);
    if n == LT {
        seq![255u8, 0u8, 0u8, 255u8]
    } else if n == GT {
        seq![0u8, 255u8, 0u8, 255u8]
    } else if n == LB {
        seq![0u8, 0u8, 255u8, 255u8]
    } else if n == RB {
        seq![255u8, 255u8, 0u8, 255u8]
    } else if n == MINUS {
        seq![255u8, 0u8, 255u8, 255u8]
    } else if n == PLUS {
        seq![0u8, 255u8, 255u8, 255u8]
    } else if n == DOT {
        seq![255u8, 128u8, 0u8, 255u8]
    } else if n == COMMA {
        seq![128u8, 0u8, 255u8, 255u8]
    } else if n == LBRACK {
        seq![255u8, 255u8, 255u8, 255u8]
    } else if n == RBRACK {
        seq![128u8, 128u8, 128u8, 255u8]
    } else {
        seq![0u8, 0u8, 0u8, 255u8]
    }
}

/// The tapes after the pair `(a, b)` has run: the tapes of `a` and `b`
/// are joined, run for 8192 instructions, and split back, `b`'s half
/// written last.
pub open spec fn run_pair_spec(tapes: Seq<u8>, t: int, a: int, b: int) -> Seq<u8> {
    let joined = tapes.subrange(a * t, a * t + t) + tapes.subrange(b * t, b * t + t);
    let out = run_tape_spec(joined, 0, 0, 0, 8192);
    Seq::new(
        tapes.len(),
        |i: int|
            if b * t <= i < b * t + t {
                out[t + i - b * t]
            } else if a * t <= i < a * t + t {
                out[i - a * t]
            } else {
                tapes[i]
            },
    )
}

/// Running a pair touches only its two programs: every other byte stays,
/// the first program's tape receives the first half of the joined run and
/// the second program's tape the second half.
pub proof fn law_run_pair_parts(tapes: Seq<u8>, t: int, a: int, b: int)
    requires
        t >= 0,
        0 <= a,
        0 <= b,
        a != b,
        (a + 1) * t <= tapes.len(),
        (b + 1) * t <= tapes.len(),
    ensures
        ({
            let joined = tapes.subrange(a * t, a * t + t) + tapes.subrange(b * t, b * t + t);
            let out = run_tape_spec(joined, 0, 0, 0, 8192);
            let r = run_pair_spec(tapes, t, a, b);
            &&& r.len() == tapes.len()
            &&& forall|i: int|
                0 <= i < tapes.len() && !(a * t <= i < a * t + t) && !(b * t <= i < b * t + t)
                    ==> #[trigger] r[i] == tapes[i]
            &&& forall|k: int| 0 <= k < t ==> #[trigger] r[a * t + k] == out[k]
            &&& forall|k: int| 0 <= k < t ==> #[trigger] r[b * t + k] == out[t + k]
        }),
{
    assert((a + 1) * t == a * t + t && (b + 1) * t == b * t + t) by (nonlinear_arith);
    assert(a * t + t <= b * t || b * t + t <= a * t) by (nonlinear_arith)
        requires
            a != b,
            t >= 0,
    ;
}

/// The tapes after every pair has run, in order.
pub open spec fn run_pairs_spec(tapes: Seq<u8>, t: int, pairs: Seq<(usize, usize)>) -> Seq<u8>
    decreases pairs.len(),
{
    if pairs.len() == 0 {
        tapes
    } else {
        let before = run_pairs_spec(tapes, t, pairs.drop_last());
        run_pair_spec(before, t, pairs.last().0 as int, pairs.last().1 as int)
    }
}

/// A pairing of programs: each pair joins a program with one of its grid
/// neighbors, and no program takes part in two pairs.
pub open spec fn valid_pairing(pairs: Seq<(usize, usize)>, num: int, g: int) -> bool {
    &&& forall|i: int| 0 <= i < pairs.len() ==> #[trigger] pairs[i].0 < num && grid_neighbors(
        pairs[i].0 as int,
        g,
    ).contains(pairs[i].1)
    &&& forall|i: int, j: int|
        0 <= i < pairs.len() && 0 <= j < pairs.len() && i != j ==> {
            &&& #[trigger] pairs[i].0 != #[trigger] pairs[j].0
            &&& pairs[i].0 != pairs[j].1
            &&& pairs[i].1 != pairs[j].0
            &&& pairs[i].1 != pairs[j].1
        }
    &&& forall|i: int| 0 <= i < pairs.len() ==> #[trigger] pairs[i].0 != pairs[i].1
}

/// The pairs made, and which programs are taken, once programs `0` to
/// `picks.len() - 1` have had their turn, in order. At its turn a program
/// that is not taken and has neighbors looks at its neighbor in position
/// `picks[i]`; if that one is not taken either, the two become a pair.
pub open spec fn greedy_pairs(picks: Seq<usize>, num: int, g: int) -> (Seq<(usize, usize)>, Seq<bool>)
    decreases picks.len(),
{
    if picks.len() == 0 {
        (Seq::<(usize, usize)>::empty(), Seq::new(num as nat, |i: int| false))
    } else {
        let (pairs, taken) = greedy_pairs(picks.drop_last(), num, g);
        let i = picks.len() - 1;
        let nb = grid_neighbors(i, g);
        if !taken[i] && nb.len() > 0 && !taken[nb[picks.last() as int] as int] {
            let m = nb[picks.last() as int];
            (pairs.push((i as usize, m)), taken.update(i, true).update(m as int, true))
        } else {
            (pairs, taken)
        }
    }
}

/// The picks that `greedy_pairs` actually looks at, in order: those of the
/// programs that are free at their turn and have neighbors.
pub open spec fn greedy_draws(picks: Seq<usize>, num: int, g: int) -> Seq<usize>
    decreases picks.len(),
{
    if picks.len() == 0 {
        Seq::<usize>::empty()
    } else {
        let prev = greedy_draws(picks.drop_last(), num, g);
        let taken = greedy_pairs(picks.drop_last(), num, g).1;
        let i = picks.len() - 1;
        if !taken[i] && grid_neighbors(i, g).len() > 0 {
            prev.push(picks.last())
        } else {
            prev
        }
    }
}

/// Each pick is a position among the program's neighbors, where it has any.
pub open spec fn picks_fit(picks: Seq<usize>, g: int) -> bool {
    forall|i: int|
        0 <= i < picks.len() && grid_neighbors(i, g).len() > 0 ==> #[trigger] picks[i]
            < grid_neighbors(i, g).len()
}

/// A `u32` draw stands for the fraction `(draw >> 8) / 2^24` of one:
/// its top 24 bits, as `rand` makes a uniform `f32` in `[0, 1)` of it.
/// True when that fraction lies below `num / den`.
pub open spec fn draw_fraction_below(draw: u32, num: int, den: int) -> bool {
    (draw as int / 256) * den < num * 0x100_0000
}

/// Whether the fraction a draw stands for lies below `num / den`.
pub fn draw_below(draw: u32, num: u32, den: u32) -> (below: bool)
    ensures
        below == draw_fraction_below(draw, num as int, den as int),
{
    let top: u32 = draw >> 8;
    assert(top == draw / 256) by (bit_vector)
        requires
            top == draw >> 8,
    ;
    assert(top * den <= 0xFF_FFFF * 0xFFFF_FFFF) by (nonlinear_arith)
        requires
            top <= 0xFF_FFFF,
    ;
    (top as u64) * (den as u64) < (num as u64) * 0x100_0000u64
}

/// The byte a tape starts with, from the draws made for it: the opcode in
/// position `pick` when the coin stands for a fraction below one half,
/// else the byte drawn.
pub open spec fn seeded_byte(coin: u32, pick: int, byte: u8) -> u8 {
    if draw_fraction_below(coin, 1, 2) {
        opcode_list()[pick]
    } else {
        byte
    }
}

/// The byte a tape starts with, from the coin, the opcode position and
/// the byte drawn for it.
pub fn byte_from_draws(coin: u32, pick: usize, byte: u8) -> (b: u8)
    requires
        pick < 10,
    ensures
        b == seeded_byte(coin, pick as int, byte),
{
    if draw_below(coin, 1, 2) {
        opcode_at(pick)
    } else {
        byte
    }
}

/// The tapes that a record of draws (coin, opcode position, byte) gives,
/// one byte per draw.
pub open spec fn seeded_tapes(draws: Seq<(u32, usize, u8)>) -> Seq<u8> {
    Seq::new(draws.len(), |i: int| seeded_byte(draws[i].0, draws[i].1 as int, draws[i].2))
}

/// A byte after mutation: the opcode in position `pick` when the draw
/// stands for a fraction below one in a thousand, else the byte as it was.
pub open spec fn mutated(byte: u8, draw: u32, pick: int) -> u8 {
    if draw_fraction_below(draw, 1, 1000) {
        opcode_list()[pick]
    } else {
        byte
    }
}

/// A byte after mutation, from the draw and the opcode position drawn.
pub fn mutate_byte(byte: u8, draw: u32, pick: usize) -> (b: u8)
    requires
        pick < 10,
    ensures
        b == mutated(byte, draw, pick as int),
{
    if draw_below(draw, 1, 1000) {
        opcode_at(pick)
    } else {
        byte
    }
}

/// The tapes after mutation with one (draw, opcode position) per byte.
pub open spec fn mutated_tapes(tapes: Seq<u8>, draws: Seq<(u32, usize)>) -> Seq<u8> {
    Seq::new(tapes.len(), |i: int| mutated(tapes[i], draws[i].0, draws[i].1 as int))
}

/// How many of the first `i` draws stand for a fraction below `num / den`.
pub open spec fn hits_before(draws: Seq<u32>, i: int, num: int, den: int) -> int
    decreases i,
{
    if i <= 0 {
        0
    } else {
        hits_before(draws, i - 1, num, den) + (if draw_fraction_below(draws[i - 1], num, den) {
            1int
        } else {
            0int
        })
    }
}

/// Byte `i` of a fresh soup, from the generator's records: its coin is
/// word `i`; a coin below one half takes the next opcode position drawn,
/// any other coin the next byte drawn.
pub open spec fn seeded_from(words: Seq<u32>, indices: Seq<usize>, bytes: Seq<u8>, i: int) -> u8 {
    let h = hits_before(words, i, 1, 2);
    if draw_fraction_below(words[i], 1, 2) {
        opcode_list()[indices[h] as int]
    } else {
        bytes[i - h]
    }
}

/// The tapes after mutation by the draws made for them: byte `i` is
/// decided by draw `i`, and the draws below one in a thousand take the
/// opcode positions drawn, in order.
pub open spec fn mutation_from_draws(tapes: Seq<u8>, draws: Seq<u32>, picks: Seq<usize>) -> Seq<u8> {
    Seq::new(
        tapes.len(),
        |i: int| mutated(tapes[i], draws[i], picks[hits_before(draws, i, 1, 1000)] as int),
    )
}

pub proof fn lemma_hits_push(w: Seq<u32>, d: u32, i: int, num: int, den: int)
    requires
        0 <= i <= w.len(),
    ensures
        hits_before(w.push(d), i, num, den) == hits_before(w, i, num, den),
    decreases i,
{
    if i > 0 {
        lemma_hits_push(w, d, i - 1, num, den);
    }
}

pub proof fn lemma_hits_mono(w: Seq<u32>, i: int, j: int, num: int, den: int)
    requires
        0 <= i <= j,
    ensures
        hits_before(w, i, num, den) <= hits_before(w, j, num, den),
        hits_before(w, j, num, den) - hits_before(w, i, num, den) <= j - i,
    decreases j - i,
{
    if i < j {
        lemma_hits_mono(w, i, j - 1, num, den);
    }
}

pub proof fn lemma_hits_uniform(w: Seq<u32>, i: int, num: int, den: int, below: bool)
    requires
        0 <= i <= w.len(),
        forall|j: int| 0 <= j < i ==> #[trigger] draw_fraction_below(w[j], num, den) == below,
    ensures
        hits_before(w, i, num, den) == if below {
            i
        } else {
            0
        },
    decreases i,
{
    if i > 0 {
        lemma_hits_uniform(w, i - 1, num, den, below);
    }
}

/// Mutation follows the draws made for it: a byte changes only when its
/// own draw stands for a fraction below one in a thousand, and such a byte
/// becomes an opcode. With no such draw the tapes stay as they were and no
/// opcode position is drawn.
pub proof fn law_mutation_follows_draws(tapes: Seq<u8>, draws: Seq<u32>, picks: Seq<usize>)
    requires
        draws.len() == tapes.len(),
        picks.len() == hits_before(draws, draws.len() as int, 1, 1000),
        forall|k: int| 0 <= k < picks.len() ==> #[trigger] picks[k] < 10,
    ensures
        mutation_from_draws(tapes, draws, picks).len() == tapes.len(),
        forall|i: int|
            0 <= i < tapes.len() && #[trigger] mutation_from_draws(tapes, draws, picks)[i] != tapes[i]
                ==> draw_fraction_below(draws[i], 1, 1000),
        forall|i: int|
            0 <= i < tapes.len() && draw_fraction_below(draws[i], 1, 1000) ==> is_opcode_spec(
                #[trigger] mutation_from_draws(tapes, draws, picks)[i],
            ),
        (forall|i: int| 0 <= i < tapes.len() ==> !#[trigger] draw_fraction_below(draws[i], 1, 1000))
            ==> mutation_from_draws(tapes, draws, picks) == tapes && picks.len() == 0,
{
    let r = mutation_from_draws(tapes, draws, picks);
    assert forall|i: int|
        0 <= i < tapes.len() && draw_fraction_below(draws[i], 1, 1000) implies is_opcode_spec(
        #[trigger] r[i],
    ) by {
        let h = hits_before(draws, i, 1, 1000);
        lemma_hits_mono(draws, 0, i, 1, 1000);
        lemma_hits_mono(draws, i + 1, draws.len() as int, 1, 1000);
        assert(hits_before(draws, i + 1, 1, 1000) == h + 1);
        assert(picks[h] < 10);
        let op = opcode_list()[picks[h] as int];
        assert(opcode_list().contains(op)) by {
            assert(opcode_list()[picks[h] as int] == op);
        }
    }
    if forall|i: int| 0 <= i < tapes.len() ==> !#[trigger] draw_fraction_below(draws[i], 1, 1000) {
        lemma_hits_uniform(draws, draws.len() as int, 1, 1000, false);
        assert(r =~= tapes);
    }
}

/// Fresh tapes follow the draws made for them: a byte whose coin stands
/// for a fraction below one half is an opcode. When no coin is, the tapes
/// are exactly the bytes drawn, in order; when every coin is, they are the
/// opcodes at the positions drawn, in order.
pub proof fn law_seeded_bytes_follow_draws(
    words: Seq<u32>,
    indices: Seq<usize>,
    bytes: Seq<u8>,
    n: int,
)
    requires
        0 <= n,
        words.len() == n,
        indices.len() == hits_before(words, n, 1, 2),
        bytes.len() == n - indices.len(),
        forall|k: int| 0 <= k < indices.len() ==> #[trigger] indices[k] < 10,
    ensures
        forall|i: int|
            0 <= i < n && draw_fraction_below(words[i], 1, 2) ==> is_opcode_spec(
                #[trigger] seeded_from(words, indices, bytes, i),
            ),
        (forall|i: int| 0 <= i < n ==> !#[trigger] draw_fraction_below(words[i], 1, 2)) ==> forall|
            i: int,
        |
            0 <= i < n ==> #[trigger] seeded_from(words, indices, bytes, i) == bytes[i],
        (forall|i: int| 0 <= i < n ==> #[trigger] draw_fraction_below(words[i], 1, 2)) ==> forall|
            i: int,
        |
            0 <= i < n ==> #[trigger] seeded_from(words, indices, bytes, i) == opcode_list()[indices[i] as int],
{
    assert forall|i: int|
        0 <= i < n && draw_fraction_below(words[i], 1, 2) implies is_opcode_spec(
        #[trigger] seeded_from(words, indices, bytes, i),
    ) by {
        let h = hits_before(words, i, 1, 2);
        lemma_hits_mono(words, 0, i, 1, 2);
        lemma_hits_mono(words, i + 1, n, 1, 2);
        assert(hits_before(words, i + 1, 1, 2) == h + 1);
        assert(indices[h] < 10);
        let op = opcode_list()[indices[h] as int];
        assert(opcode_list().contains(op)) by {
            assert(opcode_list()[indices[h] as int] == op);
        }
    }
    if forall|i: int| 0 <= i < n ==> !#[trigger] draw_fraction_below(words[i], 1, 2) {
        assert forall|i: int| 0 <= i < n implies #[trigger] seeded_from(words, indices, bytes, i)
            == bytes[i] by {
            lemma_hits_uniform(words, i, 1, 2, false);
        }
    }
    if forall|i: int| 0 <= i < n ==> #[trigger] draw_fraction_below(words[i], 1, 2) {
        assert forall|i: int| 0 <= i < n implies #[trigger] seeded_from(words, indices, bytes, i)
            == opcode_list()[indices[i] as int] by {
            lemma_hits_uniform(words, i, 1, 2, true);
        }
    }
}

/// The browser simulation: a cube of `grid_size` programs per side, each
/// a tape of `tape_size` bytes.
pub struct PhextLife {
    grid_size: usize,
    num_programs: usize,
    tape_size: usize,
    programs: Vec<u8>,
    neighbors: Vec<Vec<usize>>,
    rng: DrawingRng,
    epoch: u32,
}

impl PhextLife {
    /// The sizes agree and the neighbor table is that of the grid.
    pub closed spec fn wf(&self) -> bool {
        &&& self.num_programs == self.grid_size * self.grid_size * self.grid_size
        &&& self.num_programs * self.tape_size <= usize::MAX
        &&& self.grid_size >= 2 ==> 2 * self.tape_size < i32::MAX
        &&& self.programs@.len() == self.num_programs * self.tape_size
        &&& self.neighbors@.len() == self.num_programs
        &&& forall|i: int|
            0 <= i < self.num_programs ==> #[trigger] self.neighbors@[i]@ == grid_neighbors(
                i,
                self.grid_size as int,
            )
    }

    /// The programs' tapes, one after the other.
    pub closed spec fn tapes(&self) -> Seq<u8> {
        self.programs@
    }

    pub closed spec fn spec_grid_size(&self) -> usize {
        self.grid_size
    }

    pub closed spec fn spec_tape_size(&self) -> usize {
        self.tape_size
    }

    pub closed spec fn spec_epoch(&self) -> u32 {
        self.epoch
    }

    /// The words the soup's generator has handed out, in order.
    pub closed spec fn drawn_words(&self) -> Seq<u32> {
        self.rng.words()
    }

    /// The indices the soup's generator has handed out, in order.
    pub closed spec fn drawn_indices(&self) -> Seq<usize> {
        self.rng.indices()
    }

    /// The bytes the soup's generator has handed out, in order.
    pub closed spec fn drawn_bytes(&self) -> Seq<u8> {
        self.rng.bytes()
    }

    /// A cube of `grid_size` programs per side with random tapes of
    /// `tape_size` bytes, the generator seeded with `seed`. Each byte is
    /// with even odds a random opcode or a random byte.
    pub fn new(grid_size: usize, tape_size: usize, seed: u64) -> (life: Self)
        requires
            grid_size * grid_size * grid_size <= usize::MAX,
            grid_size * grid_size * grid_size * tape_size <= usize::MAX,
            grid_size >= 2 ==> 2 * tape_size < i32::MAX,
        ensures
            life.wf(),
            life.spec_grid_size() == grid_size,
            life.spec_tape_size() == tape_size,
            life.spec_epoch() == 0,
            life.tapes().len() == grid_size * grid_size * grid_size * tape_size,
            exists|draws: Seq<(u32, usize, u8)>|
                draws.len() == grid_size * grid_size * grid_size * tape_size && (forall|i: int|
                    0 <= i < draws.len() ==> #[trigger] draws[i].1 < 10) && life.tapes()
                    == #[trigger] seeded_tapes(draws),
            life.drawn_words().len() == grid_size * grid_size * grid_size * tape_size,
            life.drawn_indices().len() == hits_before(
                life.drawn_words(),
                grid_size * grid_size * grid_size * tape_size,
                1,
                2,
            ),
            life.drawn_bytes().len() == grid_size * grid_size * grid_size * tape_size
                - life.drawn_indices().len(),
            forall|k: int|
                0 <= k < life.drawn_indices().len() ==> #[trigger] life.drawn_indices()[k] < 10,
            forall|i: int|
                0 <= i < life.tapes().len() ==> #[trigger] life.tapes()[i] == seeded_from(
                    life.drawn_words(),
                    life.drawn_indices(),
                    life.drawn_bytes(),
                    i,
                ),
    {
        assert(0 <= grid_size * grid_size <= grid_size * grid_size * grid_size || grid_size == 0)
            by (nonlinear_arith);
        let num_programs = grid_size * grid_size * grid_size;
        let mut rng = DrawingRng::seeded(seed);
        let total = num_programs * tape_size;
        let mut programs: Vec<u8> = Vec::new();
        let mut i: usize = 0;
        let ghost mut draws: Seq<(u32, usize, u8)> = Seq::empty();
        while i < total
            invariant
                0 <= i <= total,
                programs@.len() == i,
                draws.len() == i,
                forall|j: int| 0 <= j < draws.len() ==> #[trigger] draws[j].1 < 10,
                programs@ == seeded_tapes(draws),
                rng.words().len() == i,
                rng.indices().len() == hits_before(rng.words(), i as int, 1, 2),
                rng.bytes().len() == i - rng.indices().len(),
                forall|k: int| 0 <= k < rng.indices().len() ==> #[trigger] rng.indices()[k] < 10,
                forall|j: int|
                    0 <= j < i ==> #[trigger] programs@[j] == seeded_from(
                        rng.words(),
                        rng.indices(),
                        rng.bytes(),
                        j,
                    ),
            decreases total - i,
        {
            let ghost w0 = rng.words();
            let ghost i0 = rng.indices();
            let ghost b0 = rng.bytes();
            let byte = Self::random_byte(&mut rng);
            proof {
                let c = rng.words().last();
                assert(rng.words() == w0.push(c));
                lemma_hits_push(w0, c, i as int, 1, 2);
                assert forall|j: int| 0 <= j < i implies #[trigger] seeded_from(
                    rng.words(),
                    rng.indices(),
                    rng.bytes(),
                    j,
                ) == seeded_from(w0, i0, b0, j) by {
                    lemma_hits_push(w0, c, j, 1, 2);
                    lemma_hits_mono(w0, 0, j, 1, 2);
                    lemma_hits_mono(w0, j + 1, i as int, 1, 2);
                    let h = hits_before(w0, j, 1, 2);
                    assert(hits_before(w0, j + 1, 1, 2) == h + (if draw_fraction_below(w0[j], 1, 2) {
                        1int
                    } else {
                        0int
                    }));
                    assert(rng.words()[j] == w0[j]);
                    if draw_fraction_below(w0[j], 1, 2) {
                        assert(rng.indices()[h] == i0[h]);
                    } else {
                        assert(rng.bytes()[j - h] == b0[j - h]);
                    }
                }
                assert forall|k: int| 0 <= k < rng.indices().len() implies #[trigger] rng.indices()[k]
                    < 10 by {
                    if k < i0.len() {
                        assert(rng.indices()[k] == i0[k]);
                    }
                }
            }
            proof {
                let (c, k, b) = choose|c: u32, k: usize, b: u8| k < 10 && byte == seeded_byte(
                    c,
                    k as int,
                    b,
                );
                let next = draws.push((c, k, b));
                assert forall|j: int| 0 <= j < next.len() implies #[trigger] next[j].1 < 10 by {
                    if j < draws.len() {
                        assert(next[j] == draws[j]);
                    }
                }
                assert(programs@.push(byte) =~= seeded_tapes(next));
                draws = next;
            }
            let ghost before = programs@;
            programs.push(byte);
            proof {
                assert forall|j: int| 0 <= j < i + 1 implies #[trigger] programs@[j] == seeded_from(
                    rng.words(),
                    rng.indices(),
                    rng.bytes(),
                    j,
                ) by {
                    if j < i {
                        assert(programs@[j] == before[j]);
                    }
                }
                lemma_hits_push(w0, rng.words().last(), i as int, 1, 2);
            }
            i = i + 1;
        }
        let neighbors = build_neighbors(grid_size);
        PhextLife { grid_size, num_programs, tape_size, programs, neighbors, rng, epoch: 0 }
    }

    /// A random byte: with even odds an opcode drawn from the ten or any
    /// byte. `gen::<f32>()` makes its value of one `u32` draw, so the coin
    /// is that draw, and it shows an opcode when the fraction the draw
    /// stands for is below one half.
    fn random_byte(rng: &mut DrawingRng) -> (r: u8)
        ensures
            exists|coin: u32, pick: usize, byte: u8| pick < 10 && r == #[trigger] seeded_byte(
                coin,
                pick as int,
                byte,
            ),
            final(rng).words().len() == old(rng).words().len() + 1,
            final(rng).words() == old(rng).words().push(final(rng).words().last()),
            draw_fraction_below(final(rng).words().last(), 1, 2) ==> {
                &&& final(rng).indices().len() == old(rng).indices().len() + 1
                &&& final(rng).indices() == old(rng).indices().push(final(rng).indices().last())
                &&& final(rng).indices().last() < 10
                &&& r == opcode_list()[final(rng).indices().last() as int]
                &&& final(rng).bytes() == old(rng).bytes()
            },
            !draw_fraction_below(final(rng).words().last(), 1, 2) ==> {
                &&& final(rng).indices() == old(rng).indices()
                &&& final(rng).bytes() == old(rng).bytes().push(r)
            },
    {
        let coin = rng.next_u32();
        if draw_below(coin, 1, 2) {
            let pick = rng.next_index(0, 10);
            byte_from_draws(coin, pick, 0)
        } else {
            let byte = rng.next_byte();
            byte_from_draws(coin, 0, byte)
        }
    }

    /// One epoch: pair each program not yet paired with a random neighbor
    /// not yet paired, run every pair, then turn about one byte in a
    /// thousand into a random opcode.
    pub fn step(&mut self)
        requires
            old(self).wf(),
            old(self).spec_epoch() < u32::MAX,
        ensures
            final(self).wf(),
            final(self).spec_epoch() == old(self).spec_epoch() + 1,
            final(self).spec_grid_size() == old(self).spec_grid_size(),
            final(self).spec_tape_size() == old(self).spec_tape_size(),
            final(self).tapes().len() == old(self).tapes().len(),
            ({
                let g = old(self).spec_grid_size() as int;
                let n = g * g * g;
                exists|picks: Seq<usize>, draws: Seq<(u32, usize)>|
                    picks.len() == n && picks_fit(picks, g) && valid_pairing(
                        greedy_pairs(picks, n, g).0,
                        n,
                        g,
                    ) && draws.len() == old(self).tapes().len() && (forall|i: int|
                        0 <= i < draws.len() ==> #[trigger] draws[i].1 < 10) && final(self).tapes()
                        == #[trigger] mutated_tapes(
                        run_pairs_spec(
                            old(self).tapes(),
                            old(self).spec_tape_size() as int,
                            greedy_pairs(picks, n, g).0,
                        ),
                        draws,
                    )
            }),
            ({
                let g = old(self).spec_grid_size() as int;
                let n = g * g * g;
                exists|picks: Seq<usize>, d: Seq<u32>, p: Seq<usize>|
                    picks.len() == n && picks_fit(picks, g) && valid_pairing(
                        greedy_pairs(picks, n, g).0,
                        n,
                        g,
                    ) && d.len() == old(self).tapes().len() && p.len() == hits_before(
                        d,
                        d.len() as int,
                        1,
                        1000,
                    ) && (forall|k: int| 0 <= k < p.len() ==> #[trigger] p[k] < 10)
                        && final(self).drawn_words() == old(self).drawn_words() + d
                        && final(self).drawn_indices() == old(self).drawn_indices() + greedy_draws(
                        picks,
                        n,
                        g,
                    ) + p && final(self).drawn_bytes() == old(self).drawn_bytes()
                        && final(self).tapes() == #[trigger] mutation_from_draws(
                        run_pairs_spec(
                            old(self).tapes(),
                            old(self).spec_tape_size() as int,
                            greedy_pairs(picks, n, g).0,
                        ),
                        d,
                        p,
                    )
            }),
    {
        let ghost g = self.grid_size as int;
        let ghost n = self.num_programs as int;
        let ghost t = self.tape_size as int;
        let ghost tapes0 = self.programs@;
        let ghost w0 = self.drawn_words();
        let ghost i0 = self.drawn_indices();
        let ghost b0 = self.drawn_bytes();
        let pairs = self.select_pairs();
        let ghost i1 = self.drawn_indices();
        let ghost picks = choose|picks: Seq<usize>|
            picks.len() == n && picks_fit(picks, g) && pairs@ == (#[trigger] greedy_pairs(
                picks,
                n,
                g,
            )).0 && i1 == i0 + greedy_draws(picks, n, g);
        self.run_pairs(&pairs);
        let ghost ran = self.programs@;
        let ghost w2 = self.drawn_words();
        let ghost i2 = self.drawn_indices();
        self.mutate();
        let ghost draws = choose|draws: Seq<(u32, usize)>|
            draws.len() == ran.len() && (forall|i: int|
                0 <= i < draws.len() ==> #[trigger] draws[i].1 < 10) && self.programs@
                == #[trigger] mutated_tapes(ran, draws);
        let ghost (d, p) = choose|d: Seq<u32>, p: Seq<usize>|
            self.drawn_words() == w2 + d && self.drawn_indices() == i2 + p && d.len() == ran.len()
                && p.len() == hits_before(d, d.len() as int, 1, 1000) && (forall|k: int|
                0 <= k < p.len() ==> #[trigger] p[k] < 10) && self.programs@
                == #[trigger] mutation_from_draws(ran, d, p);
        self.epoch = self.epoch + 1;
        assert(self.tapes() == mutated_tapes(
            run_pairs_spec(tapes0, t, greedy_pairs(picks, n, g).0),
            draws,
        ));
        assert(w2 == w0 && i2 == i1);
        assert(self.drawn_indices() == i0 + greedy_draws(picks, n, g) + p);
        assert(self.tapes() == mutation_from_draws(
            run_pairs_spec(tapes0, t, greedy_pairs(picks, n, g).0),
            d,
            p,
        ));
    }

    /// Pairs each program, in order, that is not yet paired and has a
    /// neighbor, with one of its neighbors drawn at random, if that one is
    /// not yet paired.
    fn select_pairs(&mut self) -> (pairs: Vec<(usize, usize)>)
        requires
            old(self).wf(),
        ensures
            final(self).wf(),
            final(self).neighbors@ == old(self).neighbors@,
            valid_pairing(pairs@, old(self).num_programs as int, old(self).grid_size as int),
            forall|i: int|
                0 <= i < pairs@.len() ==> #[trigger] pairs@[i].0 < old(self).num_programs
                    && pairs@[i].1 < old(self).num_programs,
            exists|picks: Seq<usize>|
                picks.len() == old(self).num_programs && picks_fit(picks, old(self).grid_size as int)
                    && pairs@ == (#[trigger] greedy_pairs(
                    picks,
                    old(self).num_programs as int,
                    old(self).grid_size as int,
                )).0 && final(self).drawn_indices() == old(self).drawn_indices() + greedy_draws(
                    picks,
                    old(self).num_programs as int,
                    old(self).grid_size as int,
                ),
            final(self).drawn_words() == old(self).drawn_words(),
            final(self).drawn_bytes() == old(self).drawn_bytes(),
            final(self).programs@ == old(self).programs@,
            final(self).grid_size == old(self).grid_size,
            final(self).num_programs == old(self).num_programs,
            final(self).tape_size == old(self).tape_size,
            final(self).epoch == old(self).epoch,
    {
        let n = self.num_programs;
        let mut taken: Vec<bool> = Vec::new();
        let mut z: usize = 0;
        while z < n
            invariant
                0 <= z <= n,
                taken@.len() == z,
                forall|i: int| 0 <= i < z ==> !#[trigger] taken@[i],
            decreases n - z,
        {
            taken.push(false);
            z = z + 1;
        }
        let mut pairs: Vec<(usize, usize)> = Vec::new();
        let ghost g = self.grid_size as int;
        let ghost mut picks: Seq<usize> = Seq::empty();
        assert(taken@ =~= Seq::new(n as nat, |i: int| false));
        proof {
            assert forall|i: int, k: int| 0 <= i < n && 0 <= k < self.neighbors@[i]@.len() implies
                #[trigger] self.neighbors@[i]@[k] < n && self.neighbors@[i]@[k] != i by {
                let gs = self.grid_size as int;
                assert(gs >= 1) by (nonlinear_arith)
                    requires
                        0 <= i < gs * gs * gs,
                        gs >= 0,
                ;
                lemma_grid_neighbors_valid(i, gs, 3);
                assert(self.neighbors@[i]@ == grid_neighbors(i, self.grid_size as int));
            }
        }
        let mut prog_idx: usize = 0;
        while prog_idx < n
            invariant
                0 <= prog_idx <= n,
                n == self.num_programs,
                self.programs@ == old(self).programs@,
                self.grid_size == old(self).grid_size,
                self.num_programs == old(self).num_programs,
                self.tape_size == old(self).tape_size,
                self.epoch == old(self).epoch,
                self.neighbors@.len() == n,
                forall|i: int|
                    0 <= i < n ==> #[trigger] self.neighbors@[i]@ == grid_neighbors(
                        i,
                        self.grid_size as int,
                    ),
                forall|i: int, k: int|
                    0 <= i < n && 0 <= k < self.neighbors@[i]@.len() ==> #[trigger] self.neighbors@[i]@[k]
                        < n && self.neighbors@[i]@[k] != i,
                taken@.len() == n,
                valid_pairing(pairs@, n as int, self.grid_size as int),
                forall|i: int|
                    #![trigger pairs@[i]]
                    0 <= i < pairs@.len() ==> pairs@[i].1 < n && taken@[pairs@[i].0 as int]
                        && taken@[pairs@[i].1 as int],
                self.neighbors@ == old(self).neighbors@,
                g == self.grid_size as int,
                picks.len() == prog_idx,
                picks_fit(picks, g),
                (pairs@, taken@) == greedy_pairs(picks, n as int, g),
                self.rng.indices() == old(self).rng.indices() + greedy_draws(picks, n as int, g),
                self.rng.words() == old(self).rng.words(),
                self.rng.bytes() == old(self).rng.bytes(),
            decreases n - prog_idx,
        {
            let ghost nb = grid_neighbors(prog_idx as int, g);
            let ghost pick: usize = 0;
            assert(self.neighbors@[prog_idx as int]@ == nb);
            if !taken[prog_idx] && self.neighbors[prog_idx].len() > 0 {
                let choices = self.neighbors[prog_idx].len();
                let pick_now = self.rng.next_index(0, choices);
                proof {
                    pick = pick_now;
                }
                let neighbor_idx = self.neighbors[prog_idx][pick_now];
                proof {
                    assert(self.neighbors@[prog_idx as int]@[pick_now as int] == neighbor_idx);
                }
                if !taken[neighbor_idx] {
                    let ghost before = pairs@;
                    let ghost taken_before = taken@;
                    taken[prog_idx] = true;
                    taken[neighbor_idx] = true;
                    pairs.push((prog_idx, neighbor_idx));
                    proof {
                        assert(grid_neighbors(prog_idx as int, self.grid_size as int).contains(neighbor_idx));
                        assert forall|i: int| 0 <= i < before.len() implies before[i].0 != prog_idx
                            && before[i].1 != prog_idx && before[i].0 != neighbor_idx && before[i].1
                            != neighbor_idx by {
                            assert(before[i] == pairs@[i]);
                            assert(taken_before[before[i].0 as int] && taken_before[before[i].1 as int]);
                        }
                    }
                }
            }
            proof {
                let next = picks.push(pick);
                assert(next.drop_last() =~= picks);
                assert(next.last() == pick);
                assert forall|i: int|
                    0 <= i < next.len() && grid_neighbors(i, g).len() > 0 implies #[trigger] next[i]
                        < grid_neighbors(i, g).len() by {
                    if i < picks.len() {
                        assert(next[i] == picks[i]);
                    }
                }
                assert(self.rng.indices() =~= old(self).rng.indices() + greedy_draws(
                    next,
                    n as int,
                    g,
                ));
                assert(taken@ =~= greedy_pairs(next, n as int, g).1);
                assert(pairs@ =~= greedy_pairs(next, n as int, g).0);
                picks = next;
            }
            prog_idx = prog_idx + 1;
        }
        assert(picks.len() == n && picks_fit(picks, g) && pairs@ == greedy_pairs(picks, n as int, g).0);
        pairs
    }

    /// Runs every pair in order on the joined tapes of its two programs.
    fn run_pairs(&mut self, pairs: &Vec<(usize, usize)>)
        requires
            old(self).wf(),
            forall|i: int|
                0 <= i < pairs@.len() ==> #[trigger] pairs@[i].0 < old(self).num_programs
                    && pairs@[i].1 < old(self).num_programs && pairs@[i].0 != pairs@[i].1,
        ensures
            final(self).wf(),
            final(self).neighbors@ == old(self).neighbors@,
            final(self).programs@ == run_pairs_spec(
                old(self).programs@,
                old(self).tape_size as int,
                pairs@,
            ),
            final(self).grid_size == old(self).grid_size,
            final(self).num_programs == old(self).num_programs,
            final(self).tape_size == old(self).tape_size,
            final(self).rng == old(self).rng,
            final(self).epoch == old(self).epoch,
    {
        let t = self.tape_size;
        let mut p: usize = 0;
        assert(pairs@.take(0) =~= Seq::<(usize, usize)>::empty());
        while p < pairs.len()
            invariant
                0 <= p <= pairs@.len(),
                forall|i: int|
                    0 <= i < pairs@.len() ==> #[trigger] pairs@[i].0 < self.num_programs
                        && pairs@[i].1 < self.num_programs && pairs@[i].0 != pairs@[i].1,
                t == self.tape_size,
                self.grid_size == old(self).grid_size,
                self.num_programs == old(self).num_programs,
                self.tape_size == old(self).tape_size,
                self.epoch == old(self).epoch,
                self.programs@ == run_pairs_spec(old(self).programs@, t as int, pairs@.take(p as int)),
                self.neighbors@ == old(self).neighbors@,
                self.rng == old(self).rng,
                old(self).wf(),
                self.programs@.len() == old(self).programs@.len(),
            decreases pairs@.len() - p,
        {
            assert(self.wf());
            let (idx_a, idx_b) = pairs[p];
            assert(pairs@[p as int].0 < self.num_programs && pairs@[p as int].1 < self.num_programs);
            self.run_pair(idx_a, idx_b);
            assert(pairs@.take(p + 1).drop_last() =~= pairs@.take(p as int));
            assert(pairs@.take(p + 1).last() == pairs@[p as int]);
            p = p + 1;
        }
        assert(pairs@.take(pairs@.len() as int) =~= pairs@);
    }

    /// Runs programs `idx_a` and `idx_b` on their joined tapes and writes
    /// the halves back.
    fn run_pair(&mut self, idx_a: usize, idx_b: usize)
        requires
            old(self).wf(),
            idx_a < old(self).num_programs,
            idx_b < old(self).num_programs,
            idx_a != idx_b,
        ensures
            final(self).wf(),
            final(self).neighbors@ == old(self).neighbors@,
            final(self).programs@ == run_pair_spec(
                old(self).programs@,
                old(self).tape_size as int,
                idx_a as int,
                idx_b as int,
            ),
            final(self).grid_size == old(self).grid_size,
            final(self).num_programs == old(self).num_programs,
            final(self).tape_size == old(self).tape_size,
            final(self).rng == old(self).rng,
            final(self).epoch == old(self).epoch,
    {
        let ghost old_tapes = self.programs@;
        let t = self.tape_size;
        let n = self.num_programs;
        let ghost g = self.grid_size as int;
        assert(g >= 2) by (nonlinear_arith)
            requires
                n == g * g * g,
                g >= 0,
                idx_a < n,
                idx_b < n,
                idx_a != idx_b,
        ;
        assert(idx_a * t + t <= n * t && idx_b * t + t <= n * t) by (nonlinear_arith)
            requires
                idx_a < n,
                idx_b < n,
                t >= 0,
        ;
        let start_a = idx_a * t;
        let start_b = idx_b * t;
        let mut concat_tape: Vec<u8> = Vec::new();
        let mut k: usize = 0;
        while k < t
            invariant
                0 <= k <= t,
                start_a + t <= self.programs@.len(),
                self.programs@.len() <= usize::MAX,
                concat_tape@ == self.programs@.subrange(start_a as int, start_a + k),
            decreases t - k,
        {
            concat_tape.push(self.programs[start_a + k]);
            assert(self.programs@.subrange(start_a as int, start_a + k + 1) =~= self.programs@.subrange(
                start_a as int,
                start_a + k,
            ).push(self.programs@[start_a + k]));
            k = k + 1;
        }
        let mut k: usize = 0;
        while k < t
            invariant
                0 <= k <= t,
                start_a + t <= self.programs@.len(),
                start_b + t <= self.programs@.len(),
                self.programs@.len() <= usize::MAX,
                concat_tape@ == self.programs@.subrange(start_a as int, start_a + t)
                    + self.programs@.subrange(start_b as int, start_b + k),
            decreases t - k,
        {
            concat_tape.push(self.programs[start_b + k]);
            assert(self.programs@.subrange(start_b as int, start_b + k + 1) =~= self.programs@.subrange(
                start_b as int,
                start_b + k,
            ).push(self.programs@[start_b + k]));
            k = k + 1;
        }
        assert(concat_tape@.len() == 2 * t);
        let ghost joined = concat_tape@;
        run_tape(concat_tape.as_mut_slice(), 8192);
        let ghost out = run_tape_spec(joined, 0, 0, 0, 8192);
        assert(concat_tape@ == out);
        let mut k: usize = 0;
        while k < t
            invariant
                0 <= k <= t,
                t == self.tape_size,
                start_a == idx_a * t,
                start_a + t <= old_tapes.len(),
                concat_tape@ == out,
                out.len() == 2 * t,
                2 * t < i32::MAX,
                self.programs@.len() == old_tapes.len(),
                self.grid_size == old(self).grid_size,
                self.num_programs == old(self).num_programs,
                self.tape_size == old(self).tape_size,
                self.epoch == old(self).epoch,
                self.neighbors@ == old(self).neighbors@,
                self.rng == old(self).rng,
                old_tapes.len() <= usize::MAX,
                forall|i: int|
                    0 <= i < old_tapes.len() ==> #[trigger] self.programs@[i] == if start_a <= i
                        < start_a + k {
                        out[i - start_a]
                    } else {
                        old_tapes[i]
                    },
            decreases t - k,
        {
            self.programs[start_a + k] = concat_tape[k];
            k = k + 1;
        }
        let mut k: usize = 0;
        while k < t
            invariant
                0 <= k <= t,
                t == self.tape_size,
                start_a == idx_a * t,
                start_b == idx_b * t,
                start_a + t <= old_tapes.len(),
                start_b + t <= old_tapes.len(),
                concat_tape@ == out,
                out.len() == 2 * t,
                2 * t < i32::MAX,
                self.programs@.len() == old_tapes.len(),
                self.grid_size == old(self).grid_size,
                self.num_programs == old(self).num_programs,
                self.tape_size == old(self).tape_size,
                self.epoch == old(self).epoch,
                self.neighbors@ == old(self).neighbors@,
                self.rng == old(self).rng,
                old_tapes.len() <= usize::MAX,
                forall|i: int|
                    0 <= i < old_tapes.len() ==> #[trigger] self.programs@[i] == if start_b <= i
                        < start_b + k {
                        out[t + i - start_b]
                    } else if start_a <= i < start_a + t {
                        out[i - start_a]
                    } else {
                        old_tapes[i]
                    },
            decreases t - k,
        {
            self.programs[start_b + k] = concat_tape[t + k];
            k = k + 1;
        }
        assert(self.programs@ =~= run_pair_spec(old_tapes, t as int, idx_a as int, idx_b as int));
    }

    /// Each byte, with odds of about one in a thousand, becomes a random
    /// opcode. `gen::<f32>()` makes its value of one `u32` draw, so the draw
    /// is made as that `u32`. The `f32` nearest 0.001 and 1/1000 itself both
    /// lie between 16777 and 16778 parts in 2^24, so comparing the fraction
    /// with 1/1000 gives the outcome the comparison with 0.001 gives.
    fn mutate(&mut self)
        requires
            old(self).wf(),
        ensures
            final(self).wf(),
            final(self).neighbors@ == old(self).neighbors@,
            final(self).programs@.len() == old(self).programs@.len(),
            exists|draws: Seq<(u32, usize)>|
                draws.len() == old(self).programs@.len() && (forall|i: int|
                    0 <= i < draws.len() ==> #[trigger] draws[i].1 < 10) && final(self).programs@
                    == #[trigger] mutated_tapes(old(self).programs@, draws),
            exists|d: Seq<u32>, p: Seq<usize>|
                final(self).drawn_words() == old(self).drawn_words() + d && final(self).drawn_indices()
                    == old(self).drawn_indices() + p && d.len() == old(self).programs@.len() && p.len()
                    == hits_before(d, d.len() as int, 1, 1000) && (forall|k: int|
                    0 <= k < p.len() ==> #[trigger] p[k] < 10) && final(self).programs@
                    == #[trigger] mutation_from_draws(old(self).programs@, d, p),
            final(self).drawn_bytes() == old(self).drawn_bytes(),
            final(self).grid_size == old(self).grid_size,
            final(self).num_programs == old(self).num_programs,
            final(self).tape_size == old(self).tape_size,
            final(self).epoch == old(self).epoch,
    {
        let len = self.programs.len();
        let ghost start = self.programs@;
        let ghost mut draws: Seq<(u32, usize)> = Seq::empty();
        let ghost w0 = self.rng.words();
        let ghost i0 = self.rng.indices();
        let ghost mut dw: Seq<u32> = Seq::empty();
        let ghost mut dp: Seq<usize> = Seq::empty();
        let mut i: usize = 0;
        while i < len
            invariant
                0 <= i <= len,
                len == self.programs@.len(),
                len == old(self).programs@.len(),
                start == old(self).programs@,
                draws.len() == i,
                forall|j: int| 0 <= j < draws.len() ==> #[trigger] draws[j].1 < 10,
                w0 == old(self).rng.words(),
                i0 == old(self).rng.indices(),
                self.rng.words() == w0 + dw,
                self.rng.indices() == i0 + dp,
                self.rng.bytes() == old(self).rng.bytes(),
                dw.len() == i,
                dp.len() == hits_before(dw, i as int, 1, 1000),
                forall|k: int| 0 <= k < dp.len() ==> #[trigger] dp[k] < 10,
                forall|j: int|
                    0 <= j < i ==> #[trigger] self.programs@[j] == mutated(
                        start[j],
                        dw[j],
                        dp[hits_before(dw, j, 1, 1000)] as int,
                    ),
                forall|j: int|
                    0 <= j < len ==> #[trigger] self.programs@[j] == if j < i {
                        mutated(start[j], draws[j].0, draws[j].1 as int)
                    } else {
                        start[j]
                    },
                self.neighbors@ == old(self).neighbors@,
                old(self).wf(),
                self.grid_size == old(self).grid_size,
                self.num_programs == old(self).num_programs,
                self.tape_size == old(self).tape_size,
                self.epoch == old(self).epoch,
            decreases len - i,
        {
            let draw = self.rng.next_u32();
            let pick: usize = if draw_below(draw, 1, 1000) {
                self.rng.next_index(0, 10)
            } else {
                0
            };
            let byte = mutate_byte(self.programs[i], draw, pick);
            self.programs[i] = byte;
            proof {
                let next = draws.push((draw, pick));
                assert forall|j: int| 0 <= j < next.len() implies #[trigger] next[j].1 < 10 by {
                    if j < draws.len() {
                        assert(next[j] == draws[j]);
                    }
                }
                assert forall|j: int| 0 <= j < len implies #[trigger] self.programs@[j] == if j < i
                    + 1 {
                    mutated(start[j], next[j].0, next[j].1 as int)
                } else {
                    start[j]
                } by {
                    if j < i {
                        assert(next[j] == draws[j]);
                    }
                }
                draws = next;
                let dw2 = dw.push(draw);
                let dp2 = if draw_fraction_below(draw, 1, 1000) {
                    dp.push(pick)
                } else {
                    dp
                };
                lemma_hits_push(dw, draw, i as int, 1, 1000);
                assert(self.rng.words() =~= w0 + dw2);
                assert(self.rng.indices() =~= i0 + dp2);
                assert forall|k: int| 0 <= k < dp2.len() implies #[trigger] dp2[k] < 10 by {
                    if k < dp.len() {
                        assert(dp2[k] == dp[k]);
                    }
                }
                assert forall|j: int| 0 <= j < i + 1 implies #[trigger] self.programs@[j] == mutated(
                    start[j],
                    dw2[j],
                    dp2[hits_before(dw2, j, 1, 1000)] as int,
                ) by {
                    lemma_hits_push(dw, draw, j, 1, 1000);
                    if j < i {
                        assert(dw2[j] == dw[j]);
                        lemma_hits_mono(dw, 0, j, 1, 1000);
                        lemma_hits_mono(dw, j + 1, i as int, 1, 1000);
                        let h = hits_before(dw, j, 1, 1000);
                        assert(hits_before(dw, j + 1, 1, 1000) == h + (if draw_fraction_below(
                            dw[j],
                            1,
                            1000,
                        ) {
                            1int
                        } else {
                            0int
                        }));
                        if draw_fraction_below(dw[j], 1, 1000) {
                            assert(dp2[h] == dp[h]);
                        }
                    }
                }
                dw = dw2;
                dp = dp2;
            }
            i = i + 1;
        }
        assert(self.programs@ =~= mutated_tapes(start, draws));
        assert(self.programs@ =~= mutation_from_draws(start, dw, dp));
    }

    pub fn get_epoch(&self) -> (e: u32)
        ensures
            e == self.spec_epoch(),
    {
        self.epoch
    }

    pub fn get_program_data(&self) -> (data: Vec<u8>)
        ensures
            data@ == self.tapes(),
    {
        let mut data: Vec<u8> = Vec::new();
        let mut i: usize = 0;
        while i < self.programs.len()
            invariant
                0 <= i <= self.programs@.len(),
                data@ == self.programs@.take(i as int),
            decreases self.programs@.len() - i,
        {
            data.push(self.programs[i]);
            assert(self.programs@.take(i + 1) =~= self.programs@.take(i as int).push(self.programs@[i as int]));
            i = i + 1;
        }
        assert(self.programs@.take(self.programs@.len() as int) =~= self.programs@);
        data
    }

    /// RGBA pixels, four bytes per tape byte, colored by opcode.
    pub fn get_visualization_data(&self) -> (rgba: Vec<u8>)
        requires
            self.wf(),
            4 * self.tapes().len() <= usize::MAX,
        ensures
            rgba@.len() == 4 * self.tapes().len(),
            forall|i: int|
                0 <= i < self.tapes().len() ==> #[trigger] rgba@.subrange(4 * i, 4 * i + 4)
                    == soup_color(self.tapes()[i]),
    {
        let mut rgba: Vec<u8> = Vec::with_capacity(self.programs.len() * 4);
        let mut i: usize = 0;
        while i < self.programs.len()
            invariant
                0 <= i <= self.programs@.len(),
                self.programs@.len() <= usize::MAX,
                4 * self.programs@.len() <= usize::MAX,
                rgba@.len() == 4 * i,
                forall|c: int|
                    0 <= c < i ==> #[trigger] rgba@.subrange(4 * c, 4 * c + 4) == soup_color(
                        self.programs@[c],
                    ),
            decreases self.programs@.len() - i,
        {
            let byte = self.programs[i];
            let normalized = normalize(byte);
            let (r, g, b): (u8, u8, u8) = if normalized == LT {
                (255, 0, 0)
            } else if normalized == GT {
                (0, 255, 0)
            } else if normalized == LB {
                (0, 0, 255)
            } else if normalized == RB {
                (255, 255, 0)
            } else if normalized == MINUS {
                (255, 0, 255)
            } else if normalized == PLUS {
                (0, 255, 255)
            } else if normalized == DOT {
                (255, 128, 0)
            } else if normalized == COMMA {
                (128, 0, 255)
            } else if normalized == LBRACK {
                (255, 255, 255)
            } else if normalized == RBRACK {
                (128, 128, 128)
            } else {
                (0, 0, 0)
            };
            let ghost before = rgba@;
            rgba.push(r);
            rgba.push(g);
            rgba.push(b);
            rgba.push(255);
            assert(rgba@.subrange(4 * i as int, 4 * i + 4) =~= soup_color(byte));
            assert forall|c: int| 0 <= c < i implies #[trigger] rgba@.subrange(4 * c, 4 * c + 4)
                == soup_color(self.programs@[c]) by {
                assert(rgba@.subrange(4 * c, 4 * c + 4) =~= before.subrange(4 * c, 4 * c + 4));
            }
            i = i + 1;
        }
        rgba
    }
}

/// Every grid neighbor of a program lies in the cube and is another program.
pub proof fn lemma_grid_neighbors_valid(idx: int, g: int, n: int)
    requires
        0 <= n <= 3,
        g >= 1,
        g * g * g <= usize::MAX,
        0 <= idx < g * g * g,
    ensures
        forall|k: int|
            0 <= k < grid_neighbors_upto(idx, g, n).len() ==> #[trigger] grid_neighbors_upto(
                idx,
                g,
                n,
            )[k] < g * g * g && grid_neighbors_upto(idx, g, n)[k] != idx,
    decreases n,
{
    if n > 0 {
        lemma_grid_neighbors_valid(idx, g, n - 1);
        let c = grid_coord(idx, g);
        let d = n - 1;
        lemma_grid_coord_in_grid(idx, g);
        let prev = grid_neighbors_upto(idx, g, n - 1);
        let lo = c.update(d, c[d] - 1);
        let hi = c.update(d, c[d] + 1);
        let lo_s = index_option(c[d] > 1, lo, g);
        let hi_s = index_option(c[d] < g, hi, g);
        assert(grid_neighbors_upto(idx, g, n) == prev + lo_s + hi_s);
        if c[d] > 1 {
            assert(in_grid(lo, g));
            lemma_grid_index_roundtrip(lo, g);
            if grid_index(lo, g) == idx {
                assert(lo[d] != c[d]);
            }
        }
        if c[d] < g {
            assert(in_grid(hi, g));
            lemma_grid_index_roundtrip(hi, g);
            if grid_index(hi, g) == idx {
                assert(hi[d] != c[d]);
            }
        }
        assert forall|k: int| 0 <= k < grid_neighbors_upto(idx, g, n).len() implies #[trigger] grid_neighbors_upto(
            idx,
            g,
            n,
        )[k] < g * g * g && grid_neighbors_upto(idx, g, n)[k] != idx by {
            if k < prev.len() {
                assert(grid_neighbors_upto(idx, g, n)[k] == prev[k]);
            } else if k < prev.len() + lo_s.len() {
                assert(grid_neighbors_upto(idx, g, n)[k] == lo_s[k - prev.len()]);
            } else {
                assert(grid_neighbors_upto(idx, g, n)[k] == hi_s[k - prev.len() - lo_s.len()]);
            }
        }
    }
}

/// `x` is one step from program `idx` along axis `d`, down or up, within the grid.
pub open spec fn grid_step(idx: int, g: int, d: int, x: usize) -> bool {
    let c = grid_coord(idx, g);
    ||| c[d] > 1 && x == grid_index(c.update(d, c[d] - 1), g) as usize
    ||| c[d] < g && x == grid_index(c.update(d, c[d] + 1), g) as usize
}

/// The neighbors along the first `n` axes are exactly the steps along them.
pub proof fn lemma_grid_neighbors_upto_member(idx: int, g: int, n: int, x: usize)
    requires
        0 <= n <= 3,
    ensures
        grid_neighbors_upto(idx, g, n).contains(x) <==> exists|d: int| 0 <= d < n && #[trigger] grid_step(idx, g, d, x),
    decreases n,
{
    if n > 0 {
        lemma_grid_neighbors_upto_member(idx, g, n - 1, x);
        let c = grid_coord(idx, g);
        let d = n - 1;
        let prev = grid_neighbors_upto(idx, g, n - 1);
        let lo_s = index_option(c[d] > 1, c.update(d, c[d] - 1), g);
        let hi_s = index_option(c[d] < g, c.update(d, c[d] + 1), g);
        let all = grid_neighbors_upto(idx, g, n);
        assert(all == prev + lo_s + hi_s);
        if all.contains(x) {
            let k = choose|k: int| 0 <= k < all.len() && all[k] == x;
            if k < prev.len() {
                assert(prev[k] == x);
            } else if k < prev.len() + lo_s.len() {
                assert(lo_s[k - prev.len()] == x);
                assert(grid_step(idx, g, d, x));
            } else {
                assert(hi_s[k - prev.len() - lo_s.len()] == x);
                assert(grid_step(idx, g, d, x));
            }
        }
        if exists|e: int| 0 <= e < n && #[trigger] grid_step(idx, g, e, x) {
            let e = choose|e: int| 0 <= e < n && #[trigger] grid_step(idx, g, e, x);
            if e < d {
                let k = choose|k: int| 0 <= k < prev.len() && prev[k] == x;
                assert(all[k] == x);
            } else if c[d] > 1 && x == grid_index(c.update(d, c[d] - 1), g) as usize {
                assert(all[prev.len() as int] == x);
            } else {
                assert(all[(prev.len() + lo_s.len()) as int] == x);
            }
        }
    }
}

/// Being grid neighbors is symmetric: `j` is a neighbor of `i` exactly
/// when `i` is a neighbor of `j`.
pub proof fn law_grid_neighbors_symmetric(i: int, j: int, g: int)
    requires
        g >= 1,
        g * g * g <= usize::MAX,
        0 <= i < g * g * g,
        0 <= j < g * g * g,
    ensures
        grid_neighbors(i, g).contains(j as usize) <==> grid_neighbors(j, g).contains(i as usize),
{
    lemma_grid_symmetric_one_way(i, j, g);
    lemma_grid_symmetric_one_way(j, i, g);
}

#[verifier::spinoff_prover]
#[verifier::rlimit(30)]
proof fn lemma_grid_symmetric_one_way(i: int, j: int, g: int)
    requires
        g >= 1,
        g * g * g <= usize::MAX,
        0 <= i < g * g * g,
        0 <= j < g * g * g,
    ensures
        grid_neighbors(i, g).contains(j as usize) ==> grid_neighbors(j, g).contains(i as usize),
{
    lemma_grid_neighbors_upto_member(i, g, 3, j as usize);
    lemma_grid_neighbors_upto_member(j, g, 3, i as usize);
    if grid_neighbors(i, g).contains(j as usize) {
        let d = choose|d: int| 0 <= d < 3 && #[trigger] grid_step(i, g, d, j as usize);
        let ci = grid_coord(i, g);
        lemma_grid_coord_in_grid(i, g);
        lemma_grid_coord_in_grid(j, g);
        if ci[d] > 1 && j as usize == grid_index(ci.update(d, ci[d] - 1), g) as usize {
            let lo = ci.update(d, ci[d] - 1);
            assert(in_grid(lo, g));
            lemma_grid_index_roundtrip(lo, g);
            assert(grid_coord(j, g) == lo);
            assert(lo.update(d, lo[d] + 1) =~= ci);
            assert(grid_step(j, g, d, i as usize));
        } else {
            let hi = ci.update(d, ci[d] + 1);
            assert(in_grid(hi, g));
            lemma_grid_index_roundtrip(hi, g);
            assert(grid_coord(j, g) == hi);
            assert(hi.update(d, hi[d] - 1) =~= ci);
            assert(grid_step(j, g, d, i as usize));
        }
    }
}

/// Normalizing twice is normalizing once: the marker for bytes that are
/// no opcode is itself no opcode.
pub proof fn law_normalize_idempotent(v: u8)
    ensures
        normalize_spec(normalize_spec(v)) == normalize_spec(v),
        !is_opcode_spec(NORMALIZED),
{
    assert(!opcode_list().contains(NORMALIZED)) by {
        if opcode_list().contains(NORMALIZED) {
            let k = choose|k: int| 0 <= k < 10 && opcode_list()[k] == NORMALIZED;
        }
    }
}

} // verus!
