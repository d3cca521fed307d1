use phext_life::program::{Instruction, Program, StepResult};

#[test]
fn test_random_program() {
    let p = Program::random();
    assert_eq!(p.instructions.len(), 64);
    assert_eq!(p.energy, Program::MAX_STEPS);
}

#[test]
fn test_inc_dec() {
    let mut p = Program::empty();
    p.instructions[0] = Instruction::Inc as u8;
    p.instructions[1] = Instruction::Inc as u8;
    p.instructions[2] = Instruction::Dec as u8;

    p.step();
    assert_eq!(p.data[0], 1);
    p.step();
    assert_eq!(p.data[0], 2);
    p.step();
    assert_eq!(p.data[0], 1);
}

#[test]
fn test_replicator_score() {
    let mut p = Program::empty();
    p.instructions[0] = Instruction::CopySelf as u8;
    p.instructions[10] = Instruction::CopySelf as u8;
    assert_eq!(p.replicator_score(), 2);
}

#[test]
fn from_byte_uses_low_four_bits() {
    assert_eq!(Instruction::from_byte(0), Instruction::Right);
    assert_eq!(Instruction::from_byte(12), Instruction::CopySelf);
    assert_eq!(Instruction::from_byte(15), Instruction::Halt);
    assert_eq!(Instruction::from_byte(16), Instruction::Right);
    assert_eq!(Instruction::from_byte(0x1C), Instruction::CopySelf);
    assert_eq!(Instruction::from_byte(255), Instruction::Halt);
    for b in 0u8..16 {
        assert_eq!(Instruction::from_byte(b).to_byte(), b);
        assert_eq!(Instruction::from_byte(b) as u8, b);
    }
}

#[test]
fn colors() {
    assert_eq!(Instruction::Right.to_color(), [255, 100, 100]);
    assert_eq!(Instruction::CopySelf.to_color(), [255, 255, 255]);
    assert_eq!(Instruction::Nop.to_color(), [50, 50, 50]);
    assert_eq!(Instruction::Halt.to_color(), [0, 0, 0]);
}

#[test]
fn empty_program_is_all_nops() {
    let p = Program::empty();
    assert!(p.instructions.iter().all(|&b| b == 14));
    assert!(p.data.iter().all(|&b| b == 0));
    assert_eq!((p.ip, p.dp, p.dim, p.energy, p.age, p.generation), (0, 0, 0, 8192, 0, 0));
    assert_eq!(p.current_instruction(), Instruction::Nop);
}

#[test]
fn random_program_is_fresh() {
    let p = Program::random();
    assert!(p.instructions.iter().all(|&b| b < 16));
    assert!(p.data.iter().all(|&b| b == 0));
    assert_eq!((p.ip, p.dp, p.dim, p.age, p.generation), (0, 0, 0, 0, 0));
    let q = Program::random();
    assert_eq!(p.instructions, q.instructions);
}

#[test]
fn pointer_moves_wrap_around_the_tape() {
    let mut p = Program::empty();
    p.instructions[0] = Instruction::Left as u8;
    p.instructions[1] = Instruction::Right as u8;
    assert!(matches!(p.step(), StepResult::Continue));
    assert_eq!(p.dp, 63);
    assert!(matches!(p.step(), StepResult::Continue));
    assert_eq!(p.dp, 0);
    assert_eq!(p.ip, 2);
    assert_eq!(p.energy, Program::MAX_STEPS - 2);
}

#[test]
fn instruction_pointer_wraps() {
    let mut p = Program::empty();
    p.ip = 63;
    p.step();
    assert_eq!(p.ip, 0);
}

#[test]
fn dimension_focus_cycles() {
    let mut p = Program::empty();
    p.instructions[0] = Instruction::DimDown as u8;
    p.instructions[1] = Instruction::DimUp as u8;
    p.step();
    assert_eq!(p.dim, 8);
    p.step();
    assert_eq!(p.dim, 0);
}

#[test]
fn data_cells_wrap() {
    let mut p = Program::empty();
    p.instructions[0] = Instruction::Dec as u8;
    p.step();
    assert_eq!(p.data[0], 255);
    p.ip = 1;
    p.instructions[1] = Instruction::Inc as u8;
    p.step();
    assert_eq!(p.data[0], 0);
}

#[test]
fn jump_forward_finds_matching_bracket() {
    let mut p = Program::empty();
    p.instructions[0] = Instruction::JumpFwd as u8;
    p.instructions[1] = Instruction::JumpFwd as u8;
    p.instructions[2] = Instruction::JumpBack as u8;
    p.instructions[3] = Instruction::JumpBack as u8;
    p.step();
    assert_eq!(p.ip, 4);
    // with a nonzero cell the jump is not taken
    let mut q = Program::empty();
    q.instructions[0] = Instruction::JumpFwd as u8;
    q.data[0] = 1;
    q.step();
    assert_eq!(q.ip, 1);
    // without a match the search stops at the last cell
    let mut r = Program::empty();
    r.instructions[0] = Instruction::JumpFwd as u8;
    r.step();
    assert_eq!(r.ip, 0);
}

#[test]
fn jump_back_finds_matching_bracket() {
    let mut p = Program::empty();
    p.instructions[5] = Instruction::JumpFwd as u8;
    p.instructions[9] = Instruction::JumpBack as u8;
    p.ip = 9;
    p.data[0] = 3;
    p.step();
    assert_eq!(p.ip, 6);
    let mut q = Program::empty();
    q.instructions[9] = Instruction::JumpBack as u8;
    q.ip = 9;
    q.step();
    assert_eq!(q.ip, 10);
}

#[test]
fn requests_carry_dimension_and_direction() {
    let mut p = Program::empty();
    p.instructions[0] = Instruction::DimUp as u8;
    p.instructions[1] = Instruction::ReadNeighbor as u8;
    p.instructions[2] = Instruction::WriteNeighbor as u8;
    p.instructions[3] = Instruction::CopySelf as u8;
    p.data[1] = 77;
    p.step();
    match p.step() {
        StepResult::ReadNeighbor { dim, direction } => assert_eq!((dim, direction), (1, 1)),
        other => panic!("unexpected {:?}", other),
    }
    p.data[0] = 200;
    match p.step() {
        StepResult::WriteNeighbor { dim, direction, value } => {
            assert_eq!((dim, direction, value), (1, -1, 77))
        }
        other => panic!("unexpected {:?}", other),
    }
    match p.step() {
        StepResult::CopySelf { dim, direction } => assert_eq!((dim, direction), (1, -1)),
        other => panic!("unexpected {:?}", other),
    }
}

#[test]
fn halting_and_exhaustion() {
    let mut p = Program::empty();
    p.instructions[0] = Instruction::Halt as u8;
    assert!(matches!(p.step(), StepResult::Halted));
    assert_eq!(p.ip, 1);
    assert_eq!(p.energy, Program::MAX_STEPS - 1);
    let mut q = Program::empty();
    q.energy = 0;
    q.ip = 5;
    assert!(matches!(q.step(), StepResult::Halted));
    assert_eq!((q.ip, q.energy), (5, 0));
}

#[test]
fn concatenate_joins_instruction_tapes() {
    let mut a = Program::empty();
    let b = Program::random();
    a.instructions[0] = 3;
    let tape = a.concatenate(&b);
    assert_eq!(tape.len(), 128);
    assert_eq!(tape[0], 3);
    assert_eq!(&tape[64..], &b.instructions[..]);
}

#[test]
fn replicate_and_reset() {
    let mut p = Program::random();
    p.generation = 4;
    p.age = 9;
    p.ip = 7;
    p.dp = 3;
    p.dim = 2;
    p.energy = 1;
    p.data[5] = 42;
    let child = p.replicate();
    assert_eq!(child.instructions, p.instructions);
    assert_eq!(child.data, p.data);
    assert_eq!((child.generation, child.age), (5, 0));
    assert_eq!((child.ip, child.dp, child.dim, child.energy), (0, 0, 0, Program::MAX_STEPS));
    p.reset();
    assert_eq!((p.ip, p.dp, p.dim, p.energy, p.age), (0, 0, 0, Program::MAX_STEPS, 9));
}
