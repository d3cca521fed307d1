use phext_life::soup::{
    byte_from_draws, draw_below, is_opcode, mutate_byte, normalize, run_tape, seek_match, PhextLife, COMMA, DOT, GT, LBRACK, LT, MINUS, PLUS,
    RBRACK,
};

#[test]
fn opcodes_and_normalization() {
    for b in [b'<', b'>', b'{', b'}', b'-', b'+', b'.', b',', b'[', b']'] {
        assert!(is_opcode(b));
        assert_eq!(normalize(b), b);
    }
    assert!(!is_opcode(b'a'));
    assert_eq!(normalize(b'a'), 255);
    assert_eq!(normalize(0), 255);
    assert_eq!(normalize(normalize(7)), normalize(7));
}

#[test]
fn seek_match_both_ways() {
    let tape = [LBRACK, LBRACK, RBRACK, RBRACK, 0];
    assert_eq!(seek_match(&tape, 0, 1, LBRACK, RBRACK), Some(3));
    assert_eq!(seek_match(&tape, 1, 1, LBRACK, RBRACK), Some(2));
    assert_eq!(seek_match(&tape, 3, -1, RBRACK, LBRACK), Some(0));
    assert_eq!(seek_match(&tape, 4, -1, RBRACK, LBRACK), None);
    let open = [LBRACK, 0, 0];
    assert_eq!(seek_match(&open, 0, 1, LBRACK, RBRACK), None);
}

#[test]
fn run_tape_arithmetic_and_copies() {
    // both `+` land on cell 0, where head 0 stays
    let mut tape = [PLUS, PLUS, 0, 0];
    run_tape(&mut tape, 100);
    assert_eq!(tape, [PLUS.wrapping_add(2), PLUS, 0, 0]);
    let mut tape = [GT, MINUS, 7];
    run_tape(&mut tape, 100);
    assert_eq!(tape, [GT, MINUS - 1, 7]);
    let mut tape = [GT, DOT, 9];
    run_tape(&mut tape, 100);
    assert_eq!(tape, [DOT, DOT, 9]);
    let mut tape = [GT, COMMA, 9];
    run_tape(&mut tape, 100);
    assert_eq!(tape, [GT, GT, 9]);
    let mut tape = [LT, PLUS, 0];
    run_tape(&mut tape, 100);
    assert_eq!(tape, [LT, PLUS, 1]);
}

#[test]
fn run_tape_respects_the_iteration_limit() {
    let mut tape = [PLUS, PLUS, PLUS];
    run_tape(&mut tape, 2);
    assert_eq!(tape, [PLUS + 2, PLUS, PLUS]);
    let mut tape = [PLUS, PLUS];
    run_tape(&mut tape, 0);
    assert_eq!(tape, [PLUS, PLUS]);
    let mut empty: [u8; 0] = [];
    run_tape(&mut empty, 10);
}

#[test]
fn run_tape_loops() {
    // head 0 on cell 3 (value 0): `[` jumps past the matching `]`
    let mut tape = [GT, GT, GT, 0, LBRACK, PLUS, RBRACK];
    let mut t2 = [GT, GT, GT, LBRACK, MINUS, RBRACK, 0];
    run_tape(&mut t2, 1000);
    // cell 3 holds the `[` itself: `-` turns it into 90, so the backward
    // search from `]` finds no bracket any more and the run stops there
    assert_eq!(t2[3], LBRACK - 1);
    assert_eq!(t2, [GT, GT, GT, LBRACK - 1, MINUS, RBRACK, 0]);
    run_tape(&mut tape, 1000);
    assert_eq!(tape[3], 0);
}

#[test]
fn soup_life_cycle() {
    let mut life = PhextLife::new(3, 16, 7);
    assert_eq!(life.get_epoch(), 0);
    let data = life.get_program_data();
    assert_eq!(data.len(), 27 * 16);
    let vis = life.get_visualization_data();
    assert_eq!(vis.len(), 4 * 27 * 16);
    for _ in 0..3 {
        life.step();
    }
    assert_eq!(life.get_epoch(), 3);
    assert_eq!(life.get_program_data().len(), 27 * 16);
    let same_seed = PhextLife::new(3, 16, 7);
    assert_eq!(same_seed.get_program_data(), data);
}

#[test]
fn visualization_colors() {
    let life = PhextLife::new(1, 4, 1);
    let data = life.get_program_data();
    let vis = life.get_visualization_data();
    for (i, &b) in data.iter().enumerate() {
        let expected: [u8; 4] = match normalize(b) {
            x if x == LT => [255, 0, 0, 255],
            x if x == GT => [0, 255, 0, 255],
            x if x == b'{' => [0, 0, 255, 255],
            x if x == b'}' => [255, 255, 0, 255],
            x if x == MINUS => [255, 0, 255, 255],
            x if x == PLUS => [0, 255, 255, 255],
            x if x == DOT => [255, 128, 0, 255],
            x if x == COMMA => [128, 0, 255, 255],
            x if x == LBRACK => [255, 255, 255, 255],
            x if x == RBRACK => [128, 128, 128, 255],
            _ => [0, 0, 0, 255],
        };
        assert_eq!(&vis[4 * i..4 * i + 4], &expected);
    }
}

#[test]
fn draws_against_fractions() {
    // one half: the draw's top bit decides
    assert!(draw_below(0x7FFF_FFFF, 1, 2));
    assert!(!draw_below(0x8000_0000, 1, 2));
    assert!(draw_below(0, 1, 2));
    // one in a thousand: 16777 parts in 2^24 are below it, 16778 are not
    assert!(draw_below((16777 << 8) | 0xFF, 1, 1000));
    assert!(!draw_below(16778 << 8, 1, 1000));
    assert!(!draw_below(u32::MAX, 1, 1000));
    assert!(draw_below(u32::MAX, 1, 1));
    assert!(!draw_below(0, 0, 1));
}

#[test]
fn bytes_from_draws() {
    // a coin below one half gives the opcode at the pick
    assert_eq!(byte_from_draws(0, 0, 7), LT);
    assert_eq!(byte_from_draws(0x7FFF_FFFF, 9, 7), RBRACK);
    assert_eq!(byte_from_draws(0x1234_5678, 4, 200), MINUS);
    // otherwise the byte drawn
    assert_eq!(byte_from_draws(0x8000_0000, 0, 7), 7);
    assert_eq!(byte_from_draws(u32::MAX, 5, 200), 200);
}

#[test]
fn bytes_after_mutation() {
    // one draw in a thousand turns the byte into the picked opcode
    assert_eq!(mutate_byte(7, 0, 5), PLUS);
    assert_eq!(mutate_byte(7, (16777 << 8) | 0xFF, 6), DOT);
    // the others leave it alone
    assert_eq!(mutate_byte(7, 16778 << 8, 6), 7);
    assert_eq!(mutate_byte(GT, u32::MAX, 0), GT);
}

#[test]
fn a_single_program_soup_has_no_pairs() {
    // one program has no neighbor, so an epoch only mutates
    let mut life = PhextLife::new(1, 8, 3);
    let before = life.get_program_data();
    life.step();
    assert_eq!(life.get_epoch(), 1);
    let after = life.get_program_data();
    assert_eq!(after.len(), 8);
    for (a, b) in before.iter().zip(after.iter()) {
        assert!(a == b || is_opcode(*b));
    }
}
