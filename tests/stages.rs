use hand_interpreter::{
    calc_wormholes, parse_hand_code, run_hand_ast, Engine, Fault, Instruction, ParseError,
    ResolveError, RunError,
};

#[test]
fn each_symbol_maps_to_its_instruction() {
    let program = parse_hand_code("👉👈👆👇🤜🤛👊").unwrap();
    assert_eq!(
        program,
        vec![
            Instruction::Next,
            Instruction::Previous,
            Instruction::Increment,
            Instruction::Decrease,
            Instruction::LoopStart,
            Instruction::LoopEnd,
            Instruction::Print,
        ]
    );
}

#[test]
fn whitespace_is_skipped() {
    let program = parse_hand_code(" 👆\n\t👊 \r\n").unwrap();
    assert_eq!(program, vec![Instruction::Increment, Instruction::Print]);
}

#[test]
fn unknown_character_rejects_the_text() {
    assert_eq!(parse_hand_code("👆x👊"), Err(ParseError::UnexpectedChar(1)));
    assert_eq!(parse_hand_code("👆👊 🤜+"), Err(ParseError::UnexpectedChar(4)));
    assert_eq!(parse_hand_code("+"), Err(ParseError::UnexpectedChar(0)));
}

#[test]
fn jump_table_links_partners_both_ways() {
    let program = parse_hand_code("🤜👆🤜👇🤛🤛👊").unwrap();
    let table = calc_wormholes(&program).unwrap();
    assert_eq!(table.len(), 7);
    assert_eq!(table.target(0), Some(5));
    assert_eq!(table.target(5), Some(0));
    assert_eq!(table.target(2), Some(4));
    assert_eq!(table.target(4), Some(2));
    assert_eq!(table.target(1), None);
    assert_eq!(table.target(6), None);
    assert_eq!(table.target(7), None);
}

#[test]
fn adjacent_loops_pair_separately() {
    let program = parse_hand_code("🤜🤛🤜🤛").unwrap();
    let table = calc_wormholes(&program).unwrap();
    assert_eq!(table.target(0), Some(1));
    assert_eq!(table.target(1), Some(0));
    assert_eq!(table.target(2), Some(3));
    assert_eq!(table.target(3), Some(2));
}

#[test]
fn resolving_twice_gives_the_same_table() {
    let program = parse_hand_code("👆🤜👉🤜👆🤛👈🤛🤜🤛").unwrap();
    let first = calc_wormholes(&program).unwrap();
    let second = calc_wormholes(&program).unwrap();
    for i in 0..program.len() + 1 {
        assert_eq!(first.target(i), second.target(i));
    }
}

#[test]
fn unmatched_loop_end_is_rejected() {
    let program = parse_hand_code("🤛").unwrap();
    assert_eq!(calc_wormholes(&program).err(), Some(ResolveError::UnmatchedLoopEnd(0)));
    assert!(matches!(
        run_hand_ast(&program, u64::MAX),
        Err(RunError::Malformed(ResolveError::UnmatchedLoopEnd(0)))
    ));
}

#[test]
fn first_unmatched_loop_end_is_named() {
    let program = parse_hand_code("👊🤜🤛🤛🤛").unwrap();
    assert_eq!(calc_wormholes(&program).err(), Some(ResolveError::UnmatchedLoopEnd(3)));
}

#[test]
fn unmatched_loop_start_is_rejected_before_running() {
    let program = parse_hand_code("👊🤜🤜🤛").unwrap();
    assert_eq!(calc_wormholes(&program).err(), Some(ResolveError::UnmatchedLoopStart(1)));
    assert!(matches!(
        run_hand_ast(&program, u64::MAX),
        Err(RunError::Malformed(ResolveError::UnmatchedLoopStart(1)))
    ));
}

#[test]
fn innermost_open_loop_start_is_named() {
    let program = parse_hand_code("🤜🤜🤜🤛").unwrap();
    assert_eq!(calc_wormholes(&program).err(), Some(ResolveError::UnmatchedLoopStart(1)));
}

#[test]
fn engine_steps_one_instruction_at_a_time() {
    let program = parse_hand_code("👆👊👉👈").unwrap();
    let table = calc_wormholes(&program).unwrap();
    let mut engine = Engine::new();
    assert!(!engine.is_halted(&program));
    assert_eq!(engine.step(&program, &table), Ok(()));
    assert!(engine.output().is_empty());
    assert_eq!(engine.step(&program, &table), Ok(()));
    assert_eq!(engine.output(), &vec![1u8]);
    assert_eq!(engine.step(&program, &table), Ok(()));
    assert_eq!(engine.step(&program, &table), Ok(()));
    assert!(engine.is_halted(&program));
    assert_eq!(engine.into_output(), vec![1u8]);
}

#[test]
fn engine_fault_leaves_state_unchanged() {
    let program = parse_hand_code("👈").unwrap();
    let table = calc_wormholes(&program).unwrap();
    let mut engine = Engine::new();
    assert_eq!(engine.step(&program, &table), Err(Fault::CursorUnderflow(0)));
    assert_eq!(engine.step(&program, &table), Err(Fault::CursorUnderflow(0)));
    assert!(!engine.is_halted(&program));
}

#[test]
fn engine_reports_a_table_without_the_entry() {
    let program = parse_hand_code("🤜🤛").unwrap();
    let other = calc_wormholes(&parse_hand_code("👊👊").unwrap()).unwrap();
    let mut engine = Engine::new();
    assert_eq!(engine.step(&program, &other), Err(Fault::MissingJump(0)));
}
