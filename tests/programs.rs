use hand_interpreter::{parse_hand_code, run_hand_ast, RunError};

fn run_text(code: &str) -> Result<Vec<u8>, RunError> {
    let instructions = parse_hand_code(code).unwrap();
    run_hand_ast(&instructions, u64::MAX)
}

#[test]
fn test_hello() {
    let code =
        "👇🤜👇👇👇👇👇👇👇👉👆👈🤛👉👇👊👇🤜👇👉👆👆👆👆👆👈🤛👉👆👆👊👆👆👆👆👆👆👆👊👊👆👆👆👊";
    let instructions = parse_hand_code(code).unwrap();

    let output = run_hand_ast(&instructions, u64::MAX).unwrap();

    let result = String::from_utf8(output).unwrap();
    assert_eq!(result, "Hello");
}

#[test]
fn test_hello_world() {
    let code =
        "👉👆👆👆👆👆👆👆👆🤜👇👈👆👆👆👆👆👆👆👆👆👉🤛👈👊👉👉👆👉👇🤜👆🤛👆👆👉👆👆👉👆👆👆🤜👉🤜👇👉👆👆👆👈👈👆👆👆👉🤛👈👈🤛👉👇👇👇👇👇👊👉👇👉👆👆👆👊👊👆👆👆👊👉👇👊👈👈👆🤜👉🤜👆👉👆🤛👉👉🤛👈👇👇👇👇👇👇👇👇👇👇👇👇👇👇👊👉👉👊👆👆👆👊👇👇👇👇👇👇👊👇👇👇👇👇👇👇👇👊👉👆👊👉👆👊";
    let instructions = parse_hand_code(code).unwrap();

    let output = run_hand_ast(&instructions, u64::MAX).unwrap();

    let result = String::from_utf8(output).unwrap();
    assert_eq!(result, "Hello World!\n");
}

#[test]
fn straight_line_prints_cells_in_order() {
    assert_eq!(run_text("👆👊👆👆👊👉👊👆👊").unwrap(), vec![1u8, 3, 0, 1]);
}

#[test]
fn empty_program_prints_nothing() {
    assert_eq!(run_text("").unwrap(), Vec::<u8>::new());
    assert_eq!(run_text(" \n\t\r ").unwrap(), Vec::<u8>::new());
}

#[test]
fn increments_wrap_after_256() {
    let code = "👆".repeat(256) + "👊";
    assert_eq!(run_text(&code).unwrap(), vec![0u8]);
    let code = "👆".repeat(255) + "👊";
    assert_eq!(run_text(&code).unwrap(), vec![255u8]);
}

#[test]
fn decrement_of_zero_is_255() {
    assert_eq!(run_text("👇👊").unwrap(), vec![255u8]);
    assert_eq!(run_text("👇👇👊👆👆👊").unwrap(), vec![254u8, 0]);
}

#[test]
fn moving_right_grows_the_tape_with_zeros() {
    assert_eq!(run_text("👉👉👆👊👈👊👈👊").unwrap(), vec![1u8, 0, 0]);
}

#[test]
fn loop_body_runs_until_cell_is_zero() {
    assert_eq!(run_text("👆👆👆🤜👊👇🤛👊").unwrap(), vec![3u8, 2, 1, 0]);
}

#[test]
fn loop_with_zero_cell_is_skipped() {
    assert_eq!(run_text("🤜👆👊🤛👊").unwrap(), vec![0u8]);
}

#[test]
fn nested_loops_multiply() {
    // 3 * 4 = 12 into the third cell
    let out = run_text("👆👆👆🤜👉👆👆👆👆🤜👉👆👈👇🤛👈👇🤛👉👉👊").unwrap();
    assert_eq!(out, vec![12u8]);
}

#[test]
fn move_left_at_start_underflows() {
    match run_text("👈") {
        Err(RunError::Fault { fault, output }) => {
            assert_eq!(fault, hand_interpreter::Fault::CursorUnderflow(0));
            assert!(output.is_empty());
        },
        other => panic!("expected an underflow, got {:?}", other),
    }
}

#[test]
fn underflow_keeps_output_emitted_before() {
    match run_text("👆👊👉👈👈👊") {
        Err(RunError::Fault { fault, output }) => {
            assert_eq!(fault, hand_interpreter::Fault::CursorUnderflow(4));
            assert_eq!(output, vec![1u8]);
        },
        other => panic!("expected an underflow, got {:?}", other),
    }
}

#[test]
fn endless_loop_runs_out_of_steps() {
    match run_hand_ast(&parse_hand_code("👆👊🤜🤛").unwrap(), 10) {
        Err(RunError::OutOfSteps { output }) => assert_eq!(output, vec![1u8]),
        other => panic!("expected the budget to run out, got {:?}", other),
    }
}

#[test]
fn budget_counts_instructions() {
    let program = parse_hand_code("👆👆👊").unwrap();
    assert_eq!(run_hand_ast(&program, 3).unwrap(), vec![2u8]);
    assert!(matches!(run_hand_ast(&program, 2), Err(RunError::OutOfSteps { .. })));
}
