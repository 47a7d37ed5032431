use brainheck::{InterpreterError, Program, RunStatus};

const FUEL: u64 = 1_000_000;

fn run(source: &str, input: Vec<u8>) -> (RunStatus, Vec<u8>) {
    Program::interpret(source, input, FUEL).expect("program should interpret")
}

#[test]
fn increment_wraps_after_256_steps() {
    let source = format!("{}.", "+".repeat(256));
    let (status, out) = run(&source, vec![]);
    assert_eq!(status, RunStatus::Done);
    assert_eq!(out, vec![0]);
}

#[test]
fn increment_255_steps_stays_at_255() {
    let source = format!("{}.", "+".repeat(255));
    let (status, out) = run(&source, vec![]);
    assert_eq!(status, RunStatus::Done);
    assert_eq!(out, vec![255]);
}

#[test]
fn decrement_zero_cell_wraps_to_255() {
    let (status, out) = run("-.", vec![]);
    assert_eq!(status, RunStatus::Done);
    assert_eq!(out, vec![255]);
}

#[test]
fn pointer_wraps_moving_right_around_the_tape() {
    let source = format!("+{}.", ">".repeat(30_000));
    let (status, out) = run(&source, vec![]);
    assert_eq!(status, RunStatus::Done);
    assert_eq!(out, vec![1]);
}

#[test]
fn pointer_wraps_moving_left_around_the_tape() {
    let source = format!("+{}.", "<".repeat(30_000));
    let (status, out) = run(&source, vec![]);
    assert_eq!(status, RunStatus::Done);
    assert_eq!(out, vec![1]);
}

#[test]
fn pointer_wraps_one_step_left_from_zero() {
    let (status, out) = run("<+.", vec![]);
    assert_eq!(status, RunStatus::Done);
    assert_eq!(out, vec![1]);
}

#[test]
fn clear_loop_zeroes_any_cell() {
    let (status, out) = run("+++++[-]#", vec![]);
    assert_eq!(status, RunStatus::Done);
    assert_eq!(out, b"0".to_vec());
}

#[test]
fn eight_increments_then_output() {
    let (status, out) = run("++++++++.", vec![]);
    assert_eq!(status, RunStatus::Done);
    assert_eq!(out, vec![8]);
}

#[test]
fn debug_prints_cell_value_in_decimal() {
    let (status, out) = run("+++#", vec![]);
    assert_eq!(status, RunStatus::Done);
    assert_eq!(out, b"3".to_vec());
}

#[test]
fn debug_prints_three_digit_values() {
    let (status, out) = run("-#", vec![]);
    assert_eq!(status, RunStatus::Done);
    assert_eq!(out, b"255".to_vec());
}

#[test]
fn debug_prints_exactly_one_hundred() {
    let source = format!("{}#", "+".repeat(100));
    let (status, out) = run(&source, vec![]);
    assert_eq!(status, RunStatus::Done);
    assert_eq!(out, b"100".to_vec());
}

#[test]
fn hello_world_classic_program() {
    let source = "++++++++[>++++[>++>+++>+++>+<<<<-]>+>+>->>+[<]<-]>>.>---.+++++++..+++.>>.<-.<.+++.------.--------.>>+.>++.";
    let (status, out) = run(source, vec![]);
    assert_eq!(status, RunStatus::Done);
    assert_eq!(out, b"Hello World!\n".to_vec());
}

#[test]
fn input_byte_echoes_back() {
    let (status, out) = run(",.", vec![65]);
    assert_eq!(status, RunStatus::Done);
    assert_eq!(out, vec![65]);
}

#[test]
fn input_at_end_of_stream_reads_zero() {
    let (status, out) = run("+,.", vec![]);
    assert_eq!(status, RunStatus::Done);
    assert_eq!(out, vec![0]);
}

#[test]
fn unrecognized_characters_are_comments() {
    let (status, out) = run("say + twice + please\n.", vec![]);
    assert_eq!(status, RunStatus::Done);
    assert_eq!(out, vec![2]);
}

#[test]
fn empty_source_writes_nothing() {
    let (status, out) = run("", vec![]);
    assert_eq!(status, RunStatus::Done);
    assert_eq!(out, Vec::<u8>::new());
}

#[test]
fn infinite_loop_runs_out_of_fuel() {
    let r = Program::interpret("+[]", vec![], 1000);
    match r {
        Ok((status, _)) => assert_eq!(status, RunStatus::OutOfFuel),
        Err(_) => panic!("an infinite loop is not an error"),
    }
}

#[test]
fn larger_fuel_never_changes_a_finished_run() {
    let source = "++++++++[>++++[>++>+++>+++>+<<<<-]>+>+>->>+[<]<-]>>.>---.+++++++..+++.>>.<-.<.+++.------.--------.>>+.>++.";
    let (s1, o1) = Program::interpret(source, vec![], 10_000).expect("should run");
    let (s2, o2) = Program::interpret(source, vec![], u64::MAX).expect("should run");
    assert_eq!(s1, RunStatus::Done);
    assert_eq!(s2, RunStatus::Done);
    assert_eq!(o1, o2);
}

#[test]
fn unclosed_loop_is_a_parse_error() {
    match Program::interpret("[", vec![], FUEL) {
        Err(InterpreterError::ParseError(msg)) => assert_eq!(msg, "Expected end of loop"),
        _ => panic!("expected a parse error"),
    }
}

#[test]
fn stray_loop_end_is_a_parse_error() {
    match Program::interpret("]", vec![], FUEL) {
        Err(InterpreterError::ParseError(msg)) => assert_eq!(msg, "Unexpected end of loop"),
        _ => panic!("expected a parse error"),
    }
}

#[test]
fn deeply_nested_balanced_brackets_are_accepted() {
    let (status, out) = run("[[[]]]", vec![]);
    assert_eq!(status, RunStatus::Done);
    assert_eq!(out, Vec::<u8>::new());
}
