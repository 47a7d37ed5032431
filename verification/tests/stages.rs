use brainheck::{InterpreterError, Operation, Program, RunStatus, Token};

#[test]
fn tokenize_maps_each_significant_character() {
    let ts = Program::tokenize("><+-.,[]#").expect("lexing cannot fail");
    assert_eq!(
        ts,
        vec![
            Token::MoveRight,
            Token::MoveLeft,
            Token::Increment,
            Token::Decrement,
            Token::Output,
            Token::Input,
            Token::LoopStart,
            Token::LoopEnd,
            Token::Debug,
        ]
    );
}

#[test]
fn tokenize_drops_everything_else() {
    let ts = Program::tokenize("a + b\t\n? +!").expect("lexing cannot fail");
    assert_eq!(ts, vec![Token::Increment, Token::Increment]);
}

#[test]
fn parse_merges_increments_and_decrements() {
    let ts = vec![Token::Increment, Token::Increment, Token::Increment, Token::Decrement];
    let ops = Program::parse(&ts).expect("balanced tokens parse");
    assert_eq!(ops, vec![Operation::Add(2)]);
}

#[test]
fn parse_keeps_a_cancelled_run_as_add_zero() {
    let ts = vec![Token::Increment, Token::Decrement];
    let ops = Program::parse(&ts).expect("balanced tokens parse");
    assert_eq!(ops, vec![Operation::Add(0)]);
}

#[test]
fn parse_merges_moves_in_both_directions() {
    let ts = vec![Token::MoveLeft, Token::MoveLeft, Token::MoveRight];
    let ops = Program::parse(&ts).expect("balanced tokens parse");
    assert_eq!(ops.len(), 1);
    match &ops[0] {
        Operation::Move(n) => assert_eq!(*n, -1),
        other => panic!("expected a merged Move, got {:?}", other),
    }
}

#[test]
fn parse_builds_nested_loops() {
    let ts = vec![
        Token::LoopStart,
        Token::Increment,
        Token::LoopStart,
        Token::Decrement,
        Token::LoopEnd,
        Token::LoopEnd,
        Token::Output,
    ];
    let ops = Program::parse(&ts).expect("balanced tokens parse");
    assert_eq!(ops.len(), 2);
    match &ops[0] {
        Operation::Loop(body) => {
            assert_eq!(body.len(), 2);
            match &body[0] {
                Operation::Add(n) => assert_eq!(*n, 1),
                other => panic!("expected Add in outer body, got {:?}", other),
            }
            match &body[1] {
                Operation::Loop(inner) => {
                    assert_eq!(inner.len(), 1);
                    match &inner[0] {
                        Operation::Add(n) => assert_eq!(*n, -1),
                        other => panic!("expected Add in inner body, got {:?}", other),
                    }
                },
                other => panic!("expected nested Loop, got {:?}", other),
            }
        },
        other => panic!("expected Loop, got {:?}", other),
    }
    match &ops[1] {
        Operation::Output => {},
        other => panic!("expected Output after the loop, got {:?}", other),
    }
}

#[test]
fn parse_rejects_stray_loop_end_token() {
    match Program::parse(&vec![Token::LoopEnd]) {
        Err(InterpreterError::ParseError(msg)) => assert_eq!(msg, "Unexpected end of loop"),
        _ => panic!("expected a parse error"),
    }
}

#[test]
fn parse_rejects_unclosed_loop_token() {
    match Program::parse(&vec![Token::LoopStart, Token::Increment]) {
        Err(InterpreterError::ParseError(msg)) => assert_eq!(msg, "Expected end of loop"),
        _ => panic!("expected a parse error"),
    }
}

#[test]
fn parse_rejects_unknown_token() {
    match Program::parse(&vec![Token::Unknown]) {
        Err(InterpreterError::ParseError(msg)) => assert_eq!(msg, "Unexpected token Unknown"),
        _ => panic!("expected a parse error"),
    }
}

#[test]
fn execute_applies_merged_add_modulo_256() {
    let mut p = Program::new(vec![]);
    let ops = vec![Operation::Add(300), Operation::Output];
    let status = p.execute(&ops, 10).expect("execution succeeds");
    assert_eq!(status, RunStatus::Done);
}

#[test]
fn execute_wraps_large_negative_moves() {
    let r = Program::interpret(">+<<.", vec![], 1000);
    let (status, out) = r.expect("program should interpret");
    assert_eq!(status, RunStatus::Done);
    assert_eq!(out, vec![0]);
}

#[test]
fn interpret_applies_merged_add_modulo_256() {
    let source = format!("{}.", "+".repeat(300));
    let (status, out) = Program::interpret(&source, vec![], 1000).expect("should run");
    assert_eq!(status, RunStatus::Done);
    assert_eq!(out, vec![44]);
}
