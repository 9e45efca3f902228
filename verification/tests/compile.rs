use plua::bf::compile::{compile, optimize};
use plua::bf::error::{CompileError, CompileErrorKind};
use plua::bf::ir::BfIR;

#[test]
fn test_compile() {
    assert_eq!(
        compile("+[,.]").unwrap(),
        vec![
            BfIR::AddVal(1),
            BfIR::Jz,
            BfIR::GetByte,
            BfIR::PutByte,
            BfIR::Jnz,
        ]
    );

    match compile("[").unwrap_err().kind {
        CompileErrorKind::UnclosedLeftBracket => {}
        _ => panic!(),
    };

    match compile("]").unwrap_err().kind {
        CompileErrorKind::UnexpectedRightBracket => {}
        _ => panic!(),
    };

    let mut code = compile("[+++++]").unwrap();
    optimize(&mut code);
    assert_eq!(code, vec![BfIR::Jz, BfIR::AddVal(5), BfIR::Jnz]);
}

#[test]
fn compile_maps_each_operator() {
    assert_eq!(
        compile("+-><,.[]").unwrap(),
        vec![
            BfIR::AddVal(1),
            BfIR::SubVal(1),
            BfIR::AddPtr(1),
            BfIR::SubPtr(1),
            BfIR::GetByte,
            BfIR::PutByte,
            BfIR::Jz,
            BfIR::Jnz,
        ]
    );
}

#[test]
fn compile_of_nothing_is_nothing() {
    assert_eq!(compile("").unwrap(), vec![]);
}

#[test]
fn compile_ignores_every_other_character() {
    assert_eq!(
        compile("add one: +\n\tthen take it back - (done) \u{00e9}").unwrap(),
        vec![BfIR::AddVal(1), BfIR::SubVal(1)]
    );
}

#[test]
fn unexpected_right_bracket_has_its_position() {
    assert_eq!(
        compile("]").unwrap_err(),
        CompileError { line: 1, col: 1, kind: CompileErrorKind::UnexpectedRightBracket }
    );
    assert_eq!(
        compile("+\n ]").unwrap_err(),
        CompileError { line: 2, col: 2, kind: CompileErrorKind::UnexpectedRightBracket }
    );
    assert_eq!(
        compile("[]\n\n[+]  ]x").unwrap_err(),
        CompileError { line: 3, col: 6, kind: CompileErrorKind::UnexpectedRightBracket }
    );
}

#[test]
fn the_first_error_is_the_one_reported() {
    assert_eq!(
        compile("][").unwrap_err(),
        CompileError { line: 1, col: 1, kind: CompileErrorKind::UnexpectedRightBracket }
    );
    assert_eq!(
        compile("[ ] ] [").unwrap_err(),
        CompileError { line: 1, col: 5, kind: CompileErrorKind::UnexpectedRightBracket }
    );
}

#[test]
fn unclosed_left_bracket_is_the_innermost() {
    assert_eq!(
        compile("[").unwrap_err(),
        CompileError { line: 1, col: 1, kind: CompileErrorKind::UnclosedLeftBracket }
    );
    assert_eq!(
        compile("[ [").unwrap_err(),
        CompileError { line: 1, col: 3, kind: CompileErrorKind::UnclosedLeftBracket }
    );
    assert_eq!(
        compile("[[]").unwrap_err(),
        CompileError { line: 1, col: 1, kind: CompileErrorKind::UnclosedLeftBracket }
    );
    assert_eq!(
        compile("+[\n  [-]\n  [>").unwrap_err(),
        CompileError { line: 3, col: 3, kind: CompileErrorKind::UnclosedLeftBracket }
    );
}

#[test]
fn a_line_feed_starts_the_columns_again() {
    assert_eq!(
        compile("\n\n]").unwrap_err(),
        CompileError { line: 3, col: 1, kind: CompileErrorKind::UnexpectedRightBracket }
    );
    assert_eq!(
        compile("abc\n[").unwrap_err(),
        CompileError { line: 2, col: 1, kind: CompileErrorKind::UnclosedLeftBracket }
    );
}

#[test]
fn optimize_folds_each_run() {
    let mut code = compile("+++>>--<<<<.,++").unwrap();
    optimize(&mut code);
    assert_eq!(
        code,
        vec![
            BfIR::AddVal(3),
            BfIR::AddPtr(2),
            BfIR::SubVal(2),
            BfIR::SubPtr(4),
            BfIR::PutByte,
            BfIR::GetByte,
            BfIR::AddVal(2),
        ]
    );
}

#[test]
fn optimize_sums_counts_that_are_not_one() {
    let mut code = vec![BfIR::AddVal(200), BfIR::AddVal(100), BfIR::SubPtr(7), BfIR::SubPtr(8)];
    optimize(&mut code);
    assert_eq!(code, vec![BfIR::AddVal(44), BfIR::SubPtr(15)]);
}

#[test]
fn optimize_does_not_fold_across_another_instruction() {
    let mut code = compile("+.+[+]+-+").unwrap();
    optimize(&mut code);
    assert_eq!(
        code,
        vec![
            BfIR::AddVal(1),
            BfIR::PutByte,
            BfIR::AddVal(1),
            BfIR::Jz,
            BfIR::AddVal(1),
            BfIR::Jnz,
            BfIR::AddVal(1),
            BfIR::SubVal(1),
            BfIR::AddVal(1),
        ]
    );
}

#[test]
fn optimize_keeps_jumps_and_io_one_by_one() {
    let mut code = compile("[[..,,]]").unwrap();
    let before = code.clone();
    optimize(&mut code);
    assert_eq!(code, before);
}

#[test]
fn optimize_of_nothing_is_nothing() {
    let mut code: Vec<BfIR> = vec![];
    optimize(&mut code);
    assert_eq!(code, vec![]);
}

#[test]
fn a_full_turn_folds_to_zero() {
    for (unit, folded) in [
        ('+', BfIR::AddVal(0)),
        ('-', BfIR::SubVal(0)),
        ('>', BfIR::AddPtr(0)),
        ('<', BfIR::SubPtr(0)),
    ] {
        for turns in [1usize, 2, 3] {
            let src: String = std::iter::repeat(unit).take(256 * turns).collect();
            let mut code = compile(&src).unwrap();
            optimize(&mut code);
            assert_eq!(code, vec![folded]);
        }
    }
}

#[test]
fn a_full_turn_folds_to_zero_between_other_instructions() {
    let src = format!(".{},", "+".repeat(512));
    let mut code = compile(&src).unwrap();
    optimize(&mut code);
    assert_eq!(code, vec![BfIR::PutByte, BfIR::AddVal(0), BfIR::GetByte]);
}

#[test]
fn one_more_than_a_full_turn_folds_to_one() {
    let src = "-".repeat(257);
    let mut code = compile(&src).unwrap();
    optimize(&mut code);
    assert_eq!(code, vec![BfIR::SubVal(1)]);
    let src = ">".repeat(255);
    let mut code = compile(&src).unwrap();
    optimize(&mut code);
    assert_eq!(code, vec![BfIR::AddPtr(255)]);
}

#[test]
fn optimize_is_idempotent() {
    for src in ["+++[>>+<<-]>>.", "++--++", ",[.,]", "[[[+++]]]>>>><<<<"] {
        let mut once = compile(src).unwrap();
        optimize(&mut once);
        let mut twice = once.clone();
        optimize(&mut twice);
        assert_eq!(once, twice);
    }
}

#[test]
fn optimize_never_adds_an_instruction() {
    for src in ["", "+", "+-", "++++", "[.]", "+>+>+>"] {
        let mut code = compile(src).unwrap();
        let before = code.len();
        optimize(&mut code);
        assert!(code.len() <= before);
    }
}

#[test]
fn optimize_leaves_the_brackets_in_order() {
    let mut code = compile("++[>>[--]<<[-]]++").unwrap();
    optimize(&mut code);
    let jumps: Vec<BfIR> =
        code.iter().copied().filter(|i| matches!(i, BfIR::Jz | BfIR::Jnz)).collect();
    assert_eq!(
        jumps,
        vec![BfIR::Jz, BfIR::Jz, BfIR::Jnz, BfIR::Jz, BfIR::Jnz, BfIR::Jnz]
    );
}
