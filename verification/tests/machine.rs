use plua::bf::compile::{compile, optimize};
use plua::bf::ir::BfIR;
use plua::bf::machine::{interpret, Machine, Mode, Outcome};

const HELLO: &str = "++++++++[>++++[>++>+++>+++>+<<<<-]>+>+>->>+[<]<-]>>.>---.+++++++..+++.>>.<-.<.+++.------.--------.>>+.>++.";

fn run(src: &str, fold: bool, cells: usize, input: &[u8]) -> (Option<Outcome>, Vec<u8>) {
    let mut code = compile(src).unwrap();
    if fold {
        optimize(&mut code);
    }
    interpret(&code, cells, input.to_vec(), 10_000_000)
}

#[test]
fn hello_world() {
    let (outcome, output) = run(HELLO, false, 30_000, b"");
    assert_eq!(outcome, Some(Outcome::Finished));
    assert_eq!(output, b"Hello World!\n");
}

#[test]
fn hello_world_optimized() {
    let (outcome, output) = run(HELLO, true, 30_000, b"");
    assert_eq!(outcome, Some(Outcome::Finished));
    assert_eq!(output, b"Hello World!\n");
}

#[test]
fn optimizing_changes_neither_outcome_nor_output() {
    let programs = [
        ("", 4usize, &b""[..]),
        ("+.", 1, b""),
        (",[.,]", 8, b"tape"),
        (">>>>", 4, b""),
        (">>>", 4, b""),
        ("<", 4, b""),
        ("+++>++<[->+<]>.", 2, b""),
        (".+.+.>>.<<<.", 3, b""),
        ("-[>-[>-<+]<+]>>.", 3, b""),
        (HELLO, 7, b""),
        (HELLO, 6, b""),
    ];
    for (src, cells, input) in programs {
        assert_eq!(run(src, false, cells, input), run(src, true, cells, input));
    }
}

#[test]
fn moving_below_the_tape_is_a_pointer_overflow() {
    let code = compile("+<+").unwrap();
    let mut machine = Machine::new(4, vec![]);
    assert_eq!(machine.run(&code, 100), Some(Outcome::PointerOverflow));
    assert_eq!(machine.tape, vec![1, 0, 0, 0]);
    assert_eq!(machine.ptr, 0);
}

#[test]
fn moving_to_the_end_of_the_tape_is_a_pointer_overflow() {
    let code = compile("+>+>+>+>+").unwrap();
    let mut machine = Machine::new(4, vec![]);
    assert_eq!(machine.run(&code, 100), Some(Outcome::PointerOverflow));
    assert_eq!(machine.tape, vec![1, 1, 1, 1]);
    assert_eq!(machine.ptr, 3);
}

#[test]
fn a_folded_move_off_the_tape_is_a_pointer_overflow() {
    for code in [vec![BfIR::AddPtr(4)], vec![BfIR::AddPtr(255)], vec![BfIR::SubPtr(1)]] {
        let mut machine = Machine::new(4, vec![]);
        assert_eq!(machine.run(&code, 100), Some(Outcome::PointerOverflow));
        assert_eq!(machine.tape, vec![0, 0, 0, 0]);
    }
    let mut machine = Machine::new(4, vec![]);
    assert_eq!(machine.run(&[BfIR::AddPtr(3), BfIR::SubPtr(3)], 100), Some(Outcome::Finished));
    assert_eq!(machine.ptr, 0);
}

#[test]
fn output_before_a_pointer_overflow_is_kept() {
    let (outcome, output) = run("+.+.<.", false, 4, b"");
    assert_eq!(outcome, Some(Outcome::PointerOverflow));
    assert_eq!(output, vec![1, 2]);
}

#[test]
fn reading_at_the_end_of_input_leaves_the_cell() {
    let code = compile(",").unwrap();
    let mut machine = Machine::new(4, vec![]);
    assert_eq!(machine.run(&code, 100), Some(Outcome::Finished));
    assert_eq!(machine.tape, vec![0, 0, 0, 0]);

    let code = compile("+++,,").unwrap();
    let mut machine = Machine::new(4, vec![]);
    assert_eq!(machine.run(&code, 100), Some(Outcome::Finished));
    assert_eq!(machine.tape, vec![3, 0, 0, 0]);

    let code = compile(",>,>,").unwrap();
    let mut machine = Machine::new(4, vec![7, 9]);
    assert_eq!(machine.run(&code, 100), Some(Outcome::Finished));
    assert_eq!(machine.tape, vec![7, 9, 0, 0]);
}

#[test]
fn input_is_echoed() {
    let (outcome, output) = run(",.,.,.", false, 1, b"abc");
    assert_eq!(outcome, Some(Outcome::Finished));
    assert_eq!(output, b"abc");
}

#[test]
fn cells_wrap_at_256() {
    let (_, output) = run("-.", false, 1, b"");
    assert_eq!(output, vec![255]);
    let src = format!("{}.", "+".repeat(256));
    assert_eq!(run(&src, false, 1, b"").1, vec![0]);
    assert_eq!(run(&src, true, 1, b"").1, vec![0]);
    let src = format!("{}.", "+".repeat(300));
    assert_eq!(run(&src, false, 1, b"").1, vec![44]);
    assert_eq!(run(&src, true, 1, b"").1, vec![44]);
}

#[test]
fn a_loop_is_skipped_on_zero_and_repeated_otherwise() {
    let (outcome, output) = run("[.]+++[.-]", false, 1, b"");
    assert_eq!(outcome, Some(Outcome::Finished));
    assert_eq!(output, vec![3, 2, 1]);
    let (outcome, output) = run("[[.]+.]++[>+[>+.<-]<-]", false, 3, b"");
    assert_eq!(outcome, Some(Outcome::Finished));
    assert_eq!(output, vec![1, 2]);
}

#[test]
fn a_run_that_does_not_end_is_cut_off() {
    let code = compile("+[]").unwrap();
    let mut machine = Machine::new(1, vec![]);
    assert_eq!(machine.run(&code, 1000), None);
    assert_eq!(machine.outcome(&code), None);
    assert_eq!(machine.tape, vec![1]);
}

#[test]
fn steps_add_up() {
    let code = compile("+>+[-]").unwrap();
    let mut whole = Machine::new(2, vec![]);
    whole.run(&code, 5);
    let mut parts = Machine::new(2, vec![]);
    parts.run(&code, 2);
    parts.run(&code, 3);
    assert_eq!(whole.tape, parts.tape);
    assert_eq!(whole.pc, parts.pc);
    assert_eq!(whole.ptr, parts.ptr);
    assert_eq!(whole.mode, parts.mode);
}

#[test]
fn one_step_at_a_time() {
    let code = compile("+[-]").unwrap();
    let mut machine = Machine::new(1, vec![]);
    machine.step(&code);
    assert_eq!((machine.pc, machine.tape[0], machine.mode), (1, 1, Mode::Run));
    machine.step(&code);
    assert_eq!((machine.pc, machine.mode), (2, Mode::Run));
    machine.step(&code);
    assert_eq!((machine.pc, machine.tape[0]), (3, 0));
    machine.step(&code);
    assert_eq!((machine.pc, machine.mode), (4, Mode::Run));
    assert_eq!(machine.outcome(&code), Some(Outcome::Finished));
    machine.step(&code);
    assert_eq!(machine.pc, 4);
}

#[test]
fn a_folded_full_turn_of_moves_stays_where_it_is() {
    let src = format!("{}+.", ">".repeat(256));
    let (outcome, _) = run(&src, false, 4, b"");
    assert_eq!(outcome, Some(Outcome::PointerOverflow));
    let (outcome, output) = run(&src, true, 4, b"");
    assert_eq!(outcome, Some(Outcome::Finished));
    assert_eq!(output, vec![1]);
}
