use plua::bf::codegen::{emit, Hooks};
use plua::bf::compile::{compile, optimize};
use plua::bf::error::{
    CompileError, CompileErrorKind, GenerationError, RuntimeError, VMError,
};
use plua::bf::vm::{
    fresh_tape, getbyte, load, overflow_error, putbyte, run_result, vm_error, MEMORY_SIZE,
};
use plua::vm::Frame;

fn hooks() -> Hooks {
    Hooks { getbyte: 0x1000, putbyte: 0x2000, overflow: 0x3000 }
}

fn broken() -> std::io::Error {
    std::io::Error::new(std::io::ErrorKind::BrokenPipe, "the pipe is broken")
}

#[test]
fn the_tape_is_four_mebibytes_of_zeros() {
    assert_eq!(MEMORY_SIZE, 4 * 1024 * 1024);
    let tape = fresh_tape();
    assert_eq!(tape.len(), MEMORY_SIZE);
    assert!(tape.iter().all(|&cell| cell == 0));
}

#[test]
fn getbyte_at_the_end_of_input_leaves_the_cell() {
    let mut cell = 0u8;
    assert!(getbyte(&mut cell, Ok(0), 99).is_ok());
    assert_eq!(cell, 0);
    let mut cell = 42u8;
    assert!(getbyte(&mut cell, Ok(0), 99).is_ok());
    assert_eq!(cell, 42);
}

#[test]
fn getbyte_stores_the_byte_read() {
    let mut cell = 42u8;
    assert!(getbyte(&mut cell, Ok(1), 99).is_ok());
    assert_eq!(cell, 99);
}

#[test]
fn getbyte_reports_a_failed_read() {
    let mut cell = 42u8;
    match getbyte(&mut cell, Err(broken()), 99) {
        Err(RuntimeError::IO(e)) => assert_eq!(e.kind(), std::io::ErrorKind::BrokenPipe),
        _ => panic!(),
    }
    assert_eq!(cell, 42);
}

#[test]
fn putbyte_reports_a_failed_write() {
    assert!(putbyte(Ok(())).is_ok());
    match putbyte(Err(broken())) {
        Err(RuntimeError::IO(e)) => assert_eq!(e.kind(), std::io::ErrorKind::BrokenPipe),
        _ => panic!(),
    }
}

#[test]
fn a_runtime_error_becomes_the_error_of_the_run() {
    assert!(matches!(
        *vm_error(RuntimeError::PointerOverflow),
        VMError::Runtime(RuntimeError::PointerOverflow)
    ));
    assert!(matches!(*vm_error(RuntimeError::IO(broken())), VMError::Runtime(RuntimeError::IO(_))));
    assert!(matches!(*overflow_error(), VMError::Runtime(RuntimeError::PointerOverflow)));
}

#[test]
fn nothing_returned_is_success() {
    assert!(run_result(None).is_ok());
    assert!(matches!(
        run_result(Some(overflow_error())),
        Err(VMError::Runtime(RuntimeError::PointerOverflow))
    ));
    assert!(matches!(
        run_result(Some(vm_error(RuntimeError::IO(broken())))),
        Err(VMError::Runtime(RuntimeError::IO(_)))
    ));
}

#[test]
fn errors_convert_into_the_error_of_the_machine() {
    let e = CompileError { line: 1, col: 2, kind: CompileErrorKind::UnclosedLeftBracket };
    assert!(matches!(VMError::from(e), VMError::Compile(c) if c == e));
    assert!(matches!(
        VMError::from(RuntimeError::PointerOverflow),
        VMError::Runtime(RuntimeError::PointerOverflow)
    ));
    assert!(matches!(VMError::from(broken()), VMError::IO(_)));
    assert!(matches!(RuntimeError::from(broken()), RuntimeError::IO(_)));
    assert!(matches!(
        VMError::from(GenerationError::TooLarge),
        VMError::Generate(GenerationError::TooLarge)
    ));
}

#[test]
fn load_compiles_and_generates() {
    let image = load("+[,.]", false, &hooks()).unwrap();
    assert_eq!(image.start, 0);
    assert_eq!(image.memory.len(), MEMORY_SIZE);
    assert!(image.memory.iter().all(|&cell| cell == 0));
    let code = compile("+[,.]").unwrap();
    assert_eq!(&image.code[..], &emit(&code, &hooks()).unwrap()[..]);
}

#[test]
fn load_folds_only_when_asked() {
    let src = "+++[>>+<<-]";
    let plain = compile(src).unwrap();
    let mut folded = plain.clone();
    optimize(&mut folded);
    let image = load(src, false, &hooks()).unwrap();
    assert_eq!(&image.code[..], &emit(&plain, &hooks()).unwrap()[..]);
    let image = load(src, true, &hooks()).unwrap();
    assert_eq!(&image.code[..], &emit(&folded, &hooks()).unwrap()[..]);
    assert!(emit(&folded, &hooks()).unwrap().len() < emit(&plain, &hooks()).unwrap().len());
}

#[test]
fn load_stops_at_a_compile_error() {
    match load("+\n[", true, &hooks()) {
        Err(VMError::Compile(e)) => assert_eq!(
            e,
            CompileError { line: 2, col: 1, kind: CompileErrorKind::UnclosedLeftBracket }
        ),
        _ => panic!(),
    }
    match load("]", false, &hooks()) {
        Err(VMError::Compile(e)) => assert_eq!(
            e,
            CompileError { line: 1, col: 1, kind: CompileErrorKind::UnexpectedRightBracket }
        ),
        _ => panic!(),
    }
}

#[test]
fn messages_say_what_failed() {
    assert_eq!(CompileErrorKind::UnclosedLeftBracket.message(), "Unclosed left bracket");
    assert_eq!(CompileErrorKind::UnexpectedRightBracket.message(), "Unexpected right bracket");
    let e = CompileError { line: 3, col: 14, kind: CompileErrorKind::UnclosedLeftBracket };
    assert_eq!(e.message(), "Unclosed left bracket at line 3:14");
    let e = CompileError {
        line: 4294967295,
        col: 10,
        kind: CompileErrorKind::UnexpectedRightBracket,
    };
    assert_eq!(e.message(), "Unexpected right bracket at line 4294967295:10");
    assert_eq!(VMError::Compile(e).message(), "Compile: Unexpected right bracket at line 4294967295:10");
    assert_eq!(RuntimeError::PointerOverflow.message(), "Pointer overflow");
    assert_eq!(
        VMError::Runtime(RuntimeError::PointerOverflow).message(),
        "Runtime: Pointer overflow"
    );
    assert_eq!(RuntimeError::IO(broken()).message(), "IO: the pipe is broken");
    assert_eq!(VMError::IO(broken()).message(), "IO: the pipe is broken");
    assert_eq!(
        VMError::Runtime(RuntimeError::IO(broken())).message(),
        "Runtime: IO: the pipe is broken"
    );
    assert_eq!(GenerationError::TooLarge.message(), "Program too large");
    assert_eq!(GenerationError::UnbalancedJumps.message(), "Unbalanced jumps");
    assert_eq!(GenerationError::Shared.message(), "Executable memory is shared");
    assert_eq!(GenerationError::Memory(broken()).message(), "Memory: the pipe is broken");
    assert_eq!(
        VMError::Generate(GenerationError::TooLarge).message(),
        "Generate: Program too large"
    );
}

#[test]
fn a_frame_keeps_its_parts() {
    assert_eq!(Frame::new(1, 2, 3).parts(), (1, 2, 3));
    assert_eq!(Frame::new(0, usize::MAX, 7).parts(), (0, usize::MAX, 7));
}
