//! What the execution engine computes: from source text to native code
//! with its tape, and what the host's routines decide when generated code
//! calls them. Reading files, calling into generated code and the routines
//! themselves are the caller's.

use vstd::prelude::*;

use crate::bf::assembler::buffer_bytes;
use crate::bf::codegen::code_size;
use crate::bf::codegen::generate;
use crate::bf::codegen::machine_code;
use crate::bf::codegen::Hooks;
use crate::bf::codegen::CODE_LIMIT;
use crate::bf::compile::balanced;
use crate::bf::compile::compile;
use crate::bf::compile::lower;
use crate::bf::compile::optimize;
use crate::bf::compile::reports;
use crate::bf::error::GenerationError;
use crate::bf::error::RuntimeError;
use crate::bf::error::VMError;
use crate::bf::ir::BfIR;
use crate::bf::peephole::optimized;

verus! {

/// The number of cells of the tape.
pub const MEMORY_SIZE: usize = 4 * 1024 * 1024;

/// A program ready to run: its native code, the offset of its entry point
/// and its tape.
pub struct Image {
    pub code: dynasmrt::ExecutableBuffer,
    pub start: usize,
    pub memory: Vec<u8>,
}

/// The instructions that `src` is translated to, folded if `fold` is set.
pub open spec fn program(src: Seq<char>, fold: bool) -> Seq<BfIR> {
    if fold {
        optimized(lower(src))
    } else {
        lower(src)
    }
}

/// The error of a run: a runtime error, ready to be handed across the
/// boundary to generated code and back.
pub fn vm_error(re: RuntimeError) -> (e: Box<VMError>)
    ensures
        *e == VMError::Runtime(re),
{
    Box::new(VMError::Runtime(re))
}

/// The error that reports a data pointer outside the tape.
pub fn overflow_error() -> (e: Box<VMError>)
    ensures
        *e == VMError::Runtime(RuntimeError::PointerOverflow),
{
    vm_error(RuntimeError::PointerOverflow)
}

/// What reading one byte of input does to the cell that receives it.
///
/// `read` is what the input gave when asked for one byte: the number of
/// bytes it delivered, with the byte in `byte`, or its failure. The end of
/// the input is no error: the cell keeps its value.
pub fn getbyte(cell: &mut u8, read: Result<usize, std::io::Error>, byte: u8) -> (result: Result<
    (),
    RuntimeError,
>)
    ensures
        match read {
            Ok(n) => result is Ok && *final(cell) == if n == 0 {
                *old(cell)
            } else {
                byte
            },
            Err(e) => result == Err::<(), RuntimeError>(RuntimeError::IO(e)) && *final(cell)
                == *old(cell),
        },
{
    match read {
        Ok(n) => {
            if n != 0 {
                *cell = byte;
            }
            Ok(())
        },
        Err(e) => Err(RuntimeError::IO(e)),
    }
}

/// What writing one byte of output comes to: nothing, or the failure of
/// the output as a runtime error.
pub fn putbyte(written: Result<(), std::io::Error>) -> (result: Result<(), RuntimeError>)
    ensures
        match written {
            Ok(_) => result is Ok,
            Err(e) => result == Err::<(), RuntimeError>(RuntimeError::IO(e)),
        },
{
    match written {
        Ok(_) => Ok(()),
        Err(e) => Err(RuntimeError::IO(e)),
    }
}

/// What a run comes to: success if generated code returned nothing, else
/// the error that it returned.
pub fn run_result(returned: Option<Box<VMError>>) -> (result: Result<(), VMError>)
    ensures
        match returned {
            None => result is Ok,
            Some(e) => result == Err::<(), VMError>(*e),
        },
{
    match returned {
        None => Ok(()),
        Some(e) => Err(*e),
    }
}

/// A tape of `MEMORY_SIZE` cells, all zero.
pub fn fresh_tape() -> (tape: Vec<u8>)
    ensures
        tape@ == Seq::new(MEMORY_SIZE as nat, |i: int| 0u8),
{
    let tape: Vec<u8> = vec![0u8; MEMORY_SIZE];
    proof {
        assert(tape@ == Seq::new(MEMORY_SIZE as nat, |i: int| 0u8));
    }
    tape
}

/// Compiles `src`, folds its runs if `fold` is set, generates native code
/// and pairs it with a fresh tape.
///
/// Fails with the compile error of `src` if its brackets do not pair up,
/// and before any code is generated. Fails with `TooLarge` exactly when
/// the program is one but its code would exceed `CODE_LIMIT`. Otherwise
/// the image holds the machine code of the program, unless the system
/// withheld the memory.
///
/// Positions in `src` are 32-bit, so the text must be shorter than
/// `u32::MAX` characters.
pub fn load(src: &str, fold: bool, hooks: &Hooks) -> (result: Result<Image, VMError>)
    requires
        src@.len() < u32::MAX,
    ensures
        match result {
            Ok(image) => {
                &&& balanced(src@)
                &&& code_size(program(src@, fold)) <= CODE_LIMIT
                &&& image.start == 0
                &&& buffer_bytes(image.code) == machine_code(program(src@, fold), *hooks)
                &&& image.memory@ == Seq::new(MEMORY_SIZE as nat, |i: int| 0u8)
            },
            Err(VMError::Compile(e)) => reports(src@, e),
            Err(VMError::Generate(GenerationError::TooLarge)) => balanced(src@) && code_size(
                program(src@, fold),
            ) > CODE_LIMIT,
            Err(VMError::Generate(GenerationError::UnbalancedJumps)) => false,
            Err(VMError::Generate(_)) => balanced(src@) && code_size(program(src@, fold))
                <= CODE_LIMIT,
            Err(_) => false,
        },
{
    let mut ir = match compile(src) {
        Ok(ir) => ir,
        Err(e) => {
            return Err(VMError::Compile(e));
        },
    };
    if fold {
        optimize(&mut ir);
    }
    let (code, start) = match generate(ir.as_slice(), hooks) {
        Ok(generated) => generated,
        Err(e) => {
            return Err(VMError::Generate(e));
        },
    };
    let memory = fresh_tape();
    Ok(Image { code, start, memory })
}

} // verus!
