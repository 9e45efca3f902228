//! From instructions to machine code for x86-64 under the System V calling
//! convention.
//!
//! The generated function takes the handle of its host in `rdi`, the first
//! address of the tape in `rsi` and the address behind its last cell in
//! `rdx`. It keeps the handle in `r12`, the two bounds in `r13` and `r14`
//! and the data pointer in `rcx`, with `r15` as the pointer's shelter
//! across calls. It returns null in `rax`, or whatever a host routine
//! returned when it reported a failure.

use vstd::prelude::*;

use crate::bf::assembler::assembler_extend;
use crate::bf::assembler::assembler_finalize;
use crate::bf::assembler::assembler_new;
use crate::bf::assembler::assembler_offset;
use crate::bf::assembler::buffer_bytes;
use crate::bf::error::GenerationError;
use crate::bf::ir::well_nested;
use crate::bf::ir::BfIR;
use crate::bf::loops::jump_table;
use crate::bf::loops::partner;

verus! {

/// The addresses of the three host routines that generated code calls.
#[derive(Debug, Clone, Copy, PartialEq, Eq, Structural)]
pub struct Hooks {
    /// Reads one byte into the cell whose address is its second argument.
    pub getbyte: u64,
    /// Writes the cell whose address is its second argument.
    pub putbyte: u64,
    /// Makes the error that reports a data pointer outside the tape.
    pub overflow: u64,
}

/// The number of bytes before the code of the first instruction.
pub const PROLOGUE_SIZE: usize = 13;

/// The number of bytes behind the code of the last instruction.
pub const EPILOGUE_SIZE: usize = 27;

/// The longest program, in bytes of machine code, that jumps can cross.
pub const CODE_LIMIT: usize = 0x7fff_ffff;

/// The `n` low bytes of `v` in two's complement, least significant first.
pub open spec fn le_bytes(v: int, n: nat) -> Seq<u8>
    decreases n,
{
    if n == 0 {
        Seq::empty()
    } else {
        seq![(v % 256) as u8] + le_bytes(v / 256, (n - 1) as nat)
    }
}

/// The number of bytes of machine code that an instruction takes.
pub open spec fn size_of(instruction: BfIR) -> int {
    match instruction {
        BfIR::AddPtr(_) | BfIR::SubPtr(_) => 22,
        BfIR::AddVal(_) | BfIR::SubVal(_) => 3,
        BfIR::GetByte | BfIR::PutByte => 33,
        BfIR::Jz | BfIR::Jnz => 9,
    }
}

/// The number of bytes that the instructions of `code` take together.
pub open spec fn body_size(code: Seq<BfIR>) -> int
    decreases code.len(),
{
    if code.len() == 0 {
        0
    } else {
        body_size(code.drop_last()) + size_of(code.last())
    }
}

/// The offset of the machine code of instruction `i`; for `i` behind the
/// last instruction, the offset of the epilogue.
pub open spec fn offset_of(code: Seq<BfIR>, i: int) -> int {
    PROLOGUE_SIZE + body_size(code.take(i))
}

/// The number of bytes of the whole function.
pub open spec fn code_size(code: Seq<BfIR>) -> int {
    PROLOGUE_SIZE + body_size(code) + EPILOGUE_SIZE
}

/// The offset of the block that reports a data pointer outside the tape.
pub open spec fn overflow_label(code: Seq<BfIR>) -> int {
    PROLOGUE_SIZE + body_size(code) + 8
}

/// The offset of the function's exit.
pub open spec fn exit_label(code: Seq<BfIR>) -> int {
    PROLOGUE_SIZE + body_size(code) + 25
}

/// One more instruction: how the sizes move.
proof fn lemma_prefix_step(code: Seq<BfIR>, n: int)
    requires
        0 <= n < code.len(),
    ensures
        body_size(code.take(n + 1)) == body_size(code.take(n)) + size_of(code[n]),
        offset_of(code, n + 1) == offset_of(code, n) + size_of(code[n]),
{
    assert(code.take(n + 1).drop_last() == code.take(n));
}

/// A prefix takes no more bytes than the whole.
pub proof fn lemma_body_size_monotonic(code: Seq<BfIR>, n: int)
    requires
        0 <= n <= code.len(),
    ensures
        0 <= body_size(code.take(n)) <= body_size(code),
        PROLOGUE_SIZE <= offset_of(code, n) <= offset_of(code, code.len() as int),
    decreases code.len() - n,
{
    if n == code.len() {
        assert(code.take(n) == code);
        lemma_body_size_nonnegative(code);
    } else {
        lemma_prefix_step(code, n);
        lemma_body_size_monotonic(code, n + 1);
        lemma_body_size_nonnegative(code.take(n));
    }
    assert(code.take(code.len() as int) == code);
}

/// No code takes a negative number of bytes.
pub proof fn lemma_body_size_nonnegative(code: Seq<BfIR>)
    ensures
        0 <= body_size(code),
    decreases code.len(),
{
    if code.len() > 0 {
        lemma_body_size_nonnegative(code.drop_last());
    }
}

/// The number of bytes that an instruction takes.
fn instruction_size(instruction: BfIR) -> (n: usize)
    ensures
        n == size_of(instruction),
{
    match instruction {
        BfIR::AddPtr(_) | BfIR::SubPtr(_) => 22,
        BfIR::AddVal(_) | BfIR::SubVal(_) => 3,
        BfIR::GetByte | BfIR::PutByte => 33,
        BfIR::Jz | BfIR::Jnz => 9,
    }
}

/// Whether the function that `code` is translated to is no longer than
/// `CODE_LIMIT`.
fn fits(code: &[BfIR]) -> (result: bool)
    ensures
        result == (code_size(code@) <= CODE_LIMIT),
{
    let mut at: usize = PROLOGUE_SIZE;
    let mut i: usize = 0;
    proof {
        assert(code@.take(0) == Seq::<BfIR>::empty());
    }
    while i < code.len()
        invariant
            i <= code.len(),
            at == offset_of(code@, i as int),
            at <= CODE_LIMIT - EPILOGUE_SIZE,
        decreases code.len() - i,
    {
        proof {
            lemma_prefix_step(code@, i as int);
            lemma_body_size_monotonic(code@, i + 1);
        }
        let size = instruction_size(code[i]);
        if at + size > CODE_LIMIT - EPILOGUE_SIZE {
            return false;
        }
        at = at + size;
        i += 1;
    }
    proof {
        assert(code@.take(code.len() as int) == code@);
    }
    true
}

/// The offset of every instruction and, last, of the epilogue.
fn layout(code: &[BfIR]) -> (offsets: Vec<usize>)
    requires
        code_size(code@) <= CODE_LIMIT,
    ensures
        offsets.len() == code.len() + 1,
        forall|i: int| 0 <= i <= code.len() ==> #[trigger] offsets[i] == offset_of(code@, i),
{
    let mut offsets: Vec<usize> = Vec::new();
    let mut at: usize = PROLOGUE_SIZE;
    let mut i: usize = 0;
    proof {
        assert(code@.take(0) == Seq::<BfIR>::empty());
    }
    while i < code.len()
        invariant
            i <= code.len(),
            offsets.len() == i,
            code_size(code@) <= CODE_LIMIT,
            at == offset_of(code@, i as int),
            forall|k: int| 0 <= k < i ==> #[trigger] offsets[k] == offset_of(code@, k),
        decreases code.len() - i,
    {
        proof {
            lemma_prefix_step(code@, i as int);
            lemma_body_size_monotonic(code@, i + 1);
        }
        offsets.push(at);
        at = at + instruction_size(code[i]);
        i += 1;
    }
    offsets.push(at);
    offsets
}

/// The code that moves the data pointer up by `n` and leaves for the
/// overflow block if the addition carries or the pointer is no longer
/// below the end of the tape.
///
/// `add rcx, n`, `jc overflow`, compare `rcx` with `r14`, `jnb overflow`.
pub open spec fn add_ptr_code(n: u8, at: int, overflow: int) -> Seq<u8> {
    seq![0x48u8, 0x81, 0xC1] + le_bytes(n as int, 4) + seq![0x0Fu8, 0x82] + le_bytes(
        overflow - (at + 13),
        4,
    ) + seq![0x4Cu8, 0x39, 0xF1, 0x0F, 0x83] + le_bytes(overflow - (at + 22), 4)
}

/// The code that moves the data pointer down by `n` and leaves for the
/// overflow block if the subtraction borrows or the pointer is below the
/// start of the tape.
///
/// `sub rcx, n`, `jc overflow`, compare `rcx` with `r13`, `jb overflow`.
pub open spec fn sub_ptr_code(n: u8, at: int, overflow: int) -> Seq<u8> {
    seq![0x48u8, 0x81, 0xE9] + le_bytes(n as int, 4) + seq![0x0Fu8, 0x82] + le_bytes(
        overflow - (at + 13),
        4,
    ) + seq![0x4Cu8, 0x39, 0xE9, 0x0F, 0x82] + le_bytes(overflow - (at + 22), 4)
}

/// The code that calls the host routine at `hook` with the host's handle
/// and the data pointer, and leaves for the exit, with the routine's
/// result in `rax`, if that result is not null.
///
/// `mov r15, rcx`, `mov rdi, r12`, `mov rsi, rcx`, `mov rax, hook`,
/// `call rax`, `test rax, rax`, `jnz exit`, `mov rcx, r15`.
pub open spec fn call_code(hook: u64, at: int, exit: int) -> Seq<u8> {
    seq![0x49u8, 0x89, 0xCF, 0x4C, 0x89, 0xE7, 0x48, 0x89, 0xCE, 0x48, 0xB8] + le_bytes(
        hook as int,
        8,
    ) + seq![0xFFu8, 0xD0, 0x48, 0x85, 0xC0, 0x0F, 0x85] + le_bytes(exit - (at + 30), 4)
        + seq![0x4Cu8, 0x89, 0xF9]
}

/// The code that tests the current cell and jumps to `target` on the
/// condition `condition`: `0x84` if the cell is zero, `0x85` if it is not.
pub open spec fn branch_code(condition: u8, at: int, target: int) -> Seq<u8> {
    seq![0x80u8, 0x39, 0x00, 0x0F, condition] + le_bytes(target - (at + 9), 4)
}

/// The bytes that set up the registers.
///
/// `push rax`, `mov r12, rdi`, `mov r13, rsi`, `mov r14, rdx`,
/// `mov rcx, rsi`.
pub open spec fn prologue() -> Seq<u8> {
    seq![0x50u8, 0x49, 0x89, 0xFC, 0x49, 0x89, 0xF5, 0x49, 0x89, 0xD6, 0x48, 0x89, 0xF1]
}

/// The bytes behind the last instruction: the return of null, the overflow
/// block, which returns what the host's routine makes, and the exit.
///
/// `xor rax, rax`, `jmp exit`; overflow: `mov rax, hook`, `call rax`,
/// `jmp exit`; exit: `pop rdx`, `ret`.
pub open spec fn epilogue(hooks: Hooks) -> Seq<u8> {
    seq![0x48u8, 0x31, 0xC0, 0xE9] + le_bytes(17, 4) + seq![0x48u8, 0xB8] + le_bytes(
        hooks.overflow as int,
        8,
    ) + seq![0xFFu8, 0xD0, 0xE9] + le_bytes(0, 4) + seq![0x5Au8, 0xC3]
}

/// The machine code of instruction `i` of `code`.
pub open spec fn encode(code: Seq<BfIR>, i: int, hooks: Hooks) -> Seq<u8> {
    let at = offset_of(code, i);
    match code[i] {
        BfIR::AddPtr(n) => add_ptr_code(n, at, overflow_label(code)),
        BfIR::SubPtr(n) => sub_ptr_code(n, at, overflow_label(code)),
        BfIR::AddVal(n) => seq![0x80u8, 0x01, n],
        BfIR::SubVal(n) => seq![0x80u8, 0x29, n],
        BfIR::GetByte => call_code(hooks.getbyte, at, exit_label(code)),
        BfIR::PutByte => call_code(hooks.putbyte, at, exit_label(code)),
        BfIR::Jz => branch_code(0x84, at, offset_of(code, partner(code, i) + 1)),
        BfIR::Jnz => branch_code(0x85, at, offset_of(code, partner(code, i) + 1)),
    }
}

/// The machine code of the first `n` instructions of `code`.
pub open spec fn body(code: Seq<BfIR>, hooks: Hooks, n: int) -> Seq<u8>
    decreases n,
{
    if n <= 0 {
        Seq::empty()
    } else {
        body(code, hooks, n - 1) + encode(code, n - 1, hooks)
    }
}

/// The machine code of the whole function.
pub open spec fn machine_code(code: Seq<BfIR>, hooks: Hooks) -> Seq<u8> {
    prologue() + body(code, hooks, code.len() as int) + epilogue(hooks)
}

/// Adding a multiple of 2^32 changes none of the four low bytes.
proof fn lemma_le_bytes_wrap(v: int)
    ensures
        le_bytes(v + 0x1_0000_0000, 4) == le_bytes(v, 4),
{
    reveal_with_fuel(le_bytes, 5);
    let w = v + 0x1_0000_0000;
    assert(w % 256 == v % 256 && w / 256 == v / 256 + 0x100_0000);
    let v1 = v / 256;
    let w1 = w / 256;
    assert(w1 % 256 == v1 % 256 && w1 / 256 == v1 / 256 + 0x1_0000);
    let v2 = v1 / 256;
    let w2 = w1 / 256;
    assert(w2 % 256 == v2 % 256 && w2 / 256 == v2 / 256 + 0x100);
    let v3 = v2 / 256;
    let w3 = w2 / 256;
    assert(w3 % 256 == v3 % 256);
}

/// Appends the `n` low bytes of `v`, least significant first.
fn push_le(out: &mut Vec<u8>, v: u64, n: usize)
    ensures
        final(out)@ == old(out)@ + le_bytes(v as int, n as nat),
{
    let mut rest: u64 = v;
    let mut k: usize = 0;
    proof {
        assert(out@ + le_bytes(rest as int, n as nat) == old(out)@ + le_bytes(v as int, n as nat));
    }
    while k < n
        invariant
            k <= n,
            out@ + le_bytes(rest as int, (n - k) as nat) == old(out)@ + le_bytes(
                v as int,
                n as nat,
            ),
        decreases n - k,
    {
        let ghost before = out@;
        let low: u8 = (rest % 256) as u8;
        out.push(low);
        proof {
            assert(le_bytes(rest as int, (n - k) as nat) == seq![low] + le_bytes(
                rest as int / 256,
                (n - k - 1) as nat,
            ));
            assert(before.push(low) + le_bytes(rest as int / 256, (n - k - 1) as nat) == before + (
            seq![low] + le_bytes(rest as int / 256, (n - k - 1) as nat)));
        }
        rest = rest / 256;
        k += 1;
    }
    proof {
        assert(out@ + le_bytes(rest as int, 0) == out@);
    }
}

/// Appends the 32-bit distance from `next` to `target`.
fn push_rel(out: &mut Vec<u8>, target: usize, next: usize)
    requires
        target <= CODE_LIMIT,
        next <= CODE_LIMIT,
    ensures
        final(out)@ == old(out)@ + le_bytes(target - next, 4),
{
    if target >= next {
        push_le(out, (target - next) as u64, 4);
    } else {
        proof {
            lemma_le_bytes_wrap(target - next);
        }
        push_le(out, 0x1_0000_0000u64 - (next - target) as u64, 4);
    }
}

/// Appends the three bytes in order.
fn push3(out: &mut Vec<u8>, a: u8, b: u8, c: u8)
    ensures
        final(out)@ == old(out)@ + seq![a, b, c],
{
    out.push(a);
    out.push(b);
    out.push(c);
    proof {
        assert(out@ == old(out)@ + seq![a, b, c]);
    }
}

/// Appends the two bytes in order.
fn push2(out: &mut Vec<u8>, a: u8, b: u8)
    ensures
        final(out)@ == old(out)@ + seq![a, b],
{
    out.push(a);
    out.push(b);
    proof {
        assert(out@ == old(out)@ + seq![a, b]);
    }
}

/// Appends the code of a move of the data pointer: up by `n` if `up`, else
/// down by `n`.
fn push_move(out: &mut Vec<u8>, up: bool, n: u8, at: usize, overflow: usize)
    requires
        at + 22 <= CODE_LIMIT,
        overflow <= CODE_LIMIT,
    ensures
        final(out)@ == old(out)@ + if up {
            add_ptr_code(n, at as int, overflow as int)
        } else {
            sub_ptr_code(n, at as int, overflow as int)
        },
{
    let ghost start = out@;
    push3(out, 0x48, 0x81, if up { 0xC1 } else { 0xE9 });
    push_le(out, n as u64, 4);
    push2(out, 0x0F, 0x82);
    push_rel(out, overflow, at + 13);
    push3(out, 0x4C, 0x39, if up { 0xF1 } else { 0xE9 });
    push2(out, 0x0F, if up { 0x83 } else { 0x82 });
    push_rel(out, overflow, at + 22);
    proof {
        let b = if up { 0xF1u8 } else { 0xE9u8 };
        let c = if up { 0x83u8 } else { 0x82u8 };
        assert(seq![0x4Cu8, 0x39, b] + seq![0x0Fu8, c] == seq![0x4Cu8, 0x39, b, 0x0F, c]);
        assert(out@ == start + if up {
            add_ptr_code(n, at as int, overflow as int)
        } else {
            sub_ptr_code(n, at as int, overflow as int)
        });
    }
}

/// Appends the code of a call of the host routine at `hook`.
fn push_call(out: &mut Vec<u8>, hook: u64, at: usize, exit: usize)
    requires
        at + 33 <= CODE_LIMIT,
        exit <= CODE_LIMIT,
    ensures
        final(out)@ == old(out)@ + call_code(hook, at as int, exit as int),
{
    let ghost start = out@;
    push3(out, 0x49, 0x89, 0xCF);
    push3(out, 0x4C, 0x89, 0xE7);
    push3(out, 0x48, 0x89, 0xCE);
    push2(out, 0x48, 0xB8);
    push_le(out, hook, 8);
    push2(out, 0xFF, 0xD0);
    push3(out, 0x48, 0x85, 0xC0);
    push2(out, 0x0F, 0x85);
    push_rel(out, exit, at + 30);
    push3(out, 0x4C, 0x89, 0xF9);
    proof {
        assert(seq![0x49u8, 0x89, 0xCF] + seq![0x4Cu8, 0x89, 0xE7] + seq![0x48u8, 0x89, 0xCE]
            + seq![0x48u8, 0xB8] == seq![
            0x49u8,
            0x89,
            0xCF,
            0x4C,
            0x89,
            0xE7,
            0x48,
            0x89,
            0xCE,
            0x48,
            0xB8,
        ]);
        assert(seq![0xFFu8, 0xD0] + seq![0x48u8, 0x85, 0xC0] + seq![0x0Fu8, 0x85] == seq![
            0xFFu8,
            0xD0,
            0x48,
            0x85,
            0xC0,
            0x0F,
            0x85,
        ]);
        assert(out@ == start + call_code(hook, at as int, exit as int));
    }
}

/// Appends the code of a jump on the current cell.
fn push_branch(out: &mut Vec<u8>, condition: u8, at: usize, target: usize)
    requires
        at + 9 <= CODE_LIMIT,
        target <= CODE_LIMIT,
    ensures
        final(out)@ == old(out)@ + branch_code(condition, at as int, target as int),
{
    let ghost start = out@;
    push3(out, 0x80, 0x39, 0x00);
    push2(out, 0x0F, condition);
    push_rel(out, target, at + 9);
    proof {
        assert(seq![0x80u8, 0x39, 0x00] + seq![0x0Fu8, condition] == seq![
            0x80u8,
            0x39,
            0x00,
            0x0F,
            condition,
        ]);
        assert(out@ == start + branch_code(condition, at as int, target as int));
    }
}

/// Translates instructions into the bytes of a native function.
///
/// Fails with `TooLarge` exactly when the function would take more than
/// `CODE_LIMIT` bytes, and otherwise with `UnbalancedJumps` exactly when
/// the jumps of `code` do not pair up. In every other case the result is
/// `machine_code`, byte for byte.
pub fn emit(code: &[BfIR], hooks: &Hooks) -> (result: Result<Vec<u8>, GenerationError>)
    ensures
        match result {
            Ok(bytes) => {
                &&& well_nested(code@)
                &&& code_size(code@) <= CODE_LIMIT
                &&& bytes@ == machine_code(code@, *hooks)
            },
            Err(GenerationError::TooLarge) => code_size(code@) > CODE_LIMIT,
            Err(GenerationError::UnbalancedJumps) => code_size(code@) <= CODE_LIMIT && !well_nested(
                code@,
            ),
            Err(_) => false,
        },
{
    if !fits(code) {
        return Err(GenerationError::TooLarge);
    }
    let table = match jump_table(code) {
        Some(table) => table,
        None => {
            return Err(GenerationError::UnbalancedJumps);
        },
    };
    let offsets = layout(code);
    let len = code.len();
    let end = offsets[len];
    proof {
        assert(code@.take(len as int) == code@);
        assert(end == offset_of(code@, len as int));
    }
    let overflow = end + 8;
    let exit = end + 25;

    let mut out: Vec<u8> = Vec::new();
    push3(&mut out, 0x50, 0x49, 0x89);
    push3(&mut out, 0xFC, 0x49, 0x89);
    push3(&mut out, 0xF5, 0x49, 0x89);
    push3(&mut out, 0xD6, 0x48, 0x89);
    out.push(0xF1);
    proof {
        assert(out@ == prologue());
        assert(out@ + body(code@, *hooks, 0) == out@);
    }

    let mut i: usize = 0;
    while i < len
        invariant
            i <= len,
            len == code.len(),
            table.len() == len,
            offsets.len() == len + 1,
            code_size(code@) <= CODE_LIMIT,
            end == offset_of(code@, len as int),
            overflow == overflow_label(code@),
            exit == exit_label(code@),
            forall|k: int| 0 <= k <= len ==> #[trigger] offsets[k] == offset_of(code@, k),
            forall|k: int|
                0 <= k < len && (code[k] is Jz || code[k] is Jnz) ==> #[trigger] table[k]
                    == partner(code@, k) && table[k] < len,
            out@ == prologue() + body(code@, *hooks, i as int),
        decreases len - i,
    {
        let at = offsets[i];
        let ghost before = out@;
        proof {
            lemma_prefix_step(code@, i as int);
            lemma_body_size_monotonic(code@, i + 1);
        }
        match code[i] {
            BfIR::AddPtr(n) => {
                push_move(&mut out, true, n, at, overflow);
            },
            BfIR::SubPtr(n) => {
                push_move(&mut out, false, n, at, overflow);
            },
            BfIR::AddVal(n) => {
                push3(&mut out, 0x80, 0x01, n);
            },
            BfIR::SubVal(n) => {
                push3(&mut out, 0x80, 0x29, n);
            },
            BfIR::GetByte => {
                push_call(&mut out, hooks.getbyte, at, exit);
            },
            BfIR::PutByte => {
                push_call(&mut out, hooks.putbyte, at, exit);
            },
            BfIR::Jz => {
                proof {
                    lemma_body_size_monotonic(code@, table[i as int] + 1);
                }
                push_branch(&mut out, 0x84, at, offsets[table[i] + 1]);
            },
            BfIR::Jnz => {
                proof {
                    lemma_body_size_monotonic(code@, table[i as int] + 1);
                }
                push_branch(&mut out, 0x85, at, offsets[table[i] + 1]);
            },
        }
        proof {
            assert(out@ == before + encode(code@, i as int, *hooks));
            assert(body(code@, *hooks, i + 1) == body(code@, *hooks, i as int) + encode(
                code@,
                i as int,
                *hooks,
            ));
            assert(prologue() + body(code@, *hooks, i as int) + encode(code@, i as int, *hooks)
                == prologue() + (body(code@, *hooks, i as int) + encode(code@, i as int, *hooks)));
        }
        i += 1;
    }

    let ghost before = out@;
    push3(&mut out, 0x48, 0x31, 0xC0);
    out.push(0xE9);
    push_le(&mut out, 17, 4);
    push2(&mut out, 0x48, 0xB8);
    push_le(&mut out, hooks.overflow, 8);
    push3(&mut out, 0xFF, 0xD0, 0xE9);
    push_le(&mut out, 0, 4);
    push2(&mut out, 0x5A, 0xC3);
    proof {
        assert(seq![0x48u8, 0x31, 0xC0].push(0xE9) == seq![0x48u8, 0x31, 0xC0, 0xE9]);
        assert(out@ == before + epilogue(*hooks));
    }
    Ok(out)
}

/// Translates instructions into native code in executable memory, and
/// returns the memory with the offset of the function's first byte.
///
/// Fails as `emit` does, on the same inputs. Where `emit` succeeds, the
/// memory either holds `machine_code` from offset 0, or the system refused
/// the memory (`Memory`), or it would not let go of it (`Shared`).
pub fn generate(code: &[BfIR], hooks: &Hooks) -> (result: Result<
    (dynasmrt::ExecutableBuffer, usize),
    GenerationError,
>)
    ensures
        match result {
            Ok((buffer, start)) => {
                &&& well_nested(code@)
                &&& code_size(code@) <= CODE_LIMIT
                &&& start == 0
                &&& buffer_bytes(buffer) == machine_code(code@, *hooks)
            },
            Err(GenerationError::TooLarge) => code_size(code@) > CODE_LIMIT,
            Err(GenerationError::UnbalancedJumps) => code_size(code@) <= CODE_LIMIT && !well_nested(
                code@,
            ),
            Err(_) => well_nested(code@) && code_size(code@) <= CODE_LIMIT,
        },
{
    let bytes = match emit(code, hooks) {
        Ok(bytes) => bytes,
        Err(e) => {
            return Err(e);
        },
    };
    let mut ops = match assembler_new() {
        Ok(ops) => ops,
        Err(e) => {
            return Err(GenerationError::Memory(e));
        },
    };
    let start = assembler_offset(&ops);
    assembler_extend(&mut ops, bytes.as_slice());
    proof {
        assert(Seq::<u8>::empty() + bytes@ == bytes@);
    }
    match assembler_finalize(ops) {
        Ok(buffer) => Ok((buffer, start)),
        Err(_) => Err(GenerationError::Shared),
    }
}

/// `le_bytes` gives as many bytes as it is asked for.
pub proof fn lemma_le_bytes_len(v: int, n: nat)
    ensures
        le_bytes(v, n).len() == n,
    decreases n,
{
    if n > 0 {
        lemma_le_bytes_len(v / 256, (n - 1) as nat);
    }
}

/// The machine code of an instruction has the size that the layout counts
/// on.
pub proof fn lemma_encode_len(code: Seq<BfIR>, i: int, hooks: Hooks)
    requires
        0 <= i < code.len(),
    ensures
        encode(code, i, hooks).len() == size_of(code[i]),
{
    let at = offset_of(code, i);
    lemma_le_bytes_len(code[i].count(), 4);
    lemma_le_bytes_len(overflow_label(code) - (at + 13), 4);
    lemma_le_bytes_len(overflow_label(code) - (at + 22), 4);
    lemma_le_bytes_len(hooks.getbyte as int, 8);
    lemma_le_bytes_len(hooks.putbyte as int, 8);
    lemma_le_bytes_len(exit_label(code) - (at + 30), 4);
    lemma_le_bytes_len(offset_of(code, partner(code, i) + 1) - (at + 9), 4);
}

/// The layout is that of the bytes: the machine code of instruction `n`
/// begins at `offset_of`, and the whole function takes `code_size` bytes.
pub proof fn lemma_machine_code_len(code: Seq<BfIR>, hooks: Hooks, n: int)
    requires
        0 <= n <= code.len(),
    ensures
        (prologue() + body(code, hooks, n)).len() == offset_of(code, n),
        machine_code(code, hooks).len() == code_size(code),
{
    lemma_le_bytes_len(17, 4);
    lemma_le_bytes_len(hooks.overflow as int, 8);
    lemma_le_bytes_len(0, 4);
    assert(epilogue(hooks).len() == EPILOGUE_SIZE);
    lemma_body_len(code, hooks, n);
    lemma_body_len(code, hooks, code.len() as int);
    assert(code.take(code.len() as int) == code);
}

/// The machine code of the first `n` instructions takes `body_size` bytes.
proof fn lemma_body_len(code: Seq<BfIR>, hooks: Hooks, n: int)
    requires
        0 <= n <= code.len(),
    ensures
        body(code, hooks, n).len() == body_size(code.take(n)),
    decreases n,
{
    if n > 0 {
        lemma_body_len(code, hooks, n - 1);
        lemma_encode_len(code, n - 1, hooks);
        lemma_prefix_step(code, n - 1);
    } else {
        assert(code.take(0) == Seq::<BfIR>::empty());
    }
}

} // verus!
