//! The executable memory that holds generated code, and the assembler that
//! fills it. Both belong to `dynasmrt`; this module states what the code
//! generator relies on.

use vstd::prelude::*;

verus! {

/// A region of executable memory.
#[verifier::external_type_specification]
#[verifier::external_body]
pub struct ExExecutableBuffer(dynasmrt::ExecutableBuffer);

/// An assembler of `dynasmrt` for the 64-bit target: it collects bytes and
/// commits them to executable memory. Its type is generic over a trait of
/// that crate, so it is held here as a whole.
#[verifier::external_body]
pub struct Assembler {
    ops: dynasmrt::x64::Assembler,
}

/// The bytes that an assembler has been given so far, in order.
pub uninterp spec fn assembled(ops: Assembler) -> Seq<u8>;

/// The number of label definitions and relocations that an assembler has
/// recorded and not yet resolved.
pub uninterp spec fn pending(ops: Assembler) -> nat;

/// The bytes that an executable buffer holds.
pub uninterp spec fn buffer_bytes(buffer: dynasmrt::ExecutableBuffer) -> Seq<u8>;

/// Makes an assembler with nothing in it.
///
/// Trusted: `Assembler::new` maps one page of executable memory and starts
/// with no bytes, labels or relocations; it fails with the error of the
/// mapping.
#[verifier::external_body]
pub(crate) fn assembler_new() -> (result: Result<Assembler, std::io::Error>)
    ensures
        result matches Ok(ops) ==> assembled(ops) == Seq::<u8>::empty() && pending(ops) == 0,
{
    match dynasmrt::x64::Assembler::new() {
        Ok(ops) => Ok(Assembler { ops }),
        Err(e) => Err(e),
    }
}

/// The offset at which the next byte will stand.
///
/// Trusted: `DynasmApi::offset` of an `Assembler` is the number of bytes
/// committed plus the number waiting, that is, all it has been given.
#[verifier::external_body]
pub(crate) fn assembler_offset(ops: &Assembler) -> (offset: usize)
    ensures
        offset == assembled(*ops).len(),
{
    dynasmrt::DynasmApi::offset(&ops.ops).0
}

/// Appends `bytes` to what the assembler holds.
///
/// Trusted: `Extend::extend` of an `Assembler` appends to its byte vector
/// and touches neither labels nor relocations.
#[verifier::external_body]
pub(crate) fn assembler_extend(ops: &mut Assembler, bytes: &[u8])
    ensures
        assembled(*final(ops)) == assembled(*old(ops)) + bytes@,
        pending(*final(ops)) == pending(*old(ops)),
{
    ops.ops.extend(bytes);
}

/// Commits every byte to executable memory and hands the memory out.
///
/// Trusted: with nothing to resolve, `Assembler::finalize` copies the
/// waiting bytes behind the committed ones, unchanged, and returns the
/// buffer unless a reader still shares it, in which case it returns the
/// assembler. (With unresolved labels it panics, hence the `requires`; it
/// also panics if the system refuses the memory to grow into.)
#[verifier::external_body]
pub(crate) fn assembler_finalize(ops: Assembler) -> (result: Result<
    dynasmrt::ExecutableBuffer,
    Assembler,
>)
    requires
        pending(ops) == 0,
    ensures
        result matches Ok(buffer) ==> buffer_bytes(buffer) == assembled(ops),
{
    match ops.ops.finalize() {
        Ok(buffer) => Ok(buffer),
        Err(ops) => Err(Assembler { ops }),
    }
}

} // verus!
