//! A just-in-time compiler for a pointer-and-tape language of eight
//! operations, with the leaves of a scripting-language toolchain beside it:
//! source locations and call frames.
//!
//! Every function carries a contract. Verus proves them all but the few
//! marked as trusted, which state what the crate relies on of `dynasmrt`
//! and of the standard library.

pub mod bf;
pub mod lex;
pub mod text;
pub mod vm;
