//! The tape language: intermediate representation, compiler, peephole
//! optimizer, abstract machine and native code generator.

pub mod assembler;
pub mod codegen;
pub mod compile;
pub mod error;
pub mod ir;
pub mod loops;
pub mod machine;
pub mod peephole;
pub mod transparency;
pub mod vm;
