//! The errors of compilation and of a run, and the one type that unifies
//! them for a caller.

use vstd::prelude::*;
use vstd::std_specs::convert::FromSpecImpl;
use vstd::string::StringExecFns;

use crate::text::decimal;
use crate::text::push_decimal;

verus! {

/// An I/O failure of the host, carried through unchanged.
#[verifier::external_type_specification]
#[verifier::external_body]
pub struct ExIoError(std::io::Error);

/// What is wrong with the brackets of a source text.
#[derive(Debug, Clone, Copy, PartialEq, Eq, Structural)]
pub enum CompileErrorKind {
    /// A `[` that no `]` closes.
    UnclosedLeftBracket,
    /// A `]` that closes nothing.
    UnexpectedRightBracket,
}

/// A syntax error and the place in the source where it was found.
/// Lines and columns count from 1.
#[derive(Debug, Clone, Copy, PartialEq, Eq, Structural)]
pub struct CompileError {
    pub line: u32,
    pub col: u32,
    pub kind: CompileErrorKind,
}

/// Why a run of a program stopped early.
#[derive(Debug)]
pub enum RuntimeError {
    /// Reading input or writing output failed.
    IO(std::io::Error),
    /// The data pointer left the tape.
    PointerOverflow,
}

/// Why no native code came out of the code generator.
#[derive(Debug)]
pub enum GenerationError {
    /// The jumps of the code do not pair up.
    UnbalancedJumps,
    /// The code is too long for a jump to cross it in 32 bits.
    TooLarge,
    /// The system refused the executable memory.
    Memory(std::io::Error),
    /// The executable memory is still shared and cannot be handed out.
    Shared,
}

/// Any failure between reading a source text and the end of its run.
#[derive(Debug)]
pub enum VMError {
    /// The source could not be read.
    IO(std::io::Error),
    /// The source is not a program.
    Compile(CompileError),
    /// No native code could be made of the program.
    Generate(GenerationError),
    /// The program stopped with an error.
    Runtime(RuntimeError),
}

impl From<std::io::Error> for RuntimeError {
    fn from(e: std::io::Error) -> (r: RuntimeError) {
        RuntimeError::IO(e)
    }
}

impl FromSpecImpl<std::io::Error> for RuntimeError {
    open spec fn obeys_from_spec() -> bool {
        true
    }

    open spec fn from_spec(e: std::io::Error) -> RuntimeError {
        RuntimeError::IO(e)
    }
}

impl From<std::io::Error> for VMError {
    fn from(e: std::io::Error) -> (r: VMError) {
        VMError::IO(e)
    }
}

impl FromSpecImpl<std::io::Error> for VMError {
    open spec fn obeys_from_spec() -> bool {
        true
    }

    open spec fn from_spec(e: std::io::Error) -> VMError {
        VMError::IO(e)
    }
}

impl From<CompileError> for VMError {
    fn from(e: CompileError) -> (r: VMError) {
        VMError::Compile(e)
    }
}

impl FromSpecImpl<CompileError> for VMError {
    open spec fn obeys_from_spec() -> bool {
        true
    }

    open spec fn from_spec(e: CompileError) -> VMError {
        VMError::Compile(e)
    }
}

impl From<RuntimeError> for VMError {
    fn from(e: RuntimeError) -> (r: VMError) {
        VMError::Runtime(e)
    }
}

impl FromSpecImpl<RuntimeError> for VMError {
    open spec fn obeys_from_spec() -> bool {
        true
    }

    open spec fn from_spec(e: RuntimeError) -> VMError {
        VMError::Runtime(e)
    }
}

impl From<GenerationError> for VMError {
    fn from(e: GenerationError) -> (r: VMError) {
        VMError::Generate(e)
    }
}

impl FromSpecImpl<GenerationError> for VMError {
    open spec fn obeys_from_spec() -> bool {
        true
    }

    open spec fn from_spec(e: GenerationError) -> VMError {
        VMError::Generate(e)
    }
}

/// The text of an I/O failure.
///
/// Trusted: `ToString::to_string` of `std::io::Error` gives the
/// description that the error holds or that the system has for its code;
/// nothing is stated of it.
#[verifier::external_body]
fn io_error_text(e: &std::io::Error) -> (text: String) {
    e.to_string()
}

impl CompileErrorKind {
    /// What `message` says of each kind.
    pub open spec fn text(self) -> Seq<char> {
        match self {
            CompileErrorKind::UnclosedLeftBracket => "Unclosed left bracket"@,
            CompileErrorKind::UnexpectedRightBracket => "Unexpected right bracket"@,
        }
    }

    /// The kind in words.
    pub fn message(&self) -> (text: String)
        ensures
            text@ == self.text(),
    {
        match self {
            CompileErrorKind::UnclosedLeftBracket => String::from_str("Unclosed left bracket"),
            CompileErrorKind::UnexpectedRightBracket => String::from_str(
                "Unexpected right bracket",
            ),
        }
    }
}

impl CompileError {
    /// What `message` says: the kind, then the line and the column.
    pub open spec fn text(self) -> Seq<char> {
        self.kind.text() + " at line "@ + decimal(self.line as nat) + ":"@ + decimal(
            self.col as nat,
        )
    }

    /// The error in words, as in `Unclosed left bracket at line 3:14`.
    pub fn message(&self) -> (text: String)
        ensures
            text@ == self.text(),
    {
        let mut text = self.kind.message();
        text.append(" at line ");
        push_decimal(&mut text, self.line);
        text.append(":");
        push_decimal(&mut text, self.col);
        text
    }
}

impl RuntimeError {
    /// The error in words: `Pointer overflow`, or `IO: ` and the text of
    /// the failure.
    pub fn message(&self) -> (text: String)
        ensures
            match self {
                RuntimeError::PointerOverflow => text@ == "Pointer overflow"@,
                RuntimeError::IO(_) => text@.len() >= "IO: "@.len() && text@.take(
                    "IO: "@.len() as int,
                ) == "IO: "@,
            },
    {
        match self {
            RuntimeError::PointerOverflow => String::from_str("Pointer overflow"),
            RuntimeError::IO(e) => {
                let mut text = String::from_str("IO: ");
                let cause = io_error_text(e);
                text.append(cause.as_str());
                proof {
                    assert((("IO: "@) + cause@).take("IO: "@.len() as int) == "IO: "@);
                }
                text
            },
        }
    }
}

impl GenerationError {
    /// The error in words.
    pub fn message(&self) -> (text: String)
        ensures
            match self {
                GenerationError::UnbalancedJumps => text@ == "Unbalanced jumps"@,
                GenerationError::TooLarge => text@ == "Program too large"@,
                GenerationError::Shared => text@ == "Executable memory is shared"@,
                GenerationError::Memory(_) => text@.len() >= "Memory: "@.len() && text@.take(
                    "Memory: "@.len() as int,
                ) == "Memory: "@,
            },
    {
        match self {
            GenerationError::UnbalancedJumps => String::from_str("Unbalanced jumps"),
            GenerationError::TooLarge => String::from_str("Program too large"),
            GenerationError::Shared => String::from_str("Executable memory is shared"),
            GenerationError::Memory(e) => {
                let mut text = String::from_str("Memory: ");
                let cause = io_error_text(e);
                text.append(cause.as_str());
                proof {
                    assert((("Memory: "@) + cause@).take("Memory: "@.len() as int) == "Memory: "@);
                }
                text
            },
        }
    }
}

impl VMError {
    /// The error in words: what failed, then the words of the failure.
    pub fn message(&self) -> (text: String)
        ensures
            match self {
                VMError::Compile(e) => text@ == "Compile: "@ + e.text(),
                VMError::Runtime(RuntimeError::PointerOverflow) => text@ == "Runtime: "@
                    + "Pointer overflow"@,
                VMError::Runtime(_) => text@.len() >= "Runtime: "@.len() && text@.take(
                    "Runtime: "@.len() as int,
                ) == "Runtime: "@,
                VMError::Generate(_) => text@.len() >= "Generate: "@.len() && text@.take(
                    "Generate: "@.len() as int,
                ) == "Generate: "@,
                VMError::IO(_) => text@.len() >= "IO: "@.len() && text@.take("IO: "@.len() as int)
                    == "IO: "@,
            },
    {
        match self {
            VMError::Compile(e) => {
                let mut text = String::from_str("Compile: ");
                let cause = e.message();
                text.append(cause.as_str());
                text
            },
            VMError::Runtime(e) => {
                let mut text = String::from_str("Runtime: ");
                let cause = e.message();
                text.append(cause.as_str());
                proof {
                    assert((("Runtime: "@) + cause@).take("Runtime: "@.len() as int)
                        == "Runtime: "@);
                }
                text
            },
            VMError::Generate(e) => {
                let mut text = String::from_str("Generate: ");
                let cause = e.message();
                text.append(cause.as_str());
                proof {
                    assert((("Generate: "@) + cause@).take("Generate: "@.len() as int)
                        == "Generate: "@);
                }
                text
            },
            VMError::IO(e) => {
                let mut text = String::from_str("IO: ");
                let cause = io_error_text(e);
                text.append(cause.as_str());
                proof {
                    assert((("IO: "@) + cause@).take("IO: "@.len() as int) == "IO: "@);
                }
                text
            },
        }
    }
}

} // verus!
