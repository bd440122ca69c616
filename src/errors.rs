use vstd::prelude::*;

verus! {

/// Errors raised while decoding a token stream into a program.
#[derive(Debug, Clone, Copy, PartialEq, Eq, Structural)]
pub enum AwawaLoadError {
    /// A token other than `awa` or `wa` was found.
    AwawaParseError,
    /// The stream does not start with a 0 bit.
    MissingInitialAwaError,
    /// The stream ended inside an opcode or an operand.
    MalformedAwatismError,
    /// The opcode does not name an instruction.
    UnknownAwatismError(u8),
}

/// Errors raised while assembling a listing or executing a program.
#[derive(Debug, Clone)]
pub enum AwawaError {
    BubbleAbyssEmpty,
    BubbleAbyssOutOfBounds,
    InvalidAwasciiCodeError(i32),
    InvalidAwasciiCharError(char),
    ReadLineError,
    NotANumberError(String),
    UnknownAwatismError(String),
    MissingArgumentError,
    InvalidArgumentError,
    InvalidLabelError(u8),
    /// Raised by `trm` and by running past the last instruction; a clean exit.
    EndOfProgramError(),
    /// A division or remainder reached a zero divisor.
    DivisionByZeroError,
}

pub type AwawaResult = Result<(), AwawaError>;

pub type AwawaLoadResult = Result<(), AwawaLoadError>;

} // verus!
