use vstd::prelude::*;

verus! {

/// Every way in which lexing, compiling or running a program can fail.
///
/// All failures are fatal: the first one stops the whole pipeline.
#[derive(Debug, Clone, Copy, PartialEq, Eq, Structural)]
pub enum LuaError {
    // Lexical errors.
    /// A byte that starts no token.
    UnexpectedChar(u8),
    /// A string literal reaches a newline or the end of input before its closing quote.
    UnterminatedString,
    /// A backslash inside a string literal: escape sequences are not supported.
    EscapeUnsupported,
    /// `--[`: long comments are not supported.
    LongCommentUnsupported,
    /// `0x`: hexadecimal literals are not supported.
    HexUnsupported,
    /// `e` or `E` after the digits of a number: exponents are not supported.
    ExponentUnsupported,
    /// A number directly followed by a letter, or with more digits than its
    /// integer type holds.
    MalformedNumber,
    // Syntax errors.
    /// A statement starts with a token that no statement starts with.
    UnexpectedToken,
    /// `local` is not followed by a name.
    ExpectedName,
    /// The name of a `local` declaration is not followed by `=`.
    ExpectedAssign,
    /// The argument of a call is not closed by `)`.
    ExpectedParR,
    /// A call is followed by neither `(` nor a string literal.
    ExpectedArgument,
    /// An expression is none of the supported forms (a literal or a variable).
    InvalidExpression,
    /// The constant pool would need more than 256 entries.
    TooManyConstants,
    /// A register beyond 255 would be needed.
    TooManyRegisters,
    // Runtime errors.
    /// A global is named by a constant that is not a string.
    NotAString,
    /// The called value is not a function.
    InvalidFunction,
    /// A write to a register past the end of the register stack.
    StackOverflow,
    /// A read of a register that holds no value yet.
    InvalidRegister,
    /// An instruction names a constant that the pool does not hold.
    InvalidConstant,
}

} // verus!
