//! Error types for pattern compilation, registration and queries.

use vstd::prelude::*;

verus! {

/// An error raised while compiling a pattern string.
#[derive(Debug, Clone, Copy, PartialEq, Eq, Structural)]
pub enum TokenizerError {
    /// A character inside a bracket group is not a digit.
    InvalidDigit(char),
    /// A bracket group is opened but never closed.
    MissingClosingBracket,
    /// A character outside a bracket group is neither a digit nor `[`;
    /// this includes a bare `*` or `+` with no preceding group.
    UnexpectedChar(char),
    /// A bracket group holds no digits at all.
    UnexpectedEmptyRange,
}

/// An error raised while walking a digit string: some character is not a
/// digit.
#[derive(Debug, Clone, Copy, PartialEq, Eq, Structural)]
pub enum MapError {
    /// The character at the point the walk had reached is not a digit.
    InvalidDigit(char),
}

/// An error raised while registering a pattern with a value.
#[derive(Debug, Clone, Copy, PartialEq, Eq, Structural)]
pub enum RegisterError {
    /// The pattern itself does not compile.
    Pattern(TokenizerError),
    /// Some expansion of the pattern ends in an automaton state that
    /// already stores a different value.
    PathAlreadyExists,
}

} // verus!
