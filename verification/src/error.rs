//! The ways in which parsing fails.

use vstd::prelude::*;

verus! {

/// Why a text is not a document. Positions are character offsets from the
/// start of the input.
#[derive(Debug, Clone, Copy, PartialEq, Eq)]
pub enum ParseError {
    /// A structural character was required at `position`, and `found` stood
    /// there instead (`None` at the end of the input).
    UnexpectedCharacter { expected: char, found: Option<char>, position: usize },
    /// The string that opens at `position` is never closed.
    UnterminatedString { position: usize },
    /// The number that starts at `position` has no digits.
    InvalidNumber { position: usize },
    /// The number that starts at `position` does not fit in 64 bits.
    NumberOutOfRange { position: usize },
    /// No value starts at `position`.
    InvalidLiteral { position: usize },
    /// An object key was required at `position`, and something other than a
    /// string starts there.
    InvalidKey { position: usize },
    /// A complete value is followed by more text, starting at `position`.
    TrailingData { position: usize },
    /// The input holds nothing but whitespace.
    EmptyInput,
}

} // verus!
