//! The errors of the parsers.

use vstd::prelude::*;

verus! {

/// What a parser found wrong.
#[derive(Clone, Copy, Debug, PartialEq, Eq, Structural)]
pub enum ParseErrorKind {
    /// The text ends where more is needed.
    UnexpectedEnd,
    /// The character at the position is not one that may stand there.
    UnexpectedCharacter,
    /// A closing tag does not name the element that it closes.
    MismatchedClosingTag,
    /// A number has more than one decimal point.
    MalformedNumber,
    /// A number is too large for a length.
    NumberTooLarge,
    /// A length has a unit other than `px`.
    UnknownUnit,
    /// A colour is not `#` and six hexadecimal digits.
    MalformedColor,
}

/// An error of a parser: what is wrong, and at which character of the text,
/// counted from zero.
#[derive(Clone, Copy, Debug, PartialEq, Eq, Structural)]
pub struct ParseError {
    pub position: usize,
    pub kind: ParseErrorKind,
}

/// The error of kind `kind` at the place `position`.
pub open spec fn error_at(position: int, kind: ParseErrorKind) -> ParseError {
    ParseError { position: position as usize, kind: kind }
}

} // verus!
