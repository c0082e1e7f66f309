//! How a parse fails.

use vstd::prelude::*;

verus! {

/// The kinds of failure.
#[derive(Debug, Clone, Copy, PartialEq, Eq)]
pub enum ParseErrorKind {
    /// A block was asked for where the input has ended.
    UnexpectedEndOfInput,
    /// A `$`, a backtick or a `[` was opened and its closing character does
    /// not follow within the same span.
    UnterminatedDelimiter,
    /// The rule that was asked for does not match at the cursor.
    NoAlternativeMatched,
}

/// A failure: its kind and the position, counted in characters from the
/// start of the input that was handed in, at which it occurred.
#[derive(Debug, Clone, Copy, PartialEq, Eq)]
pub struct ParseError {
    pub kind: ParseErrorKind,
    pub position: usize,
}

/// The mathematical value of a [`ParseError`].
pub ghost struct ParseErrorModel {
    pub kind: ParseErrorKind,
    pub position: int,
}

impl View for ParseError {
    type V = ParseErrorModel;

    open spec fn view(&self) -> ParseErrorModel {
        ParseErrorModel { kind: self.kind, position: self.position as int }
    }
}

impl ParseErrorModel {
    /// The same failure seen from `by` characters further left.
    pub open spec fn shifted(self, by: int) -> ParseErrorModel {
        ParseErrorModel { kind: self.kind, position: self.position + by }
    }
}

/// An opened delimiter at `position` that is never closed.
pub open spec fn unterminated(position: int) -> ParseErrorModel {
    ParseErrorModel { kind: ParseErrorKind::UnterminatedDelimiter, position }
}

/// A rule that does not match at `position`.
pub open spec fn no_match(position: int) -> ParseErrorModel {
    ParseErrorModel { kind: ParseErrorKind::NoAlternativeMatched, position }
}

/// The end of the input at `position`, where a block was asked for.
pub open spec fn end_of_input(position: int) -> ParseErrorModel {
    ParseErrorModel { kind: ParseErrorKind::UnexpectedEndOfInput, position }
}

impl ParseError {
    /// The same failure seen from `by` characters further left.
    pub fn shifted(self, by: usize) -> (e: ParseError)
        requires
            self.position + by <= usize::MAX,
        ensures
            e@ == self@.shifted(by as int),
    {
        ParseError { kind: self.kind, position: self.position + by }
    }
}

} // verus!
