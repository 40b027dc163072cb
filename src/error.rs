//! The parse failure shared by both analyzers.
use vstd::prelude::*;

verus! {

/// What went wrong while reading the input.
#[derive(Clone, Copy, Debug, PartialEq, Eq, Structural)]
pub enum ParseErrorKind {
    /// A calibration line holds no digit token.
    NoDigit,
    /// A game line does not start with `Game <id>`.
    GameId,
    /// A game line has no colon, so no draws.
    NoRolls,
    /// A draw holds a chunk that is not `<count> <color>`.
    Roll,
}

/// A parse failure, with the text (line or chunk) that caused it.
#[derive(Debug)]
pub struct ParseError {
    pub kind: ParseErrorKind,
    pub text: String,
}

impl View for ParseError {
    type V = (ParseErrorKind, Seq<char>);

    open spec fn view(&self) -> (ParseErrorKind, Seq<char>) {
        (self.kind, self.text@)
    }
}

} // verus!
