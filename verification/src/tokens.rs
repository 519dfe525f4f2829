//! The token data model: semantic units produced by the recognizers,
//! priorities used to order tokens for semantic derivation, and the
//! error taxonomy of the recognition layer.

use vstd::prelude::*;

verus! {

/// A day of the week.
#[derive(Debug, Clone, Copy, PartialEq, Eq, Structural)]
pub enum Weekday {
    Monday,
    Tuesday,
    Wednesday,
    Thursday,
    Friday,
    Saturday,
    Sunday,
}

/// A temporal marker such as a meridiem or a relative-day word.
#[derive(Debug, Clone, Copy, PartialEq, Eq, Structural)]
pub enum When {
    This,
    Last,
    Past,
    Next,
    Now,
    Today,
    Tonight,
    Tomorrow,
    Yesterday,
    AM,
    PM,
}

/// One recognized semantic unit extracted from text.
#[derive(Debug, Clone, Copy, PartialEq, Eq, Structural)]
pub enum Token {
    Week,
    Weekday(Weekday),
    When(When),
    Hour(usize),
}

/// A token together with a priority; tokens with smaller priority values
/// sort first when a rule interpreter orders the tokens that feed its
/// semantic derivation step. `Absent` marks absence, `Stub` a placeholder
/// that matches but carries no semantic payload.
#[derive(Debug, Clone, Copy, PartialEq, Eq, Structural)]
pub enum PToken {
    Absent,
    Stub,
    PToken(Token, isize),
}

/// The result of one successful recognizer attempt: the token produced,
/// the edit distance at which it matched (0 means exact), and the
/// position in the input just past the consumed text.
#[derive(Debug, Clone, Copy, PartialEq, Eq, Structural)]
pub struct TokenMatch {
    pub token: PToken,
    pub dist: usize,
    pub end: usize,
}

/// Why a recognizer attempt failed.
#[derive(Debug, Clone, Copy, PartialEq, Eq, Structural)]
pub enum ErrorKind {
    /// Nothing was recognized at all.
    Unknown,
    /// A numeric value was recognized but lies outside the accepted range.
    OutOfBounds,
    /// The tokenizer produced no characters.
    Empty,
    /// Two or more alternatives tied for the best edit distance.
    Ambiguous,
}

} // verus!
