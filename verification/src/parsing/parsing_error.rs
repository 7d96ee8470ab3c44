//! What can go wrong while a formula is read.

use vstd::prelude::*;

verus! {

/// The ways in which a formula can be malformed.
#[derive(Debug, Clone, Copy, PartialEq, Eq, Structural)]
pub enum ErrorKind {
    /// A character that belongs to no token.
    UnexpectedToken,
    /// An operand is missing, or two operands stand side by side.
    ShittySyntax,
    /// A `(` that is never closed.
    UnmatchedOpenParenthesis,
    /// A `)` that closes nothing.
    UnmatchedCloseParenthesis,
    /// A `(` directly followed by `)`.
    EmptyParenthesis,
    /// The formula names no atomic proposition.
    NoAPs,
    /// The formula names more atomic propositions than a symbol has bits.
    TooManyAPs,
}

/// The text of the message for each kind of error.
pub open spec fn message_of(kind: ErrorKind) -> Seq<char> {
    match kind {
        ErrorKind::UnexpectedToken => "Unexpected token"@,
        ErrorKind::ShittySyntax => "Syntax error"@,
        ErrorKind::UnmatchedOpenParenthesis => "Unmatched open parenthesis"@,
        ErrorKind::UnmatchedCloseParenthesis => "Unmatched close parenthesis"@,
        ErrorKind::EmptyParenthesis => "Empty parenthesis"@,
        ErrorKind::NoAPs => "No atomic propositions"@,
        ErrorKind::TooManyAPs => "Too many atomic propositions"@,
    }
}

/// A malformed formula: what is wrong, in which text, and at which byte.
#[derive(Debug, PartialEq)]
pub struct ParsingError {
    kind: ErrorKind,
    formula: String,
    at: usize,
}

impl ParsingError {
    /// What is wrong.
    pub closed spec fn spec_kind(&self) -> ErrorKind {
        self.kind
    }

    /// The text that was read.
    pub closed spec fn spec_formula(&self) -> Seq<char> {
        self.formula@
    }

    /// The byte offset at which reading stopped, 0 where none is known.
    pub closed spec fn spec_at(&self) -> nat {
        self.at as nat
    }

    /// An error of the given kind in `str`; a missing offset counts as 0.
    pub fn new(kind: ErrorKind, str: &str, at: Option<usize>) -> (r: ParsingError)
        ensures
            r.spec_kind() == kind,
            r.spec_formula() == str@,
            r.spec_at() == (match at {
                Some(offset) => offset as nat,
                None => 0,
            }),
    {
        ParsingError {
            kind,
            formula: str.to_owned(),
            at: match at {
                Some(offset) => offset,
                None => 0,
            },
        }
    }

    pub fn kind(&self) -> (r: &ErrorKind)
        ensures
            *r == self.spec_kind(),
    {
        &self.kind
    }

    /// The byte offset at which reading stopped, 0 where none is known.
    pub fn at(&self) -> (r: usize)
        ensures
            r == self.spec_at(),
    {
        self.at
    }

    /// The message that describes this error.
    pub fn message(&self) -> (r: String)
        ensures
            r@ == message_of(self.spec_kind()),
    {
        let text = match self.kind {
            ErrorKind::UnexpectedToken => "Unexpected token",
            ErrorKind::ShittySyntax => "Syntax error",
            ErrorKind::UnmatchedOpenParenthesis => "Unmatched open parenthesis",
            ErrorKind::UnmatchedCloseParenthesis => "Unmatched close parenthesis",
            ErrorKind::EmptyParenthesis => "Empty parenthesis",
            ErrorKind::NoAPs => "No atomic propositions",
            ErrorKind::TooManyAPs => "Too many atomic propositions",
        };
        text.to_owned()
    }
}

} // verus!
