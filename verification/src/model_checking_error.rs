//! What can go wrong while a model is checked against a formula.

use crate::parsing::parsing_error::{message_of, ErrorKind, ParsingError};
use vstd::prelude::*;

verus! {

/// The reasons for which a check cannot be carried out.
#[derive(Debug, PartialEq)]
pub enum ModelCheckingErrorKind {
    /// No state of the Kripke structure is a start state.
    ModelNoStart,
    /// A transition of the Kripke structure names a state that was never added.
    ModelInvalid,
    /// The formula names no atomic proposition.
    FormulaNoAPs,
    /// The formula is malformed.
    FormulaSytaxError(ParsingError),
    /// The formula needs more bits than a state has: one for each atomic
    /// proposition and one for each distinct next or until subformula.
    FormulaTooLarge,
}

/// The text of the message for each reason.
pub open spec fn reason_of(kind: ModelCheckingErrorKind) -> Seq<char> {
    match kind {
        ModelCheckingErrorKind::ModelNoStart => "Model has no start"@,
        ModelCheckingErrorKind::ModelInvalid => "Model is invalid"@,
        ModelCheckingErrorKind::FormulaNoAPs => "Formula must contain an atomic proposition"@,
        ModelCheckingErrorKind::FormulaSytaxError(parse) => message_of(parse.spec_kind()),
        ModelCheckingErrorKind::FormulaTooLarge => "Formula is too large"@,
    }
}

/// A check that could not be carried out.
#[derive(Debug, PartialEq)]
pub struct ModelCheckingError {
    kind: ModelCheckingErrorKind,
}

impl ModelCheckingError {
    /// The reason.
    pub closed spec fn spec_kind(&self) -> ModelCheckingErrorKind {
        self.kind
    }

    /// Whether this error says that the formula is malformed in the way
    /// `kind` at the byte offset `at`. That the formula names no atomic
    /// proposition is a reason of its own.
    pub open spec fn reports(&self, kind: ErrorKind, at: nat) -> bool {
        if kind == ErrorKind::NoAPs {
            self.spec_kind() == ModelCheckingErrorKind::FormulaNoAPs
        } else {
            self.spec_kind() matches ModelCheckingErrorKind::FormulaSytaxError(parse) && parse.spec_kind() == kind
                && parse.spec_at() == at
        }
    }

    pub fn new(kind: ModelCheckingErrorKind) -> (r: ModelCheckingError)
        ensures
            r.spec_kind() == kind,
    {
        ModelCheckingError { kind }
    }

    pub fn kind(&self) -> (r: &ModelCheckingErrorKind)
        ensures
            *r == self.spec_kind(),
    {
        &self.kind
    }

    /// The message that describes this error.
    pub fn message(&self) -> (r: String)
        ensures
            r@ == reason_of(self.spec_kind()),
    {
        match &self.kind {
            ModelCheckingErrorKind::ModelNoStart => "Model has no start".to_owned(),
            ModelCheckingErrorKind::ModelInvalid => "Model is invalid".to_owned(),
            ModelCheckingErrorKind::FormulaNoAPs => "Formula must contain an atomic proposition".to_owned(),
            ModelCheckingErrorKind::FormulaSytaxError(parse) => parse.message(),
            ModelCheckingErrorKind::FormulaTooLarge => "Formula is too large".to_owned(),
        }
    }
}

} // verus!
