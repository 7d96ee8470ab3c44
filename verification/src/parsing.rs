//! Formulas of linear temporal logic and how they are read from text.

pub mod lexer;
pub mod parser;
pub mod parsing_error;
pub mod printer;

use crate::model_checking_error::{ModelCheckingError, ModelCheckingErrorKind};
use crate::parsing::lexer::{lex, lexer, ApMap};
use crate::parsing::parser::{desugar, parse_tokens, parser};
use crate::parsing::parsing_error::ErrorKind;
use vstd::prelude::*;
use vstd::string::StringSliceAdditionalSpecFns;

verus! {

/// A formula over the core operators. Every other operator is written with these.
#[derive(Debug, PartialEq, Eq, Hash)]
pub enum LTLFormula {
    /// The atomic proposition with this identifier holds now.
    AP(u8),
    Not(Box<LTLFormula>),
    And(Box<LTLFormula>, Box<LTLFormula>),
    /// The operand holds at the next step.
    Next(Box<LTLFormula>),
    /// The second operand holds at some step, and the first at every step before it.
    Until(Box<LTLFormula>, Box<LTLFormula>),
}

/// `true`, written over the first atomic proposition.
pub open spec fn truth() -> LTLFormula {
    LTLFormula::Not(Box::new(falsity()))
}

/// `false`, written over the first atomic proposition.
pub open spec fn falsity() -> LTLFormula {
    LTLFormula::And(Box::new(LTLFormula::AP(0)), Box::new(LTLFormula::Not(Box::new(LTLFormula::AP(0)))))
}

/// `phi1` or `phi2`.
pub open spec fn either(phi1: LTLFormula, phi2: LTLFormula) -> LTLFormula {
    LTLFormula::Not(
        Box::new(
            LTLFormula::And(
                Box::new(LTLFormula::Not(Box::new(phi1))),
                Box::new(LTLFormula::Not(Box::new(phi2))),
            ),
        ),
    )
}

/// `phi` holds at every step.
pub open spec fn always(phi: LTLFormula) -> LTLFormula {
    LTLFormula::Not(
        Box::new(LTLFormula::Until(Box::new(truth()), Box::new(LTLFormula::Not(Box::new(phi))))),
    )
}

/// `phi1` until `phi2`, where `phi2` need never hold if `phi1` holds at every step.
pub open spec fn weak_until(phi1: LTLFormula, phi2: LTLFormula) -> LTLFormula {
    either(LTLFormula::Until(Box::new(phi1), Box::new(phi2)), always(phi1))
}

impl LTLFormula {
    pub fn ap(ap: u8) -> (r: Self)
        ensures
            r == LTLFormula::AP(ap),
    {
        Self::AP(ap)
    }

    #[allow(clippy::should_implement_trait)]
    pub fn not(phi: LTLFormula) -> (r: Self)
        ensures
            r == LTLFormula::Not(Box::new(phi)),
    {
        Self::Not(Box::new(phi))
    }

    pub fn and(phi1: LTLFormula, phi2: LTLFormula) -> (r: Self)
        ensures
            r == LTLFormula::And(Box::new(phi1), Box::new(phi2)),
    {
        Self::And(Box::new(phi1), Box::new(phi2))
    }

    pub fn next(phi: LTLFormula) -> (r: Self)
        ensures
            r == LTLFormula::Next(Box::new(phi)),
    {
        Self::Next(Box::new(phi))
    }

    /// `phi1` until `phi2`; the weak form is written with the strong one.
    pub fn until(phi1: LTLFormula, phi2: LTLFormula, weak: bool) -> (r: Self)
        ensures
            r == if weak {
                weak_until(phi1, phi2)
            } else {
                LTLFormula::Until(Box::new(phi1), Box::new(phi2))
            },
    {
        if weak {
            let again = phi1.duplicate();
            let strong = Self::Until(Box::new(phi1), Box::new(phi2));
            let forever = Self::not(Self::Until(Box::new(Self::truth()), Box::new(Self::not(again))));
            Self::not(Self::and(Self::not(strong), Self::not(forever)))
        } else {
            Self::Until(Box::new(phi1), Box::new(phi2))
        }
    }

    /// `true`, written over the first atomic proposition.
    pub fn truth() -> (r: Self)
        ensures
            r == truth(),
    {
        Self::not(Self::falsity())
    }

    /// `false`, written over the first atomic proposition.
    pub fn falsity() -> (r: Self)
        ensures
            r == falsity(),
    {
        Self::and(Self::ap(0), Self::not(Self::ap(0)))
    }

    /// A copy of this formula.
    pub fn duplicate(&self) -> (r: Self)
        ensures
            r == *self,
        decreases *self,
    {
        match self {
            LTLFormula::AP(id) => LTLFormula::AP(*id),
            LTLFormula::Not(phi) => LTLFormula::Not(Box::new(phi.duplicate())),
            LTLFormula::And(phi1, phi2) => LTLFormula::And(
                Box::new(phi1.duplicate()),
                Box::new(phi2.duplicate()),
            ),
            LTLFormula::Next(phi) => LTLFormula::Next(Box::new(phi.duplicate())),
            LTLFormula::Until(phi1, phi2) => LTLFormula::Until(
                Box::new(phi1.duplicate()),
                Box::new(phi2.duplicate()),
            ),
        }
    }

    /// Whether the two formulas are the same tree.
    pub fn same(&self, other: &LTLFormula) -> (r: bool)
        ensures
            r == (*self == *other),
        decreases *self,
    {
        match (self, other) {
            (LTLFormula::AP(a), LTLFormula::AP(b)) => *a == *b,
            (LTLFormula::Not(a), LTLFormula::Not(b)) => a.same(b),
            (LTLFormula::And(a1, a2), LTLFormula::And(b1, b2)) => a1.same(b1) && a2.same(b2),
            (LTLFormula::Next(a), LTLFormula::Next(b)) => a.same(b),
            (LTLFormula::Until(a1, a2), LTLFormula::Until(b1, b2)) => a1.same(b1) && a2.same(b2),
            _ => false,
        }
    }
}

/// What reading a text gives: the formula over the core operators and the
/// names of its atomic propositions in the order of their identifiers, or
/// the kind of error and the byte offset at which it stands. An error in
/// the order of the tokens has the offset 0.
pub open spec fn parse_text(s: Seq<u8>) -> Result<(LTLFormula, Seq<Seq<u8>>), (ErrorKind, nat)> {
    match lex(s) {
        Ok((tokens, names)) => match parse_tokens(tokens) {
            Ok(tree) => Ok((desugar(tree), names)),
            Err(kind) => Err((kind, 0)),
        },
        Err(e) => Err(e),
    }
}

/// Reads a formula from its text.
pub fn parse(text: &str) -> (r: Result<(LTLFormula, ApMap), ModelCheckingError>)
    ensures
        match parse_text(text.spec_bytes()) {
            Ok((phi, names)) => r matches Ok((formula, ap_map)) && formula == phi && ap_map@ == names,
            Err((kind, at)) => r matches Err(e) && e.reports(kind, at),
        },
{
    let (tokens, ap_map) = match lexer(text) {
        Ok(read) => read,
        Err(err) => {
            return Err(
                match err.kind() {
                    ErrorKind::NoAPs => ModelCheckingError::new(ModelCheckingErrorKind::FormulaNoAPs),
                    _ => ModelCheckingError::new(ModelCheckingErrorKind::FormulaSytaxError(err)),
                },
            );
        },
    };
    match parser(tokens) {
        Ok(ast) => Ok((ast, ap_map)),
        Err(err) => {
            proof {
                lemma_parser_errors(tokens@);
            }
            Err(ModelCheckingError::new(ModelCheckingErrorKind::FormulaSytaxError(err)))
        },
    }
}

/// The order of the tokens is never at fault for a lack of atomic propositions.
pub proof fn lemma_parser_errors(tokens: Seq<crate::parsing::lexer::LTLToken>)
    ensures
        parse_tokens(tokens) matches Err(kind) ==> kind != ErrorKind::NoAPs && kind != ErrorKind::TooManyAPs
            && kind != ErrorKind::UnexpectedToken,
{
    crate::parsing::parser::lemma_formula_errors(tokens, 0, 0, false);
}

} // verus!
