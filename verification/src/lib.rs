//! An LTL model checker: a formula is parsed, negated and translated into a
//! Büchi automaton, the Kripke structure is encoded as a second automaton,
//! and their product is searched for an accepting lasso.

pub mod bits;
pub mod buechi;
pub mod kripke;
pub mod model_checking_error;
pub mod parsing;
pub mod seqs;

pub use kripke::KripkeBuilder;
pub use model_checking_error::ModelCheckingError;
pub use model_checking_error::ModelCheckingErrorKind;

use buechi::emptiness::infos_along;
use buechi::ltl_to_buechi::{fits, gba_of, lemma_gba_end_sets, ltl_to_buechi};
use buechi::product::{product, product_of};
use buechi::{Buechi, BuechiView, State};
use kripke::{kripke_automaton, KripkeView};
use parsing::parsing_error::ErrorKind;
use parsing::{parse, parse_text, LTLFormula};
use vstd::prelude::*;
use vstd::string::StringSliceAdditionalSpecFns;

verus! {

/// Why a check cannot be carried out.
pub enum Failure {
    /// The formula is malformed in this way at this byte offset.
    Formula(ErrorKind, nat),
    /// The Kripke structure is at fault, or the formula is too large.
    Model(ModelCheckingErrorKind),
}

/// The automaton whose words are the executions of the structure that
/// violate the formula: the product of the automaton of the structure with
/// the automaton of the negated formula. The formula is read first, then
/// the structure is encoded, then the negated formula is translated; the
/// first of these that fails decides the error.
pub open spec fn violations(model: KripkeView, formula: Seq<u8>) -> Result<BuechiView<(u64, (u64, u8))>, Failure> {
    match parse_text(formula) {
        Err((kind, at)) => Err(Failure::Formula(kind, at)),
        Ok((phi, names)) => match kripke_automaton(model, names) {
            Err(kind) => Err(Failure::Model(kind)),
            Ok(structure) => {
                let negated = LTLFormula::Not(Box::new(phi));
                if !fits(negated) {
                    Err(Failure::Model(ModelCheckingErrorKind::FormulaTooLarge))
                } else {
                    Ok(product_of(structure, gba_of(negated).degeneralized()))
                }
            },
        },
    }
}

/// Whether every execution of the Kripke structure satisfies the formula.
/// `None` says that it does. Otherwise the result is an execution that
/// violates the formula, as a lasso of the product automaton without its
/// initial state: for each state the identifier of the state of the
/// structure, and the state of the automaton of the negated formula with
/// its plane. First comes the stem, which ends at the entry of the loop,
/// then the loop, which ends at its entry again.
pub fn ltl_model_check(ks: KripkeBuilder, formula: &str) -> (r: Result<
    Option<Vec<(u64, (u64, u8))>>,
    ModelCheckingError,
>)
    ensures
        match violations(ks@, formula.spec_bytes()) {
            Err(Failure::Formula(kind, at)) => r matches Err(e) && e.reports(kind, at),
            Err(Failure::Model(kind)) => r matches Err(e) && e.spec_kind() == kind,
            Ok(automaton) => r matches Ok(found) && (found is Some <==> automaton.nonempty()) && (found matches Some(
                witness,
            ) ==> exists|lasso: Seq<State>, entry: int| #[trigger]
                automaton.is_lasso(lasso, entry) && witness@ == infos_along(automaton, lasso).drop_first()),
        },
{
    let (ltl, ap_map) = match parse(formula) {
        Ok(read) => read,
        Err(e) => {
            return Err(e);
        },
    };
    let notltl = LTLFormula::Not(Box::new(ltl));
    let model = match ks.create_buechi(&ap_map) {
        Ok(model) => model,
        Err(e) => {
            return Err(e);
        },
    };
    let generalized_buechi = match ltl_to_buechi(&notltl) {
        Some(automaton) => automaton,
        None => {
            return Err(ModelCheckingError::new(ModelCheckingErrorKind::FormulaTooLarge));
        },
    };
    proof {
        lemma_gba_end_sets(notltl);
    }
    let buechi = Buechi::from_generalized_buechi(generalized_buechi);
    let product = product(&model, &buechi);
    match product.get_loop() {
        None => Ok(None),
        Some(infos) => {
            let mut witness: Vec<(u64, (u64, u8))> = Vec::new();
            let mut i: usize = 1;
            while i < infos.len()
                invariant
                    1 <= i,
                    infos@.len() >= 1 ==> i <= infos@.len(),
                    infos@.len() >= 1 ==> witness@ == infos@.subrange(1, i as int),
                    infos@.len() == 0 ==> witness@.len() == 0,
                decreases infos@.len() - i,
            {
                witness.push(infos[i]);
                assert(witness@ =~= infos@.subrange(1, i + 1));
                i = i + 1;
            }
            proof {
                let automaton = violations(ks@, formula.spec_bytes())->Ok_0;
                let (lasso, entry) = choose|lasso: Seq<State>, entry: int| #[trigger]
                    automaton.is_lasso(lasso, entry) && infos@ == infos_along(automaton, lasso);
                assert(witness@ =~= infos_along(automaton, lasso).drop_first());
            }
            Ok(Some(witness))
        },
    }
}

} // verus!
