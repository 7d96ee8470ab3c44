use model_checker::{KripkeBuilder, ModelCheckingErrorKind};

#[test]
fn test() {
    let mut kripke_builder = KripkeBuilder::new();
    kripke_builder.add_state(vec!["a".to_string()], 0, true);
    kripke_builder.add_state(vec!["b".to_string()], 1, false);
    kripke_builder.add_transition(0, 1);
    kripke_builder.add_transition(1, 0);
    assert!(
        model_checker::ltl_model_check(kripke_builder.clone(), "G(a|b)")
            .unwrap()
            .is_none()
    );
    assert!(
        model_checker::ltl_model_check(kripke_builder.clone(), "G(a&b)")
            .unwrap()
            .is_some()
    );
}

fn two_states() -> KripkeBuilder {
    let mut kripke_builder = KripkeBuilder::default();
    kripke_builder.add_state(vec!["a".to_string()], 0, true);
    kripke_builder.add_state(vec!["b".to_string()], 1, false);
    kripke_builder.add_transition(0, 1);
    kripke_builder.add_transition(1, 0);
    kripke_builder
}

fn ids(lasso: &[(u64, (u64, u8))]) -> Vec<u64> {
    lasso.iter().map(|state| state.0).collect()
}

#[test]
fn the_witness_alternates_between_the_two_states() {
    let lasso = model_checker::ltl_model_check(two_states(), "G(a&b)").unwrap().unwrap();
    assert!(lasso.len() >= 2);
    for (i, id) in ids(&lasso).iter().enumerate() {
        assert_eq!(*id, (i % 2) as u64);
    }
    // the loop ends at its entry again
    let last = lasso[lasso.len() - 1];
    assert!(lasso[..lasso.len() - 1].contains(&last));
}

#[test]
fn formulas_on_the_two_states() {
    let holds = |formula: &str| model_checker::ltl_model_check(two_states(), formula).unwrap().is_none();
    assert!(holds("a"));
    assert!(!holds("b"));
    assert!(holds("X b"));
    assert!(holds("X X a"));
    assert!(!holds("X a"));
    assert!(holds("G (a | b)"));
    assert!(holds("G (a | X a)"));
    assert!(holds("G F a"));
    assert!(holds("G F b"));
    assert!(!holds("F G a"));
    assert!(holds("a U b"));
    assert!(!holds("b U a & b"));
    assert!(holds("G (!a | X b)"));
    assert!(holds("G (!b | X a)"));
    assert!(holds("a W b"));
    assert!(holds("b R (a | b)"));
    assert!(!holds("a R b"));
    assert!(holds("1 U b"));
    assert!(!holds("0 | b"));
    assert!(holds("G !(a & b)"));
}

#[test]
fn a_state_without_propositions() {
    let mut ks = KripkeBuilder::new();
    ks.add_state(vec![], 7, true);
    ks.add_transition(7, 7);
    // a formula has to name a proposition
    let err = model_checker::ltl_model_check(ks.clone(), "X 1").unwrap_err();
    assert_eq!(*err.kind(), ModelCheckingErrorKind::FormulaNoAPs);
    let lasso = model_checker::ltl_model_check(ks.clone(), "a").unwrap().unwrap();
    assert!(ids(&lasso).iter().all(|id| *id == 7));
    assert!(model_checker::ltl_model_check(ks.clone(), "X a").unwrap().is_some());
    assert!(model_checker::ltl_model_check(ks.clone(), "G !a").unwrap().is_none());
}

#[test]
fn a_state_without_successor_leads_to_the_dead_state() {
    let mut ks = KripkeBuilder::new();
    ks.add_state(vec!["p".to_string()], 3, true);
    let lasso = model_checker::ltl_model_check(ks.clone(), "G p").unwrap().unwrap();
    assert_eq!(lasso[0].0, 3);
    let dead = u64::MAX - 1;
    assert_eq!(ids(&lasso)[1..], vec![dead; lasso.len() - 1]);
    assert!(model_checker::ltl_model_check(ks.clone(), "p").unwrap().is_none());
    assert!(model_checker::ltl_model_check(ks.clone(), "p & X G !p").unwrap().is_none());
}

#[test]
fn a_structure_without_start_is_refused() {
    let mut ks = KripkeBuilder::new();
    ks.add_state(vec!["a".to_string()], 0, false);
    ks.add_transition(0, 0);
    let err = model_checker::ltl_model_check(ks, "a").unwrap_err();
    assert_eq!(*err.kind(), ModelCheckingErrorKind::ModelNoStart);
    assert_eq!(err.message(), "Model has no start");
    let err = model_checker::ltl_model_check(KripkeBuilder::new(), "a").unwrap_err();
    assert_eq!(*err.kind(), ModelCheckingErrorKind::ModelNoStart);
}

#[test]
fn a_transition_to_an_unknown_state_is_refused() {
    let mut ks = KripkeBuilder::new();
    ks.add_state(vec!["a".to_string()], 0, true);
    ks.add_transition(0, 1);
    let err = model_checker::ltl_model_check(ks, "a").unwrap_err();
    assert_eq!(*err.kind(), ModelCheckingErrorKind::ModelInvalid);
    assert_eq!(err.message(), "Model is invalid");

    let mut ks = KripkeBuilder::new();
    ks.add_state(vec!["a".to_string()], 0, true);
    ks.add_transition(5, 0);
    let err = model_checker::ltl_model_check(ks, "a").unwrap_err();
    assert_eq!(*err.kind(), ModelCheckingErrorKind::ModelInvalid);
}

#[test]
fn the_formula_is_read_before_the_structure() {
    let err = model_checker::ltl_model_check(KripkeBuilder::new(), "a &").unwrap_err();
    match err.kind() {
        ModelCheckingErrorKind::FormulaSytaxError(parse) => {
            assert_eq!(parse.message(), "Syntax error")
        }
        other => panic!("{:?}", other),
    }
    assert_eq!(err.message(), "Syntax error");
}

#[test]
fn a_formula_with_too_many_subformulas_is_refused() {
    let mut ks = KripkeBuilder::new();
    ks.add_state(vec!["a".to_string()], 0, true);
    ks.add_transition(0, 0);
    // one bit for the proposition and one for each of 64 nested nexts
    let mut formula = String::new();
    for _ in 0..64 {
        formula.push('X');
    }
    formula.push('a');
    let err = model_checker::ltl_model_check(ks, &formula).unwrap_err();
    assert_eq!(*err.kind(), ModelCheckingErrorKind::FormulaTooLarge);
    assert_eq!(err.message(), "Formula is too large");
}

#[test]
fn a_later_state_replaces_an_earlier_one() {
    let mut ks = KripkeBuilder::new();
    ks.add_state(vec![], 0, true);
    ks.add_state(vec!["a".to_string(), "unused".to_string()], 0, true);
    ks.add_transition(0, 0);
    ks.add_transition(0, 0);
    assert!(model_checker::ltl_model_check(ks, "G a").unwrap().is_none());
}

#[test]
fn every_start_state_counts() {
    let mut ks = KripkeBuilder::new();
    ks.add_state(vec!["a".to_string()], 10, true);
    ks.add_state(vec![], 20, true);
    ks.add_transition(10, 10);
    ks.add_transition(20, 10);
    let lasso = model_checker::ltl_model_check(ks.clone(), "a").unwrap().unwrap();
    assert_eq!(lasso[0].0, 20);
    assert!(model_checker::ltl_model_check(ks, "X a").unwrap().is_none());
}
