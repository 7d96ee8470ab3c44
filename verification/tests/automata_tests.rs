use bit_vec::BitVec;
use model_checker::buechi::ltl_to_buechi::{
    get_aps_in_ltl, ltl_to_buechi, ltl_to_buechi_recursive, CompareTheThing, GetValueForThing,
};
use model_checker::buechi::product::product;
use model_checker::buechi::transitions::Transitions;
use model_checker::buechi::{Buechi, GeneralizedBuechi};
use model_checker::parsing::lexer::lexer;
use model_checker::parsing::LTLFormula as F;
use model_checker::KripkeBuilder;

fn bits(values: &[bool]) -> BitVec {
    let mut set = BitVec::from_elem(values.len(), false);
    for (i, value) in values.iter().enumerate() {
        set.set(i, *value);
    }
    set
}

fn edges(amount_states: usize, all: &[(u64, u64, u64)]) -> Transitions {
    let mut transitions = Transitions::for_states(amount_states);
    for (from, symbol, to) in all {
        transitions.add(*from, *symbol, *to);
    }
    transitions
}

#[test]
fn transitions_keep_their_order() {
    let mut t = Transitions::for_states(3);
    assert_eq!(t.amount_states(), 3);
    assert!(t.get_all().is_empty());
    t.add(0, 5, 2);
    t.add(0, 1, 1);
    t.add(2, 5, 0);
    t.add(0, 7, 2);
    t.add(0, 5, 2);
    t.add(0, 5, 1);
    assert!(t.has(&0, &5, &2));
    assert!(t.has(&0, &7, &2));
    assert!(!t.has(&0, &7, &1));
    assert!(!t.has(&1, &5, &2));
    assert_eq!(t.get_from_state(0), vec![(5, 2), (1, 1), (7, 2), (5, 1)]);
    assert_eq!(t.get_from_state(1), vec![]);
    assert_eq!(t.get_symbols_from_to(&0, &2), vec![5, 7]);
    assert_eq!(t.get_symbols_from_to(&0, &0), Vec::<u64>::new());
    assert_eq!(t.get_next_states_from_state(0), vec![2, 1]);
    assert_eq!(t.get_from_state_with_symbol(0, 5), vec![2, 1]);
    assert_eq!(t.get_from_state_with_symbol(0, 2), Vec::<u64>::new());
    assert_eq!(
        t.get_all(),
        vec![(0, 5, 2), (0, 1, 1), (0, 7, 2), (0, 5, 1), (2, 5, 0)]
    );
}

#[test]
fn the_automaton_of_a_structure() {
    let (_, names) = lexer("a U b").unwrap();
    let mut ks = KripkeBuilder::new();
    ks.add_state(vec!["b".to_string(), "c".to_string()], 10, false);
    ks.add_state(vec!["a".to_string(), "b".to_string()], 20, true);
    ks.add_state(vec![], 30, true);
    ks.add_transition(20, 10);
    ks.add_transition(20, 20);
    ks.add_transition(20, 10);
    ks.add_transition(30, 20);
    let automaton = ks.create_buechi(&names).unwrap();
    assert_eq!(automaton.amount_states(), 5);
    assert_eq!(automaton.amount_aps(), 2);
    assert_eq!(automaton.start_state(), 0);
    assert_eq!(*automaton.state_infos(), vec![u64::MAX, u64::MAX - 1, 10, 20, 30]);
    assert!(automaton.end_set().all());
    assert_eq!(automaton.end_set().len(), 5);
    let t = automaton.transitions();
    assert_eq!(t.get_from_state(0), vec![(3, 3), (0, 4)]);
    assert_eq!(t.get_from_state(1), vec![(0, 1)]);
    assert_eq!(t.get_from_state(2), vec![(0, 1)]);
    assert_eq!(t.get_from_state(3), vec![(2, 2), (3, 3)]);
    assert_eq!(t.get_from_state(4), vec![(3, 3)]);
    assert_eq!(
        KripkeBuilder::get_symbol_from_string_aps_with_ap_map(
            &vec!["b".to_string(), "x".to_string()],
            &names
        ),
        2
    );
}

#[test]
fn the_bits_of_a_formula() {
    let formula = F::until(F::next(F::ap(1)), F::and(F::ap(0), F::next(F::ap(1))), false);
    assert_eq!(get_aps_in_ltl(&formula), 2);
    let mut bit_usage = Vec::new();
    let mut bits_used = 2;
    assert!(ltl_to_buechi_recursive(&formula, &mut bit_usage, &mut bits_used));
    assert_eq!(bits_used, 4);
    let next = F::next(F::ap(1));
    assert_eq!(
        bit_usage,
        vec![(&F::ap(1), 1), (&next, 2), (&F::ap(0), 0), (&formula, 3)]
    );
    let mut bits_used = 63;
    let mut bit_usage = Vec::new();
    assert!(!ltl_to_buechi_recursive(&formula, &mut bit_usage, &mut bits_used));
}

#[test]
fn predicates_on_states() {
    let a = || Box::new(GetValueForThing::Lookup(0));
    let b = || Box::new(GetValueForThing::Lookup(3));
    let both = GetValueForThing::And(a(), Box::new(GetValueForThing::Not(b())));
    assert!(both.get(&0b0001));
    assert!(!both.get(&0b1001));
    assert!(!both.get(&0b0110));
    assert!(both.duplicate().get(&0b0101));
    assert!(GetValueForThing::Lookup(63).get(&(1 << 63)));

    let next = CompareTheThing::Next(GetValueForThing::Lookup(1), GetValueForThing::Lookup(0));
    assert!(next.compare(&0b10, &0b01));
    assert!(next.compare(&0b00, &0b10));
    assert!(!next.compare(&0b10, &0b10));
    assert!(!next.compare(&0b00, &0b01));
    // bit 0: first operand, bit 1: second operand, bit 2: the until
    let until = CompareTheThing::Until(
        GetValueForThing::Lookup(0),
        GetValueForThing::Lookup(1),
        GetValueForThing::Lookup(2),
    );
    assert!(until.compare(&0b110, &0b000));
    assert!(until.compare(&0b000, &0b100));
    assert!(until.compare(&0b101, &0b100));
    assert!(!until.compare(&0b101, &0b000));
    assert!(until.compare(&0b001, &0b000));
    assert!(!until.compare(&0b001, &0b100));
}

#[test]
fn the_automaton_of_a_proposition() {
    let automaton = ltl_to_buechi(&F::ap(0)).unwrap();
    assert_eq!(automaton.amount_states(), 3);
    assert_eq!(automaton.amount_aps(), 1);
    assert_eq!(automaton.start_state(), 2);
    assert_eq!(*automaton.state_infos(), vec![0, 1, u64::MAX]);
    assert!(automaton.end_sets().is_empty());
    let t = automaton.transitions();
    assert_eq!(t.get_from_state(0), vec![(0, 0), (1, 1)]);
    assert_eq!(t.get_from_state(1), vec![(0, 0), (1, 1)]);
    assert_eq!(t.get_from_state(2), vec![(1, 1)]);
}

#[test]
fn the_automaton_of_an_until() {
    // a U b: bit 0 is a, bit 1 is b, bit 2 is the until
    let formula = F::until(F::ap(0), F::ap(1), false);
    let automaton = ltl_to_buechi(&formula).unwrap();
    assert_eq!(*automaton.state_infos(), vec![0, 1, 6, 7, 5, u64::MAX]);
    assert_eq!(automaton.amount_aps(), 2);
    assert_eq!(automaton.start_state(), 5);
    let t = automaton.transitions();
    // the until fails without a: any state may follow
    assert_eq!(
        t.get_from_state(0),
        vec![(0, 0), (1, 1), (2, 2), (3, 3), (1, 4)]
    );
    // the until fails with a alone: it has to fail in the next state too
    assert_eq!(t.get_from_state(1), vec![(0, 0), (1, 1)]);
    // the until holds with a alone: it has to hold in the next state too
    assert_eq!(t.get_from_state(4), vec![(2, 2), (3, 3), (1, 4)]);
    // the until holds with b: any state may follow
    assert_eq!(t.get_from_state(2).len(), 5);
    // the formula holds in the states 2, 3 and 4
    assert_eq!(t.get_from_state(5), vec![(2, 2), (3, 3), (1, 4)]);
    let end_sets = automaton.end_sets();
    assert_eq!(end_sets.len(), 1);
    assert!(end_sets[0].eq_vec(&[true, true, true, true, false, false]));
}

#[test]
fn equal_subformulas_share_a_bit() {
    // X a & X a
    let formula = F::and(F::next(F::ap(0)), F::next(F::ap(0)));
    let automaton = ltl_to_buechi(&formula).unwrap();
    assert_eq!(*automaton.state_infos(), vec![0, 1, 2, 3, u64::MAX]);
    let t = automaton.transitions();
    assert_eq!(t.get_from_state(0), vec![(0, 0), (0, 2)]);
    assert_eq!(t.get_from_state(2), vec![(1, 1), (1, 3)]);
    assert_eq!(t.get_from_state(4), vec![(0, 2), (1, 3)]);
}

#[test]
fn a_formula_that_takes_too_many_bits() {
    let mut formula = F::ap(0);
    for _ in 0..63 {
        formula = F::next(formula);
    }
    // 64 bits: the states cannot be listed, but the bits suffice
    let mut bit_usage = Vec::new();
    let mut bits_used = 1;
    assert!(ltl_to_buechi_recursive(&formula, &mut bit_usage, &mut bits_used));
    assert_eq!(bits_used, 64);
    let formula = F::next(formula);
    assert!(ltl_to_buechi(&formula).is_none());
    assert!(ltl_to_buechi(&F::ap(64)).is_none());
    assert!(ltl_to_buechi(&F::and(F::ap(0), F::ap(200))).is_none());
}

fn two_sets(second: &[bool]) -> GeneralizedBuechi<u64> {
    // 0 -> 1 -> 0 and 1 -> 1
    GeneralizedBuechi::new(
        vec![100, 101],
        1,
        0,
        edges(2, &[(0, 1, 1), (1, 0, 0), (1, 1, 1)]),
        vec![bits(&[true, false]), bits(second)],
    )
}

#[test]
fn one_plane_for_each_accepting_set() {
    let automaton = Buechi::from_generalized_buechi(two_sets(&[false, true]));
    assert_eq!(automaton.amount_states(), 4);
    assert_eq!(automaton.amount_aps(), 1);
    assert_eq!(automaton.start_state(), 0);
    assert_eq!(
        *automaton.state_infos(),
        vec![(100, 0), (101, 0), (100, 1), (101, 1)]
    );
    let t = automaton.transitions();
    // state 0 lies in the first set: on to the second plane
    assert_eq!(t.get_from_state(0), vec![(1, 3)]);
    assert_eq!(t.get_from_state(1), vec![(0, 0), (1, 1)]);
    assert_eq!(t.get_from_state(2), vec![(1, 3)]);
    // state 1 lies in the second set: back to the first plane
    assert_eq!(t.get_from_state(3), vec![(0, 0), (1, 1)]);
    assert!(automaton.end_set().eq_vec(&[false, false, false, true]));
    assert!(!automaton.is_empty());
    assert_eq!(
        automaton.get_loop(),
        Some(vec![(100, 0), (101, 1), (100, 0), (101, 1)])
    );
}

#[test]
fn a_set_that_is_never_visited_leaves_no_run() {
    let automaton = Buechi::from_generalized_buechi(two_sets(&[false, false]));
    assert!(automaton.is_empty());
    assert_eq!(automaton.get_loop(), None);
}

#[test]
fn few_accepting_sets_keep_the_states() {
    let none = GeneralizedBuechi::new(vec![7u64, 8], 2, 1, edges(2, &[(1, 3, 0)]), vec![]);
    let automaton = Buechi::from_generalized_buechi(none);
    assert_eq!(*automaton.state_infos(), vec![(7, 0), (8, 0)]);
    assert_eq!(automaton.start_state(), 1);
    assert_eq!(automaton.amount_aps(), 2);
    assert_eq!(automaton.transitions().get_all(), vec![(1, 3, 0)]);
    assert!(automaton.end_set().eq_vec(&[true, true]));
    assert!(automaton.is_empty());

    let one = GeneralizedBuechi::new(
        vec![7u64, 8],
        2,
        1,
        edges(2, &[(1, 3, 0), (0, 0, 0)]),
        vec![bits(&[true, false])],
    );
    let automaton = Buechi::from_generalized_buechi(one);
    assert_eq!(*automaton.state_infos(), vec![(7, 0), (8, 0)]);
    assert!(automaton.end_set().eq_vec(&[true, false]));
    assert_eq!(automaton.get_loop(), Some(vec![(8, 0), (7, 0), (7, 0)]));
}

fn first() -> Buechi<u8> {
    // 0 -a-> 1, 1 -b-> 0, 1 -a-> 1
    Buechi::new(
        vec![10u8, 11],
        2,
        0,
        edges(2, &[(0, 1, 1), (1, 2, 0), (1, 1, 1)]),
        bits(&[true, true]),
    )
}

fn second(accepting: &[bool]) -> Buechi<u16> {
    // 0 -a-> 0, 0 -a-> 1, 1 -b-> 2, 2 -a-> 0
    Buechi::new(
        vec![20u16, 21, 22],
        2,
        0,
        edges(3, &[(0, 1, 0), (0, 1, 1), (1, 2, 2), (2, 1, 0)]),
        bits(accepting),
    )
}

#[test]
fn the_product_steps_where_both_step() {
    let both = product(&first(), &second(&[false, false, true]));
    assert_eq!(both.amount_states(), 6);
    assert_eq!(both.amount_aps(), 2);
    assert_eq!(both.start_state(), 0);
    assert_eq!(
        *both.state_infos(),
        vec![(10, 20), (10, 21), (10, 22), (11, 20), (11, 21), (11, 22)]
    );
    assert!(both.end_set().eq_vec(&[false, false, true, false, false, true]));
    let t = both.transitions();
    assert_eq!(t.get_from_state(0), vec![(1, 3), (1, 4)]);
    assert_eq!(t.get_from_state(1), vec![]);
    assert_eq!(t.get_from_state(2), vec![(1, 3)]);
    assert_eq!(t.get_from_state(3), vec![(1, 3), (1, 4)]);
    assert_eq!(t.get_from_state(4), vec![(2, 2)]);
    assert_eq!(t.get_from_state(5), vec![(1, 3)]);
    assert_eq!(
        both.get_loop(),
        Some(vec![(10, 20), (11, 20), (11, 21), (10, 22), (11, 20), (11, 21), (10, 22)])
    );
}

#[test]
fn the_product_changes_places_for_the_accepting_operand() {
    let turned = product(&second(&[false, false, true]), &first());
    // the pairs are numbered with the state of the second operand first
    assert_eq!(
        *turned.state_infos(),
        vec![(20, 10), (21, 10), (22, 10), (20, 11), (21, 11), (22, 11)]
    );
    assert!(turned.end_set().eq_vec(&[false, false, true, false, false, true]));
    assert_eq!(turned.transitions().get_from_state(0), vec![(1, 3), (1, 4)]);
    assert_eq!(turned.start_state(), 0);
    assert!(!turned.is_empty());
}

fn picky(accepting: &[bool]) -> Buechi<u8> {
    Buechi::new(
        vec![10u8, 11],
        2,
        0,
        edges(2, &[(0, 1, 1), (1, 2, 0), (1, 1, 1)]),
        bits(accepting),
    )
}

#[test]
fn the_product_of_two_automata_with_accepting_states_of_their_own() {
    let both = product(&picky(&[true, false]), &second(&[false, false, true]));
    // two planes of six pairs
    assert_eq!(both.amount_states(), 12);
    assert_eq!(both.state_infos()[0], (10, 20));
    assert_eq!(both.state_infos()[6], (10, 20));
    assert_eq!(both.state_infos()[11], (11, 22));
    assert_eq!(both.start_state(), 0);
    // accepting: second plane, second state accepting
    assert!(both.end_set().eq_vec(&[
        false, false, false, false, false, false, false, false, true, false, false, true
    ]));
    let t = both.transitions();
    // the first state of the pair 0 is accepting: on to the second plane
    assert_eq!(t.get_from_state(0), vec![(1, 9), (1, 10)]);
    // the first state of the pair 4 is not: stay
    assert_eq!(t.get_from_state(4), vec![(2, 2)]);
    // on the second plane the pair 4 waits for the second operand
    assert_eq!(t.get_from_state(10), vec![(2, 8)]);
    // the pair 2 on the second plane is accepting: back to the first plane
    assert_eq!(t.get_from_state(8), vec![(1, 3)]);
    // both visit their accepting states on 0 -> 1 -> 0 and 0 -> 1 -> 2 -> 0
    assert!(!both.is_empty());
    let lasso = both.get_loop().unwrap();
    assert_eq!(lasso[0], (10, 20));
    assert_eq!(lasso[lasso.len() - 1], (10, 22));

    // the first never comes back to its accepting state
    let stuck = Buechi::new(
        vec![10u8, 11],
        2,
        0,
        edges(2, &[(0, 1, 1), (1, 1, 1), (1, 2, 1)]),
        bits(&[true, false]),
    );
    assert!(stuck.is_empty());
    assert!(product(&stuck, &second(&[true, false, true])).is_empty());
    // the second has no accepting state at all
    assert!(product(&picky(&[true, false]), &second(&[false, false, false])).is_empty());
}

#[test]
fn the_same_operands_give_the_same_product() {
    let one = product(&first(), &second(&[false, true, false])).into_parts();
    let two = product(&first(), &second(&[false, true, false])).into_parts();
    assert_eq!(one.0, two.0);
    assert_eq!(one.2, two.2);
    assert_eq!(one.3.get_all(), two.3.get_all());
    assert_eq!(one.4, two.4);
}

#[test]
fn the_search_for_a_lasso() {
    // 0 -> 1 -> 2 -> 1, 0 -> 3, accepting: 3 and 2
    let automaton = Buechi::new(
        vec!['s', 'a', 'b', 'c'],
        0,
        0,
        edges(4, &[(0, 0, 3), (0, 0, 1), (1, 0, 2), (2, 0, 1)]),
        bits(&[false, false, true, true]),
    );
    assert_eq!(automaton.get_loop(), Some(vec!['s', 'a', 'b', 'a', 'b']));
    assert!(!automaton.is_empty());

    // the accepting state lies on no cycle
    let automaton = Buechi::new(
        vec!['s', 'a', 'b', 'c'],
        0,
        0,
        edges(4, &[(0, 0, 3), (0, 0, 1), (1, 0, 2), (2, 0, 1)]),
        bits(&[true, false, false, true]),
    );
    assert_eq!(automaton.get_loop(), None);
    assert!(automaton.is_empty());

    // the accepting cycle cannot be reached
    let automaton = Buechi::new(
        vec!['s', 'a', 'b'],
        0,
        0,
        edges(3, &[(0, 0, 0), (1, 0, 2), (2, 0, 1), (1, 0, 0)]),
        bits(&[false, true, true]),
    );
    assert!(automaton.is_empty());

    // a loop at the initial state
    let automaton = Buechi::new(vec!['s'], 0, 0, edges(1, &[(0, 9, 0)]), bits(&[true]));
    assert_eq!(automaton.get_loop(), Some(vec!['s', 's']));
}
