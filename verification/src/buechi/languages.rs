//! The words that products and automata with a single accepting set accept.

use crate::buechi::product::{all_accepting, lemma_pair_steps, paired_transitions, simple_product};
use crate::buechi::runs::{
    in_set_at, lemma_degeneralization, lemma_lifted_step, lemma_plane_bounds, lifted_accepted, lifted_accepting_at,
    lifted_visits_from, plane_at, run_accepted, visits_from,
};
use crate::buechi::{lemma_cell, lemma_cell_of, BuechiView, GeneralizedBuechiView, State, Symbol};
use vstd::prelude::*;

verus! {

/// A pair steps to a pair under a symbol just where both of its states
/// step under that symbol.
pub proof fn lemma_pair_step<T, S>(
    a1: BuechiView<T>,
    a2: BuechiView<S>,
    p: State,
    q: State,
    symbol: Symbol,
    p_to: State,
    q_to: State,
)
    requires
        a1.well_formed(),
        a2.well_formed(),
        a1.state_infos.len() * a2.state_infos.len() <= u64::MAX,
        p < a1.state_infos.len(),
        q < a2.state_infos.len(),
        p_to < a1.state_infos.len(),
        q_to < a2.state_infos.len(),
    ensures
        paired_transitions(a1, a2)[p * a2.state_infos.len() + q].contains(
            (symbol, (p_to * a2.state_infos.len() + q_to) as State),
        ) <==> a1.transitions[p as int].contains((symbol, p_to)) && a2.transitions[q as int].contains((symbol, q_to)),
{
    let n1 = a1.state_infos.len() as int;
    let n2 = a2.state_infos.len() as int;
    lemma_cell(p_to as int, q_to as int, n1, n2);
    let to = (p_to * n2 + q_to) as State;
    lemma_pair_steps(a1, a2, p, q, symbol, to);
    if paired_transitions(a1, a2)[p * n2 + q].contains((symbol, to)) {
        let (x, y) = choose|x: State, y: State|
            #![trigger a1.transitions[p as int].contains((symbol, x)), a2.transitions[q as int].contains((symbol, y))]
            a1.transitions[p as int].contains((symbol, x)) && a2.transitions[q as int].contains((symbol, y)) && to
                == x * n2 + y;
        let e1 = choose|e1: int| 0 <= e1 < a1.transitions[p as int].len() && a1.transitions[p as int][e1] == (symbol, x);
        let e2 = choose|e2: int| 0 <= e2 < a2.transitions[q as int].len() && a2.transitions[q as int][e2] == (symbol, y);
        assert(a1.transitions[p as int][e1].1 < n1);
        assert(a2.transitions[q as int][e2].1 < n2);
        lemma_cell(x as int, y as int, n1, n2);
    }
}

/// Where a pair steps to under a symbol is a pair, and both of its states
/// step under that symbol.
pub proof fn lemma_pair_step_to<T, S>(a1: BuechiView<T>, a2: BuechiView<S>, from: State, symbol: Symbol, to: State)
    requires
        a1.well_formed(),
        a2.well_formed(),
        a1.state_infos.len() * a2.state_infos.len() <= u64::MAX,
        from < a1.state_infos.len() * a2.state_infos.len(),
        paired_transitions(a1, a2)[from as int].contains((symbol, to)),
    ensures
        to < a1.state_infos.len() * a2.state_infos.len(),
        a2.state_infos.len() > 0,
        a1.transitions[from as int / (a2.state_infos.len() as int)].contains(
            (symbol, (to as int / (a2.state_infos.len() as int)) as State),
        ),
        a2.transitions[from as int % (a2.state_infos.len() as int)].contains(
            (symbol, (to as int % (a2.state_infos.len() as int)) as State),
        ),
{
    let n1 = a1.state_infos.len() as int;
    let n2 = a2.state_infos.len() as int;
    lemma_cell_of(from as int, n1, n2);
    let p = (from as int / n2) as State;
    let q = (from as int % n2) as State;
    lemma_pair_steps(a1, a2, p, q, symbol, to);
    let (x, y) = choose|x: State, y: State|
        #![trigger a1.transitions[p as int].contains((symbol, x)), a2.transitions[q as int].contains((symbol, y))]
        a1.transitions[p as int].contains((symbol, x)) && a2.transitions[q as int].contains((symbol, y)) && to == x
            * n2 + y;
    let e1 = choose|e1: int| 0 <= e1 < a1.transitions[p as int].len() && a1.transitions[p as int][e1] == (symbol, x);
    let e2 = choose|e2: int| 0 <= e2 < a2.transitions[q as int].len() && a2.transitions[q as int][e2] == (symbol, y);
    assert(a1.transitions[p as int][e1].1 < n1);
    assert(a2.transitions[q as int][e2].1 < n2);
    lemma_cell(x as int, y as int, n1, n2);
}

/// The first states of the pairs of a run.
pub open spec fn firsts(run: spec_fn(nat) -> State, n2: int) -> spec_fn(nat) -> State {
    |i: nat| (run(i) as int / n2) as State
}

/// The second states of the pairs of a run.
pub open spec fn seconds(run: spec_fn(nat) -> State, n2: int) -> spec_fn(nat) -> State {
    |i: nat| (run(i) as int % n2) as State
}

/// The pairs of the states of two runs.
pub open spec fn together(first: spec_fn(nat) -> State, second: spec_fn(nat) -> State, n2: int) -> spec_fn(
    nat,
) -> State {
    |i: nat| (first(i) * n2 + second(i)) as State
}

/// The states of a run of a well-formed automaton are states of the automaton.
pub proof fn lemma_run_in_range<T>(a: BuechiView<T>, run: spec_fn(nat) -> State, word: spec_fn(nat) -> Symbol, i: nat)
    requires
        a.well_formed(),
        a.is_run(run, word),
    ensures
        run(i) < a.state_infos.len(),
{
    assert(a.steps_at(run, word, i));
}

/// The states of a run of pairs are pairs.
proof fn lemma_pairs_in_range<T, S>(
    a1: BuechiView<T>,
    a2: BuechiView<S>,
    run: spec_fn(nat) -> State,
    word: spec_fn(nat) -> Symbol,
    i: nat,
)
    requires
        a1.well_formed(),
        a2.well_formed(),
        a1.state_infos.len() * a2.state_infos.len() <= u64::MAX,
        simple_product(a1, a2).is_run(run, word),
    ensures
        run(i) < a1.state_infos.len() * a2.state_infos.len(),
    decreases i,
{
    let both = simple_product(a1, a2);
    let n1 = a1.state_infos.len() as int;
    let n2 = a2.state_infos.len() as int;
    if i == 0 {
        lemma_cell(a1.start_state as int, a2.start_state as int, n1, n2);
    } else {
        lemma_pairs_in_range(a1, a2, run, word, (i - 1) as nat);
        assert(both.steps_at(run, word, (i - 1) as nat));
        lemma_pair_step_to(a1, a2, run((i - 1) as nat), word((i - 1) as nat), run(i));
    }
}

/// The product of an automaton in which every state is accepting with
/// another accepts just the words that both accept.
pub proof fn lemma_product_language<T, S>(a1: BuechiView<T>, a2: BuechiView<S>, word: spec_fn(nat) -> Symbol)
    requires
        a1.well_formed(),
        a2.well_formed(),
        a1.state_infos.len() * a2.state_infos.len() <= u64::MAX,
        all_accepting(a1.end_set),
    ensures
        simple_product(a1, a2).accepts(word) <==> a1.accepts(word) && a2.accepts(word),
{
    let both = simple_product(a1, a2);
    let n1 = a1.state_infos.len() as int;
    let n2 = a2.state_infos.len() as int;
    lemma_cell(a1.start_state as int, a2.start_state as int, n1, n2);
    if both.accepts(word) {
        let run = choose|run: spec_fn(nat) -> State|
            #[trigger] both.is_run(run, word) && forall|from: nat| #[trigger] both.accepting_from(run, from);
        let first = firsts(run, n2);
        let second = seconds(run, n2);
        assert forall|i: nat| #[trigger] a1.steps_at(first, word, i) by {
            lemma_pairs_in_range(a1, a2, run, word, i);
            assert(both.steps_at(run, word, i));
            lemma_pair_step_to(a1, a2, run(i), word(i), run(i + 1));
            lemma_cell_of(run(i) as int, n1, n2);
        }
        assert forall|i: nat| #[trigger] a2.steps_at(second, word, i) by {
            lemma_pairs_in_range(a1, a2, run, word, i);
            assert(both.steps_at(run, word, i));
            lemma_pair_step_to(a1, a2, run(i), word(i), run(i + 1));
            lemma_cell_of(run(i) as int, n1, n2);
        }
        assert(run(0) == a1.start_state * n2 + a2.start_state);
        assert(first(0) == a1.start_state);
        assert(second(0) == a2.start_state);
        assert(a1.is_run(first, word));
        assert(a2.is_run(second, word));
        assert forall|from: nat| #[trigger] a1.accepting_from(first, from) by {
            assert(a1.steps_at(first, word, from));
            assert(a1.accepting(first(from)));
        }
        assert forall|from: nat| #[trigger] a2.accepting_from(second, from) by {
            assert(both.accepting_from(run, from));
            let i = choose|i: nat| i >= from && #[trigger] both.accepting(run(i));
            lemma_cell_of(run(i) as int, n1, n2);
            assert(a2.accepting(second(i)));
        }
    }
    if a1.accepts(word) && a2.accepts(word) {
        let first = choose|run: spec_fn(nat) -> State|
            #[trigger] a1.is_run(run, word) && forall|from: nat| #[trigger] a1.accepting_from(run, from);
        let second = choose|run: spec_fn(nat) -> State|
            #[trigger] a2.is_run(run, word) && forall|from: nat| #[trigger] a2.accepting_from(run, from);
        let run = together(first, second, n2);
        assert forall|i: nat| #[trigger] both.steps_at(run, word, i) by {
            assert(a1.steps_at(first, word, i));
            assert(a2.steps_at(second, word, i));
            assert(a1.steps_at(first, word, i + 1));
            assert(a2.steps_at(second, word, i + 1));
            lemma_cell(first(i) as int, second(i) as int, n1, n2);
            lemma_pair_step(a1, a2, first(i), second(i), word(i), first(i + 1), second(i + 1));
        }
        assert(both.is_run(run, word));
        assert forall|from: nat| #[trigger] both.accepting_from(run, from) by {
            assert(a2.accepting_from(second, from));
            let i = choose|i: nat| i >= from && #[trigger] a2.accepting(second(i));
            assert(a1.steps_at(first, word, i));
            lemma_cell(first(i) as int, second(i) as int, n1, n2);
            assert(both.accepting(run(i)));
        }
    }
}

/// A run, with its states as numbers.
pub open spec fn as_numbers(run: spec_fn(nat) -> State) -> spec_fn(nat) -> int {
    |i: nat| run(i) as int
}

/// The lifted run: the copy of each state on the plane of its step.
pub open spec fn lifted<T>(g: GeneralizedBuechiView<T>, run: spec_fn(nat) -> State) -> spec_fn(nat) -> State {
    |i: nat| (plane_at(g, as_numbers(run), i) * g.state_infos.len() + run(i)) as State
}

/// The run that a run over the planes is the lifted run of.
pub open spec fn lowered<T>(g: GeneralizedBuechiView<T>, run: spec_fn(nat) -> State) -> spec_fn(nat) -> State {
    |i: nat| (run(i) as int % (g.state_infos.len() as int)) as State
}

/// A run of the automaton with a single accepting set is the lifted run of
/// a run of the automaton with several.
proof fn lemma_lowered_run<T>(g: GeneralizedBuechiView<T>, run: spec_fn(nat) -> State, word: spec_fn(nat) -> Symbol, i: nat)
    requires
        g.well_formed(),
        g.end_sets.len() >= 2,
        g.end_sets.len() * g.state_infos.len() <= u64::MAX,
        g.degeneralized().is_run(run, word),
    ensures
        run(i) < g.end_sets.len() * g.state_infos.len(),
        run(i) as int / (g.state_infos.len() as int) == plane_at(g, as_numbers(lowered(g, run)), i),
        lowered(g, run)(i) < g.state_infos.len(),
        i > 0 ==> g.steps_at(lowered(g, run), word, (i - 1) as nat),
    decreases i,
{
    let n = g.state_infos.len() as int;
    let m = g.end_sets.len() as int;
    let deg = g.degeneralized();
    let low = lowered(g, run);
    if i == 0 {
        lemma_cell(0, g.start_state as int, m, n);
    } else {
        let before = (i - 1) as nat;
        lemma_lowered_run(g, run, word, before);
        assert(deg.steps_at(run, word, before));
        let p = run(before) as int / n;
        let s = run(before) as int % n;
        lemma_cell_of(run(before) as int, m, n);
        lemma_plane_bounds(g, as_numbers(low), before);
        lemma_lifted_step(g, p, s, word(before), run(i));
        let target = choose|target: State| #[trigger]
            g.transitions[s].contains((word(before), target)) && run(i) == g.target_plane(p, s) * n + target;
        let e = choose|e: int| 0 <= e < g.transitions[s].len() && g.transitions[s][e] == (word(before), target);
        assert(g.transitions[s][e].1 < n);
        let next = g.target_plane(p, s);
        assert(next == plane_at(g, as_numbers(low), i));
        lemma_plane_bounds(g, as_numbers(low), i);
        lemma_cell(next, target as int, m, n);
    }
}

/// The automaton with a single accepting set that is made of an automaton
/// with several accepts the same words.
pub proof fn lemma_degeneralized_language<T>(g: GeneralizedBuechiView<T>, word: spec_fn(nat) -> Symbol)
    requires
        g.well_formed(),
        g.end_sets.len() * g.state_infos.len() <= u64::MAX,
    ensures
        g.degeneralized().accepts(word) <==> g.accepts(word),
{
    let n = g.state_infos.len() as int;
    let m = g.end_sets.len() as int;
    let deg = g.degeneralized();
    if m <= 1 {
        if deg.accepts(word) {
            let run = choose|run: spec_fn(nat) -> State|
                #[trigger] deg.is_run(run, word) && forall|from: nat| #[trigger] deg.accepting_from(run, from);
            assert forall|i: nat| #[trigger] g.steps_at(run, word, i) by {
                assert(deg.steps_at(run, word, i));
            }
            assert forall|set: int, from: nat| 0 <= set < g.end_sets.len() implies #[trigger] g.visits_from(
                run,
                set,
                from,
            ) by {
                assert(deg.accepting_from(run, from));
                let i = choose|i: nat| i >= from && #[trigger] deg.accepting(run(i));
                assert(g.in_set_at(run, set, i));
            }
            assert(g.is_run(run, word) && g.run_accepted(run));
        }
        if g.accepts(word) {
            let run = choose|run: spec_fn(nat) -> State| #[trigger] g.is_run(run, word) && g.run_accepted(run);
            assert forall|i: nat| #[trigger] deg.steps_at(run, word, i) by {
                assert(g.steps_at(run, word, i));
            }
            assert forall|from: nat| #[trigger] deg.accepting_from(run, from) by {
                if m == 0 {
                    assert(g.steps_at(run, word, from));
                    assert(deg.accepting(run(from)));
                } else {
                    assert(g.visits_from(run, 0, from));
                    let i = choose|i: nat| i >= from && #[trigger] g.in_set_at(run, 0, i);
                    assert(deg.accepting(run(i)));
                }
            }
            assert(deg.is_run(run, word));
        }
    } else {
        if deg.accepts(word) {
            let run = choose|run: spec_fn(nat) -> State|
                #[trigger] deg.is_run(run, word) && forall|from: nat| #[trigger] deg.accepting_from(run, from);
            let low = lowered(g, run);
            let numbers = as_numbers(low);
            assert forall|i: nat| #[trigger] g.steps_at(low, word, i) by {
                lemma_lowered_run(g, run, word, i + 1);
            }
            lemma_lowered_run(g, run, word, 0);
            lemma_cell(0, g.start_state as int, m, n);
            assert(g.is_run(low, word));
            assert forall|from: nat| #[trigger] lifted_visits_from(g, numbers, from) by {
                assert(deg.accepting_from(run, from));
                let i = choose|i: nat| i >= from && #[trigger] deg.accepting(run(i));
                lemma_lowered_run(g, run, word, i);
                lemma_cell_of(run(i) as int, m, n);
                assert(lifted_accepting_at(g, numbers, i));
            }
            lemma_degeneralization(g, numbers);
            assert forall|set: int, from: nat| 0 <= set < g.end_sets.len() implies #[trigger] g.visits_from(
                low,
                set,
                from,
            ) by {
                assert(visits_from(g, numbers, set, from));
                let i = choose|i: nat| i >= from && #[trigger] in_set_at(g, numbers, set, i);
                lemma_lowered_run(g, run, word, i);
                assert(g.in_set_at(low, set, i));
            }
            assert(g.run_accepted(low));
        }
        if g.accepts(word) {
            let run = choose|run: spec_fn(nat) -> State| #[trigger] g.is_run(run, word) && g.run_accepted(run);
            let numbers = as_numbers(run);
            let high = lifted(g, run);
            assert forall|i: nat| #[trigger] deg.steps_at(high, word, i) by {
                assert(g.steps_at(run, word, i));
                assert(g.steps_at(run, word, i + 1));
                lemma_plane_bounds(g, numbers, i);
                lemma_plane_bounds(g, numbers, i + 1);
                let p = plane_at(g, numbers, i);
                lemma_cell(p, run(i) as int, m, n);
                lemma_cell(plane_at(g, numbers, i + 1), run(i + 1) as int, m, n);
                lemma_lifted_step(g, p, run(i) as int, word(i), high(i + 1));
                assert(g.transitions[run(i) as int].contains((word(i), run(i + 1))));
            }
            assert(g.steps_at(run, word, 0));
            lemma_cell(0, g.start_state as int, m, n);
            assert(deg.is_run(high, word));
            assert forall|set: int, from: nat| 0 <= set < m implies #[trigger] visits_from(g, numbers, set, from) by {
                assert(g.visits_from(run, set, from));
                let i = choose|i: nat| i >= from && #[trigger] g.in_set_at(run, set, i);
                assert(in_set_at(g, numbers, set, i));
            }
            assert(run_accepted(g, numbers));
            lemma_degeneralization(g, numbers);
            assert forall|from: nat| #[trigger] deg.accepting_from(high, from) by {
                assert(lifted_visits_from(g, numbers, from));
                let i = choose|i: nat| i >= from && #[trigger] lifted_accepting_at(g, numbers, i);
                assert(g.steps_at(run, word, i));
                lemma_cell(m - 1, run(i) as int, m, n);
                assert(deg.accepting(high(i)));
            }
        }
    }
}

} // verus!
