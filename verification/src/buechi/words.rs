//! Words, runs over them, and when an automaton accepts a word.

use crate::buechi::emptiness::{lemma_lasso_nonempty, lemma_path_join};
use crate::buechi::{BuechiView, GeneralizedBuechiView, State, Symbol};
use vstd::assert_by_contradiction;
use vstd::prelude::*;

verus! {

impl<T> BuechiView<T> {
    /// Whether `run` is a run over `word`: it starts in the initial state
    /// and goes, at each step, along an edge under the symbol of that step.
    pub open spec fn is_run(self, run: spec_fn(nat) -> State, word: spec_fn(nat) -> Symbol) -> bool {
        &&& run(0) == self.start_state
        &&& forall|i: nat| #[trigger] self.steps_at(run, word, i)
    }

    /// Whether `run` goes, at the step `i`, along an edge under the symbol of that step.
    pub open spec fn steps_at(self, run: spec_fn(nat) -> State, word: spec_fn(nat) -> Symbol, i: nat) -> bool {
        run(i) < self.transitions.len() && self.transitions[run(i) as int].contains((word(i), run(i + 1)))
    }

    /// Whether `run` is in an accepting state at the step `from` or later.
    pub open spec fn accepting_from(self, run: spec_fn(nat) -> State, from: nat) -> bool {
        exists|i: nat| i >= from && #[trigger] self.accepting(run(i))
    }

    /// Whether the automaton accepts `word`: some run over it visits an
    /// accepting state again and again.
    pub open spec fn accepts(self, word: spec_fn(nat) -> Symbol) -> bool {
        exists|run: spec_fn(nat) -> State|
            #[trigger] self.is_run(run, word) && forall|from: nat| #[trigger] self.accepting_from(run, from)
    }

    /// Whether the automaton accepts any word at all.
    pub open spec fn accepts_some(self) -> bool {
        exists|word: spec_fn(nat) -> Symbol| #[trigger] self.accepts(word)
    }
}

impl<T> GeneralizedBuechiView<T> {
    /// Whether `run` is a run over `word`: it starts in the initial state
    /// and goes, at each step, along an edge under the symbol of that step.
    pub open spec fn is_run(self, run: spec_fn(nat) -> State, word: spec_fn(nat) -> Symbol) -> bool {
        &&& run(0) == self.start_state
        &&& forall|i: nat| #[trigger] self.steps_at(run, word, i)
    }

    /// Whether `run` goes, at the step `i`, along an edge under the symbol of that step.
    pub open spec fn steps_at(self, run: spec_fn(nat) -> State, word: spec_fn(nat) -> Symbol, i: nat) -> bool {
        run(i) < self.transitions.len() && self.transitions[run(i) as int].contains((word(i), run(i + 1)))
    }

    /// Whether `run` is, at the step `i`, in a state of the accepting set `set`.
    pub open spec fn in_set_at(self, run: spec_fn(nat) -> State, set: int, i: nat) -> bool {
        run(i) < self.end_sets[set].len() && self.end_sets[set][run(i) as int]
    }

    /// Whether `run` is in a state of the accepting set `set` at the step `from` or later.
    pub open spec fn visits_from(self, run: spec_fn(nat) -> State, set: int, from: nat) -> bool {
        exists|i: nat| i >= from && #[trigger] self.in_set_at(run, set, i)
    }

    /// Whether `run` visits each accepting set again and again.
    pub open spec fn run_accepted(self, run: spec_fn(nat) -> State) -> bool {
        forall|set: int, from: nat| 0 <= set < self.end_sets.len() ==> #[trigger] self.visits_from(run, set, from)
    }

    /// Whether the automaton accepts `word`: some run over it visits each
    /// accepting set again and again.
    pub open spec fn accepts(self, word: spec_fn(nat) -> Symbol) -> bool {
        exists|run: spec_fn(nat) -> State| #[trigger] self.is_run(run, word) && self.run_accepted(run)
    }
}

/// The states of a run from step `from` to step `to`.
pub open spec fn stretch(run: spec_fn(nat) -> State, from: nat, to: nat) -> Seq<State> {
    Seq::new((to - from + 1) as nat, |t: int| run((from + t) as nat))
}

/// A stretch of a run is a walk.
pub proof fn lemma_stretch_is_path<T>(
    a: BuechiView<T>,
    run: spec_fn(nat) -> State,
    word: spec_fn(nat) -> Symbol,
    from: nat,
    to: nat,
)
    requires
        a.is_run(run, word),
        from <= to,
    ensures
        a.is_path(stretch(run, from, to)),
        stretch(run, from, to)[0] == run(from),
        stretch(run, from, to).last() == run(to),
        stretch(run, from, to).len() == to - from + 1,
{
    let path = stretch(run, from, to);
    assert forall|t: int| 0 <= t < path.len() - 1 implies a.step(#[trigger] path[t], path[t + 1]) by {
        let i = (from + t) as nat;
        assert(a.steps_at(run, word, i));
        let edges = a.transitions[run(i) as int];
        assert(edges.contains((word(i), run(i + 1))));
        let e = choose|e: int| 0 <= e < edges.len() && edges[e] == (word(i), run(i + 1));
        assert(edges[e].1 == run(i + 1));
        assert(path[t + 1] == run(i + 1));
    }
}

/// Whether, from the step `bound` on, the run is in none of the accepting
/// states below `m`.
pub open spec fn avoids_from<T>(a: BuechiView<T>, run: spec_fn(nat) -> State, m: nat, bound: nat) -> bool {
    forall|i: nat| i >= bound && a.accepting(#[trigger] run(i)) ==> run(i) >= m
}

/// Whether the run is in the state `s` at the step `from` or later.
pub open spec fn visits_state_from(run: spec_fn(nat) -> State, s: State, from: nat) -> bool {
    exists|i: nat| i >= from && #[trigger] run(i) == s
}

/// A run that visits accepting states again and again visits one of them
/// again and again, as there are only so many.
proof fn lemma_some_state_recurs<T>(a: BuechiView<T>, run: spec_fn(nat) -> State, m: nat) -> (r: (bool, State, nat))
    requires
        m <= a.end_set.len() <= u64::MAX,
    ensures
        r.0 ==> r.1 < m && a.accepting(r.1) && forall|from: nat| #[trigger] visits_state_from(run, r.1, from),
        !r.0 ==> avoids_from(a, run, m, r.2),
    decreases m,
{
    if m == 0 {
        (false, 0, 0)
    } else {
        let before = lemma_some_state_recurs(a, run, (m - 1) as nat);
        if before.0 {
            before
        } else {
            let s = (m - 1) as State;
            if a.accepting(s) && forall|from: nat| #[trigger] visits_state_from(run, s, from) {
                (true, s, 0)
            } else if !a.accepting(s) {
                assert forall|i: nat| i >= before.2 && a.accepting(#[trigger] run(i)) implies run(i) >= m by {
                    assert(run(i) >= m - 1);
                }
                (false, 0, before.2)
            } else {
                let from = choose|from: nat| !visits_state_from(run, s, from);
                let bound = if from >= before.2 {
                    from
                } else {
                    before.2
                };
                assert forall|i: nat| i >= bound && a.accepting(#[trigger] run(i)) implies run(i) >= m by {
                    assert(run(i) >= m - 1);
                    if run(i) == s {
                        assert(i >= from && run(i) == s);
                        assert(visits_state_from(run, s, from));
                    }
                }
                (false, 0, bound)
            }
        }
    }
}

/// An automaton that accepts a word has an accepting state that the
/// initial state reaches and that lies on a cycle.
pub proof fn lemma_accepts_nonempty<T>(a: BuechiView<T>, word: spec_fn(nat) -> Symbol)
    requires
        a.end_set.len() <= u64::MAX,
        a.accepts(word),
    ensures
        a.nonempty(),
{
    let run = choose|run: spec_fn(nat) -> State|
        #[trigger] a.is_run(run, word) && forall|from: nat| #[trigger] a.accepting_from(run, from);
    let found = lemma_some_state_recurs(a, run, a.end_set.len());
    assert_by_contradiction!(found.0, {
        assert(a.accepting_from(run, found.2));
        let i = choose|i: nat| i >= found.2 && #[trigger] a.accepting(run(i));
        assert(run(i) >= a.end_set.len());
    });
    let s = found.1;
    assert(visits_state_from(run, s, 0));
    let first = choose|i: nat| i >= 0 && #[trigger] run(i) == s;
    assert(visits_state_from(run, s, first + 1));
    let second = choose|i: nat| i >= first + 1 && #[trigger] run(i) == s;
    lemma_stretch_is_path(a, run, word, 0, first);
    lemma_stretch_is_path(a, run, word, first, second);
    assert(a.reaches(a.start_state, s));
    assert(a.on_cycle(s));
}

/// The run that follows a lasso: along the stem to the entry of the loop,
/// and then round the loop for ever.
pub open spec fn run_along(lasso: Seq<State>, entry: int) -> spec_fn(nat) -> State {
    |i: nat|
        if i < entry {
            lasso[i as int]
        } else {
            lasso[entry + (i - entry) % (lasso.len() - 1 - entry)]
        }
}

/// The symbol under which the automaton steps from `from` to `to`, if it does.
pub open spec fn symbol_between<T>(a: BuechiView<T>, from: State, to: State) -> Symbol {
    choose|symbol: Symbol| a.transitions[from as int].contains((symbol, to))
}

/// Where the automaton steps from `from` to `to`, it does so under that symbol.
pub proof fn lemma_symbol_between<T>(a: BuechiView<T>, from: State, to: State)
    requires
        a.step(from, to),
    ensures
        a.transitions[from as int].contains((symbol_between(a, from, to), to)),
{
    let e = choose|e: int| 0 <= e < a.transitions[from as int].len() && (#[trigger] a.transitions[from as int][e]).1 == to;
    let edge = a.transitions[from as int][e];
    assert(edge == (edge.0, to));
    assert(a.transitions[from as int].contains((edge.0, to)));
}

/// The word that is read along a run.
pub open spec fn word_along<T>(a: BuechiView<T>, run: spec_fn(nat) -> State) -> spec_fn(nat) -> Symbol {
    |i: nat| symbol_between(a, run(i), run(i + 1))
}

/// The run along a lasso is, at each step, at some place of the lasso, and
/// at the next step at the next place; at the end of the loop it is at its
/// entry again.
proof fn lemma_run_along_step(lasso: Seq<State>, entry: int, i: nat) -> (at: int)
    requires
        0 <= entry < lasso.len() - 1,
        lasso[entry] == lasso.last(),
    ensures
        0 <= at < lasso.len() - 1,
        run_along(lasso, entry)(i) == lasso[at],
        run_along(lasso, entry)(i + 1) == lasso[at + 1],
{
    let run = run_along(lasso, entry);
    let period = lasso.len() - 1 - entry;
    if i + 1 < entry {
        i as int
    } else if i + 1 == entry {
        vstd::arithmetic::div_mod::lemma_small_mod(0, period as nat);
        i as int
    } else {
        let offset = (i - entry) % period;
        let rounds = (i - entry) / period;
        vstd::arithmetic::div_mod::lemma_fundamental_div_mod(i - entry, period);
        vstd::arithmetic::div_mod::lemma_mod_pos_bound(i - entry, period);
        assert(period * rounds == rounds * period) by (nonlinear_arith);
        if offset + 1 < period {
            vstd::arithmetic::div_mod::lemma_fundamental_div_mod_converse_mod(
                i + 1 - entry,
                period,
                rounds,
                offset + 1,
            );
        } else {
            assert((rounds + 1) * period == rounds * period + period) by (nonlinear_arith);
            vstd::arithmetic::div_mod::lemma_fundamental_div_mod_converse_mod(i + 1 - entry, period, rounds + 1, 0);
        }
        entry + offset
    }
}

/// The run along a lasso is at the entry of the loop after each full round.
proof fn lemma_run_along_entry(lasso: Seq<State>, entry: int, rounds: nat) -> (i: nat)
    requires
        0 <= entry < lasso.len() - 1,
    ensures
        i >= rounds,
        run_along(lasso, entry)(i) == lasso[entry],
{
    let period = lasso.len() - 1 - entry;
    let i = (entry + rounds * period) as nat;
    assert(rounds * period >= rounds) by (nonlinear_arith)
        requires
            period >= 1,
    ;
    vstd::arithmetic::div_mod::lemma_fundamental_div_mod_converse_mod(rounds * period, period, rounds as int, 0);
    i
}

/// An automaton with a lasso accepts the word that is read along the
/// lasso: along its stem, and then round its loop for ever.
pub proof fn lemma_lasso_accepted<T>(a: BuechiView<T>, lasso: Seq<State>, entry: int)
    requires
        a.is_lasso(lasso, entry),
    ensures
        a.accepts(word_along(a, run_along(lasso, entry))),
        a.is_run(run_along(lasso, entry), word_along(a, run_along(lasso, entry))),
{
    let run = run_along(lasso, entry);
    let word = word_along(a, run);
    assert forall|i: nat| #[trigger] a.steps_at(run, word, i) by {
        let at = lemma_run_along_step(lasso, entry, i);
        assert(a.step(lasso[at], lasso[at + 1]));
        lemma_symbol_between(a, run(i), run(i + 1));
        assert(word(i) == symbol_between(a, run(i), run(i + 1)));
    }
    if entry == 0 {
        vstd::arithmetic::div_mod::lemma_small_mod(0, (lasso.len() - 1) as nat);
    }
    assert(run(0) == a.start_state);
    assert(a.is_run(run, word));
    assert forall|from: nat| #[trigger] a.accepting_from(run, from) by {
        let i = lemma_run_along_entry(lasso, entry, from);
        assert(a.accepting(run(i)));
    }
}

/// An automaton accepts some word just where it has an accepting state that
/// the initial state reaches and that lies on a cycle.
pub proof fn lemma_nonempty_language<T>(a: BuechiView<T>)
    requires
        a.end_set.len() <= u64::MAX,
    ensures
        a.nonempty() <==> a.accepts_some(),
{
    if a.nonempty() {
        let s = choose|s: State| a.accepting(s) && a.reaches(a.start_state, s) && a.on_cycle(s);
        let stem = choose|path: Seq<State>| a.is_path(path) && path[0] == a.start_state && path.last() == s;
        let cycle = choose|path: Seq<State>| a.is_path(path) && path.len() >= 2 && path[0] == s && path.last() == s;
        lemma_path_join(a, stem, cycle);
        let lasso = stem + cycle.drop_first();
        assert(lasso[stem.len() - 1] == stem[stem.len() - 1]);
        assert(a.is_lasso(lasso, stem.len() - 1));
        lemma_lasso_accepted(a, lasso, stem.len() - 1);
        assert(a.accepts(word_along(a, run_along(lasso, stem.len() - 1))));
    }
    if a.accepts_some() {
        let word = choose|word: spec_fn(nat) -> Symbol| #[trigger] a.accepts(word);
        lemma_accepts_nonempty(a, word);
    }
}

} // verus!
