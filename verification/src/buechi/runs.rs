//! Runs of a generalized automaton and of the automaton with a single
//! accepting set that is made of it.

use crate::buechi::transitions::pushed_once;
use crate::buechi::{lemma_cell, lifted_edges, GeneralizedBuechiView, State, Symbol};
use vstd::prelude::*;

verus! {

/// The plane on which the lifted run is at step `i`: it starts on the first
/// plane and goes on to the next, cyclically, whenever it leaves a state of
/// the accepting set of its plane.
pub open spec fn plane_at<T>(g: GeneralizedBuechiView<T>, run: spec_fn(nat) -> int, i: nat) -> int
    decreases i,
{
    if i == 0 {
        0
    } else {
        g.target_plane(plane_at(g, run, (i - 1) as nat), run((i - 1) as nat))
    }
}

/// Whether the run is, at step `i`, in a state of the accepting set `j`.
pub open spec fn in_set_at<T>(g: GeneralizedBuechiView<T>, run: spec_fn(nat) -> int, j: int, i: nat) -> bool {
    g.end_sets[j][run(i)]
}

/// Whether the run is in a state of the accepting set `j` at the step `from` or later.
pub open spec fn visits_from<T>(g: GeneralizedBuechiView<T>, run: spec_fn(nat) -> int, j: int, from: nat) -> bool {
    exists|i: nat| i >= from && #[trigger] in_set_at(g, run, j, i)
}

/// Whether the run visits each accepting set again and again.
pub open spec fn run_accepted<T>(g: GeneralizedBuechiView<T>, run: spec_fn(nat) -> int) -> bool {
    forall|j: int, from: nat| 0 <= j < g.end_sets.len() ==> #[trigger] visits_from(g, run, j, from)
}

/// Whether the lifted run is, at step `i`, in an accepting state: on the
/// last plane, in a state of the last accepting set.
pub open spec fn lifted_accepting_at<T>(g: GeneralizedBuechiView<T>, run: spec_fn(nat) -> int, i: nat) -> bool {
    plane_at(g, run, i) == g.end_sets.len() - 1 && g.end_sets[g.end_sets.len() - 1][run(i)]
}

/// Whether the lifted run is in an accepting state at the step `from` or later.
pub open spec fn lifted_visits_from<T>(g: GeneralizedBuechiView<T>, run: spec_fn(nat) -> int, from: nat) -> bool {
    exists|i: nat| i >= from && #[trigger] lifted_accepting_at(g, run, i)
}

/// Whether the lifted run visits an accepting state again and again.
pub open spec fn lifted_accepted<T>(g: GeneralizedBuechiView<T>, run: spec_fn(nat) -> int) -> bool {
    forall|from: nat| #[trigger] lifted_visits_from(g, run, from)
}

/// The plane of a lifted run is one of the planes, and the next plane is the
/// same or the one after it.
pub proof fn lemma_plane_bounds<T>(g: GeneralizedBuechiView<T>, run: spec_fn(nat) -> int, i: nat)
    requires
        g.end_sets.len() >= 2,
    ensures
        0 <= plane_at(g, run, i) < g.end_sets.len(),
        plane_at(g, run, i + 1) == if g.end_sets[plane_at(g, run, i)][run(i)] {
            if plane_at(g, run, i) == g.end_sets.len() - 1 {
                0
            } else {
                plane_at(g, run, i) + 1
            }
        } else {
            plane_at(g, run, i)
        },
    decreases i,
{
    let m = g.end_sets.len() as int;
    if i > 0 {
        lemma_plane_bounds(g, run, (i - 1) as nat);
    }
    let p = plane_at(g, run, i);
    assert(0 <= p < m);
    if p == m - 1 {
        vstd::arithmetic::div_mod::lemma_mod_self_0(m);
    } else {
        vstd::arithmetic::div_mod::lemma_small_mod((p + 1) as nat, m as nat);
    }
    assert(plane_at(g, run, (i + 1) as nat) == g.target_plane(plane_at(g, run, i), run(i)));
}

/// A run that visits the accepting set of its plane at some later step is,
/// at some step in between, on that plane and in that set.
proof fn lemma_leaves_plane<T>(g: GeneralizedBuechiView<T>, run: spec_fn(nat) -> int, t: nat, later: nat) -> (at: nat)
    requires
        g.end_sets.len() >= 2,
        t <= later,
        g.end_sets[plane_at(g, run, t)][run(later)],
    ensures
        t <= at <= later,
        plane_at(g, run, at) == plane_at(g, run, t),
        g.end_sets[plane_at(g, run, t)][run(at)],
    decreases later - t,
{
    lemma_plane_bounds(g, run, t);
    if g.end_sets[plane_at(g, run, t)][run(t)] {
        t
    } else {
        lemma_leaves_plane(g, run, t + 1, later)
    }
}

/// A run that visits each accepting set again and again comes, from any
/// step on, to an accepting state of the lifted run.
proof fn lemma_reaches_last_plane<T>(g: GeneralizedBuechiView<T>, run: spec_fn(nat) -> int, t: nat) -> (at: nat)
    requires
        g.end_sets.len() >= 2,
        run_accepted(g, run),
    ensures
        at >= t,
        lifted_accepting_at(g, run, at),
    decreases g.end_sets.len() - plane_at(g, run, t),
{
    lemma_plane_bounds(g, run, t);
    let p = plane_at(g, run, t);
    assert(visits_from(g, run, p, t));
    let later = choose|i: nat| i >= t && #[trigger] in_set_at(g, run, p, i);
    let at = lemma_leaves_plane(g, run, t, later);
    if p == g.end_sets.len() - 1 {
        at
    } else {
        lemma_plane_bounds(g, run, at);
        lemma_reaches_last_plane(g, run, at + 1)
    }
}

/// A lifted run that is on a plane up to `j` at step `a` and on a plane
/// beyond `j` at the later step `b` is, at some step in between, on the
/// plane `j` and in the accepting set `j`.
proof fn lemma_passes_plane<T>(g: GeneralizedBuechiView<T>, run: spec_fn(nat) -> int, j: int, a: nat, b: nat) -> (at: nat)
    requires
        g.end_sets.len() >= 2,
        a <= b,
        plane_at(g, run, a) <= j < plane_at(g, run, b),
    ensures
        a <= at < b,
        g.end_sets[j][run(at)],
    decreases b - a,
{
    lemma_plane_bounds(g, run, a);
    lemma_plane_bounds(g, run, b);
    if plane_at(g, run, a) == j && g.end_sets[j][run(a)] {
        a
    } else {
        lemma_passes_plane(g, run, j, a + 1, b)
    }
}

/// An automaton with several accepting sets accepts a run just where the
/// automaton with a single accepting set accepts the lifted run: the run
/// visits each accepting set again and again just where the lifted run is
/// again and again on the last plane in a state of the last accepting set.
pub proof fn lemma_degeneralization<T>(g: GeneralizedBuechiView<T>, run: spec_fn(nat) -> int)
    requires
        g.end_sets.len() >= 2,
    ensures
        run_accepted(g, run) <==> lifted_accepted(g, run),
{
    let m = g.end_sets.len() as int;
    if run_accepted(g, run) {
        assert forall|from: nat| #[trigger] lifted_visits_from(g, run, from) by {
            let at = lemma_reaches_last_plane(g, run, from);
            assert(at >= from && lifted_accepting_at(g, run, at));
        }
    }
    if lifted_accepted(g, run) {
        assert forall|j: int, from: nat| 0 <= j < m implies #[trigger] visits_from(g, run, j, from) by {
            assert(lifted_visits_from(g, run, from));
            let first = choose|i: nat| i >= from && #[trigger] lifted_accepting_at(g, run, i);
            if j == m - 1 {
                assert(first >= from && in_set_at(g, run, j, first));
            } else {
                lemma_plane_bounds(g, run, first);
                let start = (first + 1) as nat;
                assert(lifted_visits_from(g, run, start));
                let second = choose|i: nat| i >= start && #[trigger] lifted_accepting_at(g, run, i);
                let at = lemma_passes_plane(g, run, j, start, second);
                assert(at >= from && in_set_at(g, run, j, at));
            }
        }
    }
}

/// The lifted edges are just the edges, each led into the copy of its target.
pub proof fn lemma_lifted_edges(edges: Seq<(Symbol, State)>, shift: int, k: nat, symbol: Symbol, to: State)
    requires
        k <= edges.len(),
        0 <= shift,
        forall|e: int| 0 <= e < edges.len() ==> shift + (#[trigger] edges[e]).1 <= u64::MAX,
    ensures
        lifted_edges(edges, shift, k).contains((symbol, to)) <==> exists|e: int|
            0 <= e < k && #[trigger] edges[e] == (symbol, (to - shift) as State) && to >= shift,
    decreases k,
{
    if k > 0 {
        lemma_lifted_edges(edges, shift, (k - 1) as nat, symbol, to);
        let before = lifted_edges(edges, shift, (k - 1) as nat);
        let new_edge = (edges[k - 1].0, (shift + edges[k - 1].1) as State);
        let now = pushed_once(before, new_edge);
        if before.contains(new_edge) {
            if new_edge == (symbol, to) {
                assert(edges[k - 1] == (symbol, (to - shift) as State));
            }
        } else {
            assert(now == before.push(new_edge));
            if now.contains((symbol, to)) {
                let at = choose|at: int| 0 <= at < now.len() && now[at] == (symbol, to);
                if at < before.len() {
                    assert(before[at] == (symbol, to));
                } else {
                    assert(edges[k - 1] == (symbol, (to - shift) as State));
                }
            }
            if before.contains((symbol, to)) {
                let at = choose|at: int| 0 <= at < before.len() && before[at] == (symbol, to);
                assert(now[at] == (symbol, to));
            }
            assert(now[now.len() - 1] == new_edge);
        }
        if exists|e: int| 0 <= e < k && #[trigger] edges[e] == (symbol, (to - shift) as State) && to >= shift {
            let e = choose|e: int| 0 <= e < k && #[trigger] edges[e] == (symbol, (to - shift) as State) && to >= shift;
            if e == k - 1 {
                assert(new_edge == (symbol, to));
            }
        }
    }
}

/// The lifted run follows the edges of the automaton with a single
/// accepting set: where the automaton with several has an edge from the
/// state `s` to the state `target`, the other has one, under the same symbol,
/// from the copy of `s` on the plane `p` to the copy of `target` on the plane
/// that a run goes on in from there; and it has no other edges.
pub proof fn lemma_lifted_step<T>(g: GeneralizedBuechiView<T>, p: int, s: int, symbol: Symbol, to: State)
    requires
        g.well_formed(),
        g.end_sets.len() >= 2,
        g.end_sets.len() * g.state_infos.len() <= u64::MAX,
        0 <= p < g.end_sets.len(),
        0 <= s < g.state_infos.len(),
    ensures
        ({
            let n = g.state_infos.len() as int;
            let next = g.target_plane(p, s);
            g.degeneralized().transitions[p * n + s].contains((symbol, to)) <==> exists|target: State| #[trigger]
                g.transitions[s].contains((symbol, target)) && to == next * n + target
        }),
{
    let n = g.state_infos.len() as int;
    let m = g.end_sets.len() as int;
    let next = g.target_plane(p, s);
    lemma_cell(p, s, m, n);
    if g.end_sets[p][s] {
        if p == m - 1 {
            vstd::arithmetic::div_mod::lemma_mod_self_0(m);
        } else {
            vstd::arithmetic::div_mod::lemma_small_mod((p + 1) as nat, m as nat);
        }
    }
    assert(0 <= next < m);
    let edges = g.transitions[s];
    assert forall|e: int| 0 <= e < edges.len() implies next * n + (#[trigger] edges[e]).1 <= u64::MAX by {
        assert(g.transitions[s][e].1 < n);
        lemma_cell(next, edges[e].1 as int, m, n);
    }
    lemma_lifted_edges(edges, next * n, edges.len(), symbol, to);
    let lifted = g.degeneralized().transitions[p * n + s];
    assert(lifted == lifted_edges(edges, next * n, edges.len()));
    if lifted.contains((symbol, to)) {
        let e = choose|e: int|
            0 <= e < edges.len() && #[trigger] edges[e] == (symbol, (to - next * n) as State) && to >= next * n;
        assert(g.transitions[s][e].1 < n);
        assert(edges.contains((symbol, (to - next * n) as State)));
    }
    if exists|target: State| #[trigger] g.transitions[s].contains((symbol, target)) && to == next * n + target {
        let target = choose|target: State| #[trigger] g.transitions[s].contains((symbol, target)) && to == next * n + target;
        let e = choose|e: int| 0 <= e < edges.len() && edges[e] == (symbol, target);
        assert(edges[e] == (symbol, (to - next * n) as State));
    }
}

} // verus!
