//! Whether an automaton accepts any word at all, decided by a nested
//! depth-first search: an outer search leaves the states in post-order, and
//! from each accepting state that it leaves an inner search looks for a way
//! back to that state.

use crate::bits::{bit_seq, bits_from_elem, bits_get, bits_set};
use crate::buechi::transitions::targets_of;
use crate::buechi::{Buechi, BuechiView, State, Symbol};
use bit_vec::BitVec;
use vstd::assert_by_contradiction;
use vstd::prelude::*;

verus! {

impl<T> BuechiView<T> {
    /// Whether `path` is a walk along edges: it holds a state, and an edge
    /// leads from each of its states to the next.
    pub open spec fn is_path(self, path: Seq<State>) -> bool {
        &&& path.len() > 0
        &&& forall|i: int| 0 <= i < path.len() - 1 ==> self.step(#[trigger] path[i], path[i + 1])
    }

    /// Whether a walk leads from `from` to `to`; the walk may be without an edge.
    pub open spec fn reaches(self, from: State, to: State) -> bool {
        exists|path: Seq<State>| self.is_path(path) && path[0] == from && path.last() == to
    }

    /// Whether a walk of at least one edge leads from `s` back to `s`.
    pub open spec fn on_cycle(self, s: State) -> bool {
        exists|path: Seq<State>| self.is_path(path) && path.len() >= 2 && path[0] == s && path.last() == s
    }

    /// Whether `s` is an accepting state.
    pub open spec fn accepting(self, s: State) -> bool {
        s < self.end_set.len() && self.end_set[s as int]
    }

    /// Whether `lasso` is a walk from the initial state that ends where it
    /// was before, at position `entry`, in an accepting state: what lies
    /// before `entry` is the stem, what follows is the loop.
    pub open spec fn is_lasso(self, lasso: Seq<State>, entry: int) -> bool {
        &&& self.is_path(lasso)
        &&& lasso[0] == self.start_state
        &&& 0 <= entry < lasso.len() - 1
        &&& lasso[entry] == lasso.last()
        &&& self.accepting(lasso[entry])
    }

    /// Whether the automaton accepts some word: from the initial state a
    /// walk leads to an accepting state that lies on a cycle.
    pub open spec fn nonempty(self) -> bool {
        exists|s: State| self.accepting(s) && self.reaches(self.start_state, s) && self.on_cycle(s)
    }
}

/// What was pushed on `stack` from position `from` on, last pushed first.
pub open spec fn unwound(stack: Seq<State>, from: int) -> Seq<State> {
    Seq::new((stack.len() - from) as nat, |i: int| stack[stack.len() - 1 - i])
}

/// The number of bits that are clear.
pub open spec fn unmarked(bits: Seq<bool>) -> nat
    decreases bits.len(),
{
    if bits.len() == 0 {
        0
    } else {
        unmarked(bits.drop_last()) + if bits.last() {
            0nat
        } else {
            1nat
        }
    }
}

/// Setting a clear bit leaves one clear bit less.
pub proof fn lemma_mark(bits: Seq<bool>, i: int)
    requires
        0 <= i < bits.len(),
        !bits[i],
    ensures
        unmarked(bits.update(i, true)) + 1 == unmarked(bits),
    decreases bits.len(),
{
    let after = bits.update(i, true);
    if i == bits.len() - 1 {
        assert(after.drop_last() =~= bits.drop_last());
    } else {
        lemma_mark(bits.drop_last(), i);
        assert(after.drop_last() =~= bits.drop_last().update(i, true));
    }
}

/// Where bits are only ever set, no more bits are clear than before.
pub proof fn lemma_marks_grow(before: Seq<bool>, after: Seq<bool>)
    requires
        before.len() == after.len(),
        forall|i: int| 0 <= i < before.len() && before[i] ==> after[i],
    ensures
        unmarked(after) <= unmarked(before),
    decreases before.len(),
{
    if before.len() > 0 {
        assert forall|i: int| 0 <= i < before.drop_last().len() && before.drop_last()[i] implies after.drop_last()[i] by {
            assert(before[i] ==> after[i]);
        }
        lemma_marks_grow(before.drop_last(), after.drop_last());
        assert(before[before.len() - 1] ==> after[after.len() - 1]);
    }
}

/// The targets of a state's edges are just the states that an edge leads to.
pub proof fn lemma_targets_of(edges: Seq<(Symbol, State)>, to: State)
    ensures
        targets_of(edges).contains(to) <==> exists|i: int| 0 <= i < edges.len() && (#[trigger] edges[i]).1 == to,
    decreases edges.len(),
{
    if edges.len() > 0 {
        let front = edges.drop_last();
        lemma_targets_of(front, to);
        let before = targets_of(front);
        let now = targets_of(edges);
        if now.contains(to) {
            if before.contains(to) {
                let i = choose|i: int| 0 <= i < front.len() && (#[trigger] front[i]).1 == to;
                assert(edges[i].1 == to);
            } else {
                let at = choose|at: int| 0 <= at < now.len() && now[at] == to;
                if at < before.len() {
                    assert(before[at] == to);
                }
                assert(edges[edges.len() - 1].1 == to);
            }
        }
        if exists|i: int| 0 <= i < edges.len() && (#[trigger] edges[i]).1 == to {
            let i = choose|i: int| 0 <= i < edges.len() && (#[trigger] edges[i]).1 == to;
            if i < front.len() {
                assert(front[i].1 == to);
                let at = choose|at: int| 0 <= at < before.len() && before[at] == to;
                assert(now[at] == to);
            } else {
                if before.contains(edges.last().1) {
                } else {
                    assert(now[now.len() - 1] == to);
                }
            }
        }
    }
}

/// A walk with a state in front of it, from which an edge leads to its first state, is a walk.
pub proof fn lemma_path_extend<T>(a: BuechiView<T>, q: State, path: Seq<State>)
    requires
        a.is_path(path),
        a.step(q, path[0]),
    ensures
        a.is_path(seq![q] + path),
{
    let longer = seq![q] + path;
    assert forall|i: int| 0 <= i < longer.len() - 1 implies a.step(#[trigger] longer[i], longer[i + 1]) by {
        if i > 0 {
            assert(longer[i] == path[i - 1]);
            assert(longer[i + 1] == path[i]);
            assert(a.step(path[i - 1], path[i - 1 + 1]));
        } else {
            assert(longer[1] == path[0]);
        }
    }
}

/// Two walks, the second of which begins where the first ends, make one walk.
pub proof fn lemma_path_join<T>(a: BuechiView<T>, first: Seq<State>, second: Seq<State>)
    requires
        a.is_path(first),
        a.is_path(second),
        first.last() == second[0],
    ensures
        a.is_path(first + second.drop_first()),
        (first + second.drop_first())[0] == first[0],
        (first + second.drop_first()).last() == second.last(),
{
    let joined = first + second.drop_first();
    assert forall|i: int| 0 <= i < joined.len() - 1 implies a.step(#[trigger] joined[i], joined[i + 1]) by {
        if i < first.len() - 1 {
            assert(joined[i] == first[i]);
            assert(joined[i + 1] == first[i + 1]);
        } else {
            let j = i - first.len() + 1;
            assert(joined[i] == second[j]);
            assert(joined[i + 1] == second[j + 1]);
            assert(a.step(second[j], second[j + 1]));
        }
    }
}

/// A set of states that holds `from` and, with each of its states, every
/// state that an edge leads to, holds every state that a walk from `from` leads to.
pub proof fn lemma_closed_holds_reachable<T>(a: BuechiView<T>, marks: Seq<bool>, path: Seq<State>)
    requires
        a.is_path(path),
        path[0] < marks.len(),
        marks[path[0] as int],
        forall|x: State, t: State| x < marks.len() && marks[x as int] && #[trigger] a.step(x, t) ==> t < marks.len() && marks[t as int],
    ensures
        forall|i: int| 0 <= i < path.len() ==> (#[trigger] path[i]) < marks.len() && marks[path[i] as int],
{
    assert forall|i: int| 0 <= i < path.len() implies (#[trigger] path[i]) < marks.len() && marks[path[i] as int] by {
        lemma_closed_prefix(a, marks, path, i);
    }
}

proof fn lemma_closed_prefix<T>(a: BuechiView<T>, marks: Seq<bool>, path: Seq<State>, i: int)
    requires
        a.is_path(path),
        path[0] < marks.len(),
        marks[path[0] as int],
        forall|x: State, t: State| x < marks.len() && marks[x as int] && #[trigger] a.step(x, t) ==> t < marks.len() && marks[t as int],
        0 <= i < path.len(),
    ensures
        path[i] < marks.len() && marks[path[i] as int],
    decreases i,
{
    if i > 0 {
        lemma_closed_prefix(a, marks, path, i - 1);
        assert(a.step(path[i - 1], path[i - 1 + 1]));
    }
}

/// What the search keeps: the walk found, last state first, and the states
/// that the inner and the outer search have come to.
pub struct EmptinessStruct {
    stack: Vec<State>,
    inner: BitVec,
    outer_begun: BitVec,
}

/// Pushing a state puts it in front of what was pushed before.
proof fn lemma_unwound_push(stack: Seq<State>, from: int, q: State)
    requires
        0 <= from <= stack.len(),
    ensures
        unwound(stack.push(q), from) == seq![q] + unwound(stack, from),
{
    assert(unwound(stack.push(q), from) =~= seq![q] + unwound(stack, from));
}

impl<T> Buechi<T> {
    /// The inner search: looks from `q` for a walk to `seed` over states
    /// that it has not come to before. Where it finds one, the walk from
    /// `q` on is pushed on the stack, last state first.
    fn dfs_cycle(&self, s: &mut EmptinessStruct, seed: State, q: State) -> (found: bool)
        requires
            q < self@.state_infos.len(),
            seed < self@.state_infos.len(),
            bit_seq(old(s).inner).len() == self@.state_infos.len(),
            !bit_seq(old(s).inner)[q as int],
        ensures
            bit_seq(final(s).inner).len() == self@.state_infos.len(),
            final(s).outer_begun == old(s).outer_begun,
            forall|x: int| 0 <= x < self@.state_infos.len() && bit_seq(old(s).inner)[x] ==> bit_seq(final(s).inner)[x],
            final(s).stack@.len() >= old(s).stack@.len(),
            final(s).stack@.take(old(s).stack@.len() as int) == old(s).stack@,
            found ==> ({
                let path = unwound(final(s).stack@, old(s).stack@.len() as int);
                self@.is_path(path) && path.len() >= 2 && path[0] == q && path.last() == seed
            }),
            !found ==> final(s).stack@ == old(s).stack@ && bit_seq(final(s).inner)[q as int] && forall|
                x: State,
                t: State,
            |
                x < self@.state_infos.len() && bit_seq(final(s).inner)[x as int] && !bit_seq(old(s).inner)[x as int]
                    && #[trigger] self@.step(x, t) ==> t != seed && t < self@.state_infos.len() && bit_seq(
                    final(s).inner,
                )[t as int],
        decreases unmarked(bit_seq(old(s).inner)),
    {
        let ghost a = self@;
        let ghost n = self@.state_infos.len();
        let ghost entry = bit_seq(s.inner);
        let ghost stack0 = s.stack@;
        let edges = self.transitions();
        let amount = self.state_infos().len();
        bits_set(&mut s.inner, q as usize, true);
        proof {
            lemma_mark(entry, q as int);
        }
        let next = edges.get_next_states_from_state(q);
        let mut i: usize = 0;
        while i < next.len()
            invariant
                i <= next@.len(),
                a == self@,
                a.well_formed(),
                n == a.state_infos.len(),
                amount == n,
                q < n,
                seed < n,
                edges@ == a.transitions,
                next@ == targets_of(a.transitions[q as int]),
                entry.len() == n,
                bit_seq(s.inner).len() == n,
                bit_seq(s.inner)[q as int],
                s.outer_begun == old(s).outer_begun,
                s.stack@ == stack0,
                stack0 == old(s).stack@,
                entry == bit_seq(old(s).inner),
                forall|x: int| 0 <= x < n && entry[x] ==> bit_seq(s.inner)[x],
                unmarked(bit_seq(s.inner)) < unmarked(entry),
                forall|x: State, t: State|
                    x < n && x != q && bit_seq(s.inner)[x as int] && !entry[x as int] && #[trigger] a.step(x, t)
                        ==> t != seed && t < n && bit_seq(s.inner)[t as int],
                forall|k: int| 0 <= k < i ==> next@[k] != seed && next@[k] < n && bit_seq(s.inner)[next@[k] as int],
            decreases next@.len() - i,
        {
            let t = next[i];
            proof {
                lemma_targets_of(a.transitions[q as int], t);
                assert(next@[i as int] == t);
                assert(next@.contains(t));
                let e = choose|e: int| 0 <= e < a.transitions[q as int].len() && (#[trigger] a.transitions[q as int][e]).1 == t;
                assert(a.transitions[q as int][e].1 < n);
                assert(a.step(q, t));
            }
            if t == seed {
                s.stack.push(t);
                s.stack.push(q);
                proof {
                    let path = unwound(s.stack@, stack0.len() as int);
                    assert(path =~= seq![q, t]);
                    assert(s.stack@.take(stack0.len() as int) =~= stack0);
                    assert(a.is_path(path)) by {
                        assert forall|j: int| 0 <= j < path.len() - 1 implies a.step(#[trigger] path[j], path[j + 1]) by {
                            assert(j == 0);
                        }
                    }
                }
                return true;
            }
            if let Some(false) = bits_get(&s.inner, t as usize) {
                let ghost before = bit_seq(s.inner);
                if self.dfs_cycle(s, seed, t) {
                    let ghost found_stack = s.stack@;
                    s.stack.push(q);
                    proof {
                        lemma_unwound_push(found_stack, stack0.len() as int, q);
                        let path = unwound(found_stack, stack0.len() as int);
                        lemma_path_extend(a, q, path);
                        assert((seq![q] + path).last() == path.last());
                        assert(s.stack@.take(stack0.len() as int) =~= found_stack.take(stack0.len() as int));
                    }
                    return true;
                }
                proof {
                    lemma_marks_grow(before, bit_seq(s.inner));
                    assert forall|x: State, t2: State|
                        x < n && x != q && bit_seq(s.inner)[x as int] && !entry[x as int] && #[trigger] a.step(
                            x,
                            t2,
                        ) implies t2 != seed && t2 < n && bit_seq(s.inner)[t2 as int] by {
                        if before[x as int] {
                            assert(before[t2 as int]);
                        }
                    }
                    assert forall|k: int| 0 <= k < i + 1 implies next@[k] != seed && next@[k] < n && bit_seq(
                        s.inner,
                    )[next@[k] as int] by {
                        if k < i {
                            assert(before[next@[k] as int]);
                        }
                    }
                }
            }
            i = i + 1;
        }
        proof {
            assert forall|x: State, t: State|
                x < n && bit_seq(s.inner)[x as int] && !entry[x as int] && #[trigger] a.step(x, t) implies t != seed
                && t < n && bit_seq(s.inner)[t as int] by {
                if x == q {
                    let e = choose|e: int|
                        0 <= e < a.transitions[q as int].len() && (#[trigger] a.transitions[q as int][e]).1 == t;
                    lemma_targets_of(a.transitions[q as int], t);
                    let k = choose|k: int| 0 <= k < next@.len() && next@[k] == t;
                    assert(next@[k] != seed);
                }
            }
        }
        false
    }

    /// The outer search: goes from `q` to every state that it has not come
    /// to before and, as it leaves an accepting state, lets the inner search
    /// look for a way back to it. Where that finds one, the walk from `q`
    /// on is pushed on the stack, last state first: it ends where it was
    /// before, in an accepting state.
    fn dfs(&self, s: &mut EmptinessStruct, q: State) -> (found: bool)
        requires
            q < self@.state_infos.len(),
            bit_seq(old(s).outer_begun).len() == self@.state_infos.len(),
            !bit_seq(old(s).outer_begun)[q as int],
        ensures
            bit_seq(final(s).outer_begun).len() == self@.state_infos.len(),
            forall|x: int|
                0 <= x < self@.state_infos.len() && bit_seq(old(s).outer_begun)[x] ==> bit_seq(final(s).outer_begun)[x],
            final(s).stack@.len() >= old(s).stack@.len(),
            final(s).stack@.take(old(s).stack@.len() as int) == old(s).stack@,
            found ==> ({
                let path = unwound(final(s).stack@, old(s).stack@.len() as int);
                self@.is_path(path) && path[0] == q && exists|entry: int|
                    0 <= entry < path.len() - 1 && #[trigger] path[entry] == path.last() && self@.accepting(path[entry])
            }),
            !found ==> final(s).stack@ == old(s).stack@ && bit_seq(final(s).outer_begun)[q as int] && (forall|
                x: State,
                t: State,
            |
                x < self@.state_infos.len() && bit_seq(final(s).outer_begun)[x as int] && !bit_seq(
                    old(s).outer_begun,
                )[x as int] && #[trigger] self@.step(x, t) ==> t < self@.state_infos.len() && bit_seq(
                    final(s).outer_begun,
                )[t as int]) && (forall|x: State|
                x < self@.state_infos.len() && bit_seq(final(s).outer_begun)[x as int] && !bit_seq(
                    old(s).outer_begun,
                )[x as int] && self@.accepting(x) ==> !#[trigger] self@.on_cycle(x)),
        decreases unmarked(bit_seq(old(s).outer_begun)),
    {
        let ghost a = self@;
        let ghost n = self@.state_infos.len();
        let ghost entry = bit_seq(s.outer_begun);
        let ghost stack0 = s.stack@;
        let edges = self.transitions();
        let amount = self.state_infos().len();
        bits_set(&mut s.outer_begun, q as usize, true);
        proof {
            lemma_mark(entry, q as int);
        }
        let next = edges.get_next_states_from_state(q);
        let mut i: usize = 0;
        while i < next.len()
            invariant
                i <= next@.len(),
                a == self@,
                a.well_formed(),
                n == a.state_infos.len(),
                amount == n,
                q < n,
                edges@ == a.transitions,
                next@ == targets_of(a.transitions[q as int]),
                entry.len() == n,
                bit_seq(s.outer_begun).len() == n,
                bit_seq(s.outer_begun)[q as int],
                s.stack@ == stack0,
                stack0 == old(s).stack@,
                entry == bit_seq(old(s).outer_begun),
                forall|x: int| 0 <= x < n && entry[x] ==> bit_seq(s.outer_begun)[x],
                unmarked(bit_seq(s.outer_begun)) < unmarked(entry),
                forall|x: State, t: State|
                    x < n && x != q && bit_seq(s.outer_begun)[x as int] && !entry[x as int] && #[trigger] a.step(x, t)
                        ==> t < n && bit_seq(s.outer_begun)[t as int],
                forall|x: State|
                    x < n && x != q && bit_seq(s.outer_begun)[x as int] && !entry[x as int] && a.accepting(x)
                        ==> !#[trigger] a.on_cycle(x),
                forall|k: int| 0 <= k < i ==> next@[k] < n && bit_seq(s.outer_begun)[next@[k] as int],
            decreases next@.len() - i,
        {
            let t = next[i];
            proof {
                lemma_targets_of(a.transitions[q as int], t);
                assert(next@[i as int] == t);
                assert(next@.contains(t));
                let e = choose|e: int| 0 <= e < a.transitions[q as int].len() && (#[trigger] a.transitions[q as int][e]).1 == t;
                assert(a.transitions[q as int][e].1 < n);
                assert(a.step(q, t));
            }
            if let Some(false) = bits_get(&s.outer_begun, t as usize) {
                let ghost before = bit_seq(s.outer_begun);
                if self.dfs(s, t) {
                    let ghost found_stack = s.stack@;
                    s.stack.push(q);
                    proof {
                        lemma_unwound_push(found_stack, stack0.len() as int, q);
                        let path = unwound(found_stack, stack0.len() as int);
                        lemma_path_extend(a, q, path);
                        let longer = seq![q] + path;
                        let entry_at = choose|entry_at: int|
                            0 <= entry_at < path.len() - 1 && #[trigger] path[entry_at] == path.last() && a.accepting(
                                path[entry_at],
                            );
                        assert(longer[entry_at + 1] == path[entry_at]);
                        assert(longer.last() == path.last());
                        assert(s.stack@.take(stack0.len() as int) =~= found_stack.take(stack0.len() as int));
                    }
                    return true;
                }
                proof {
                    lemma_marks_grow(before, bit_seq(s.outer_begun));
                    assert forall|x: State, t2: State|
                        x < n && x != q && bit_seq(s.outer_begun)[x as int] && !entry[x as int] && #[trigger] a.step(
                            x,
                            t2,
                        ) implies t2 < n && bit_seq(s.outer_begun)[t2 as int] by {
                        if before[x as int] {
                            assert(before[t2 as int]);
                        }
                    }
                    assert forall|k: int| 0 <= k < i + 1 implies next@[k] < n && bit_seq(s.outer_begun)[next@[k] as int] by {
                        if k < i {
                            assert(before[next@[k] as int]);
                        }
                    }
                }
            }
            i = i + 1;
        }
        proof {
            assert forall|x: State, t: State|
                x < n && bit_seq(s.outer_begun)[x as int] && !entry[x as int] && #[trigger] a.step(x, t) implies t < n
                && bit_seq(s.outer_begun)[t as int] by {
                if x == q {
                    lemma_targets_of(a.transitions[q as int], t);
                    let k = choose|k: int| 0 <= k < next@.len() && next@[k] == t;
                    assert(bit_seq(s.outer_begun)[next@[k] as int]);
                }
            }
        }
        if let Some(true) = bits_get(self.end_set(), q as usize) {
            s.inner = bits_from_elem(amount, false);
            let ghost fresh = bit_seq(s.inner);
            if self.dfs_cycle(s, q, q) {
                proof {
                    let path = unwound(s.stack@, stack0.len() as int);
                    assert(path[0] == path.last());
                }
                return true;
            }
            proof {
                let marks = bit_seq(s.inner);
                assert_by_contradiction!(!a.on_cycle(q), {
                    let cycle = choose|path: Seq<State>|
                        a.is_path(path) && path.len() >= 2 && path[0] == q && path.last() == q;
                    assert forall|x: State, t: State|
                        x < marks.len() && marks[x as int] && #[trigger] a.step(x, t) implies t < marks.len()
                        && marks[t as int] by {
                        assert(!fresh[x as int]);
                    }
                    lemma_closed_holds_reachable(a, marks, cycle);
                    let before_last = cycle[cycle.len() - 2];
                    assert(marks[before_last as int]);
                    assert(!fresh[before_last as int]);
                    assert(a.step(cycle[cycle.len() - 2], cycle[cycle.len() - 2 + 1]));
                });
            }
        }
        false
    }
}

/// What the states of a walk stand for.
pub open spec fn infos_along<T>(a: BuechiView<T>, walk: Seq<State>) -> Seq<T> {
    Seq::new(walk.len(), |i: int| a.state_infos[walk[i] as int])
}

impl<T: Copy> Buechi<T> {
    /// A lasso, if the automaton accepts any word: what the states stand
    /// for along a walk from the initial state that ends where it was
    /// before, in an accepting state. First comes the stem, which ends at
    /// the entry of the loop, then the loop, which ends at its entry again.
    pub fn get_loop(&self) -> (r: Option<Vec<T>>)
        ensures
            r is Some <==> self@.nonempty(),
            r matches Some(infos) ==> exists|lasso: Seq<State>, entry: int|
                #[trigger] self@.is_lasso(lasso, entry) && infos@ == infos_along(self@, lasso),
    {
        let ghost a = self@;
        let amount = self.state_infos().len();
        let start = self.start_state();
        let mut s = EmptinessStruct {
            stack: Vec::new(),
            inner: bits_from_elem(amount, false),
            outer_begun: bits_from_elem(amount, false),
        };
        let ghost fresh = bit_seq(s.outer_begun);
        if !self.dfs(&mut s, start) {
            proof {
                let marks = bit_seq(s.outer_begun);
                assert_by_contradiction!(!a.nonempty(), {
                    let target = choose|target: State|
                        a.accepting(target) && a.reaches(a.start_state, target) && a.on_cycle(target);
                    let path = choose|path: Seq<State>| a.is_path(path) && path[0] == a.start_state && path.last() == target;
                    assert forall|x: State, t: State|
                        x < marks.len() && marks[x as int] && #[trigger] a.step(x, t) implies t < marks.len()
                        && marks[t as int] by {
                        assert(!fresh[x as int]);
                    }
                    lemma_closed_holds_reachable(a, marks, path);
                    assert(marks[path[path.len() - 1] as int]);
                    assert(!fresh[target as int]);
                });
            }
            return None;
        }
        let ghost lasso = unwound(s.stack@, 0);
        let infos = self.state_infos();
        let mut result: Vec<T> = Vec::new();
        let mut i: usize = s.stack.len();
        proof {
            assert forall|j: int| 0 <= j < lasso.len() implies (#[trigger] lasso[j]) < amount by {
                lemma_path_states(a, lasso, j);
            }
        }
        while i > 0
            invariant
                i <= s.stack@.len(),
                lasso == unwound(s.stack@, 0),
                infos@ == a.state_infos,
                amount == a.state_infos.len(),
                forall|j: int| 0 <= j < lasso.len() ==> (#[trigger] lasso[j]) < amount,
                result@ == infos_along(a, lasso.take(s.stack@.len() - i)),
            decreases i,
        {
            i = i - 1;
            let state = s.stack[i];
            proof {
                assert(lasso[s.stack@.len() - 1 - i] == state);
            }
            result.push(infos[state as usize]);
            assert(result@ =~= infos_along(a, lasso.take(s.stack@.len() - i)));
        }
        proof {
            assert(lasso.take(s.stack@.len() as int) =~= lasso);
            let entry = choose|entry: int|
                0 <= entry < lasso.len() - 1 && #[trigger] lasso[entry] == lasso.last() && a.accepting(lasso[entry]);
            assert(a.is_lasso(lasso, entry));
            lemma_lasso_nonempty(a, lasso, entry);
        }
        Some(result)
    }

    /// Whether the automaton accepts no word.
    pub fn is_empty(&self) -> (r: bool)
        ensures
            r == !self@.nonempty(),
    {
        self.get_loop().is_none()
    }
}

/// The states of a walk in a well-formed automaton are states of the
/// automaton, if the first one is.
pub proof fn lemma_path_states<T>(a: BuechiView<T>, path: Seq<State>, i: int)
    requires
        a.well_formed(),
        a.is_path(path),
        path[0] < a.state_infos.len(),
        0 <= i < path.len(),
    ensures
        path[i] < a.state_infos.len(),
    decreases i,
{
    if i > 0 {
        lemma_path_states(a, path, i - 1);
        assert(a.step(path[i - 1], path[i - 1 + 1]));
        let e = choose|e: int|
            0 <= e < a.transitions[path[i - 1] as int].len() && (#[trigger] a.transitions[path[i - 1] as int][e]).1
                == path[i];
        assert(a.transitions[path[i - 1] as int][e].1 < a.state_infos.len());
    }
}

/// An automaton with a lasso accepts a word: the entry of the loop is an
/// accepting state that the initial state reaches and that lies on a cycle.
pub proof fn lemma_lasso_nonempty<T>(a: BuechiView<T>, lasso: Seq<State>, entry: int)
    requires
        a.is_lasso(lasso, entry),
    ensures
        a.nonempty(),
{
    let stem = lasso.take(entry + 1);
    let cycle = lasso.skip(entry);
    assert forall|i: int| 0 <= i < stem.len() - 1 implies a.step(#[trigger] stem[i], stem[i + 1]) by {
        assert(a.step(lasso[i], lasso[i + 1]));
    }
    assert forall|i: int| 0 <= i < cycle.len() - 1 implies a.step(#[trigger] cycle[i], cycle[i + 1]) by {
        assert(cycle[i] == lasso[entry + i]);
        assert(a.step(lasso[entry + i], lasso[entry + i + 1]));
    }
    assert(a.is_path(stem) && stem[0] == a.start_state && stem.last() == lasso[entry]);
    assert(a.is_path(cycle) && cycle.len() >= 2 && cycle[0] == lasso[entry] && cycle.last() == lasso[entry]);
    assert(a.reaches(a.start_state, lasso[entry]));
    assert(a.on_cycle(lasso[entry]));
}

} // verus!
