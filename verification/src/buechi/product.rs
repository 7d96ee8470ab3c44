//! The synchronous product of two Büchi automata.

use crate::bits::{bit_seq, bits_all, bits_from_elem, bits_get, bits_set};
use crate::buechi::transitions::{
    lemma_with_edge_below, pushed_once, targets_below, targets_with_symbol, Transitions,
};
use crate::buechi::{
    bit_seqs, lemma_cell, lemma_cell_of, Buechi, BuechiView, GeneralizedBuechi, GeneralizedBuechiView, State, Symbol,
};
use bit_vec::BitVec;
use vstd::prelude::*;

verus! {

/// `edges`, and behind them an edge under `symbol` into the state `base`
/// plus `t` for each `t` among the first `k` of `targets`.
pub open spec fn joined(edges: Seq<(Symbol, State)>, symbol: Symbol, base: int, targets: Seq<State>, k: nat) -> Seq<
    (Symbol, State),
>
    decreases k,
{
    if k == 0 {
        edges
    } else {
        pushed_once(joined(edges, symbol, base, targets, (k - 1) as nat), (symbol, (base + targets[k - 1]) as State))
    }
}

/// The edges of a pair of states on account of the first `k` edges of the
/// first state: each of them goes together with each edge of the second
/// state under the same symbol. The pair of the targets `p` and `q` has the
/// index `p` times `n2` plus `q`.
pub open spec fn paired(edges1: Seq<(Symbol, State)>, edges2: Seq<(Symbol, State)>, n2: int, k: nat) -> Seq<
    (Symbol, State),
>
    decreases k,
{
    if k == 0 {
        Seq::empty()
    } else {
        let targets = targets_with_symbol(edges2, edges1[k - 1].0);
        joined(paired(edges1, edges2, n2, (k - 1) as nat), edges1[k - 1].0, edges1[k - 1].1 * n2, targets, targets.len())
    }
}

/// What the pairs of states stand for: the pair of the states `p` and `q`
/// has the index `p` times the number of states of `a2` plus `q`.
pub open spec fn paired_infos<T, S>(a1: BuechiView<T>, a2: BuechiView<S>) -> Seq<(T, S)> {
    let n1 = a1.state_infos.len() as int;
    let n2 = a2.state_infos.len() as int;
    Seq::new((n1 * n2) as nat, |x: int| (a1.state_infos[x / n2], a2.state_infos[x % n2]))
}

/// The edges of the pairs of states: a pair steps under a symbol where both
/// of its states step under that symbol.
pub open spec fn paired_transitions<T, S>(a1: BuechiView<T>, a2: BuechiView<S>) -> Seq<Seq<(Symbol, State)>> {
    let n1 = a1.state_infos.len() as int;
    let n2 = a2.state_infos.len() as int;
    Seq::new(
        (n1 * n2) as nat,
        |x: int| paired(a1.transitions[x / n2], a2.transitions[x % n2], n2, a1.transitions[x / n2].len()),
    )
}

/// The pair of the two initial states.
pub open spec fn paired_start<T, S>(a1: BuechiView<T>, a2: BuechiView<S>) -> State {
    (a1.start_state * a2.state_infos.len() + a2.start_state) as State
}

/// Whether every state is accepting.
pub open spec fn all_accepting(end_set: Seq<bool>) -> bool {
    forall|i: int| 0 <= i < end_set.len() ==> end_set[i]
}

/// The product of an automaton in which every state is accepting with
/// another: a pair is accepting where its second state is.
pub open spec fn simple_product<T, S>(a1: BuechiView<T>, a2: BuechiView<S>) -> BuechiView<(T, S)> {
    let n1 = a1.state_infos.len() as int;
    let n2 = a2.state_infos.len() as int;
    BuechiView {
        state_infos: paired_infos(a1, a2),
        amount_aps: a1.amount_aps,
        start_state: paired_start(a1, a2),
        transitions: paired_transitions(a1, a2),
        end_set: Seq::new((n1 * n2) as nat, |x: int| a2.end_set[x % n2]),
    }
}

/// The pairs of states with the two accepting sets that a run of the
/// product has to visit again and again: the pairs whose first state is
/// accepting, and the pairs whose second state is accepting.
pub open spec fn generalized_product<T, S>(a1: BuechiView<T>, a2: BuechiView<S>) -> GeneralizedBuechiView<(T, S)> {
    let n1 = a1.state_infos.len() as int;
    let n2 = a2.state_infos.len() as int;
    GeneralizedBuechiView {
        state_infos: paired_infos(a1, a2),
        amount_aps: a1.amount_aps,
        start_state: paired_start(a1, a2),
        transitions: paired_transitions(a1, a2),
        end_sets: seq![
            Seq::new((n1 * n2) as nat, |x: int| a1.end_set[x / n2]),
            Seq::new((n1 * n2) as nat, |x: int| a2.end_set[x % n2]),
        ],
    }
}

/// The automaton with each pair turned round.
pub open spec fn turned<T, S>(a: BuechiView<(S, T)>) -> BuechiView<(T, S)> {
    BuechiView {
        state_infos: Seq::new(a.state_infos.len(), |x: int| (a.state_infos[x].1, a.state_infos[x].0)),
        amount_aps: a.amount_aps,
        start_state: a.start_state,
        transitions: a.transitions,
        end_set: a.end_set,
    }
}

/// The automaton without the numbers of the planes.
pub open spec fn flattened<T>(a: BuechiView<(T, u8)>) -> BuechiView<T> {
    BuechiView {
        state_infos: Seq::new(a.state_infos.len(), |x: int| a.state_infos[x].0),
        amount_aps: a.amount_aps,
        start_state: a.start_state,
        transitions: a.transitions,
        end_set: a.end_set,
    }
}

/// The product of two automata. It has a
/// run over a word just where both have one, and the run is accepting just
/// where both are. Where every state of the first is accepting, the pairs
/// are numbered first state first. Where only the second is such, the
/// automata change places, so that the pairs are numbered second state
/// first. Otherwise a run has to visit the accepting states of both again
/// and again, which takes two planes.
pub open spec fn product_of<T, S>(a1: BuechiView<T>, a2: BuechiView<S>) -> BuechiView<(T, S)> {
    if all_accepting(a1.end_set) {
        simple_product(a1, a2)
    } else if all_accepting(a2.end_set) {
        turned(simple_product(a2, a1))
    } else {
        flattened(generalized_product(a1, a2).degeneralized())
    }
}

/// The pairs of states and their edges.
fn pairs<T: Copy, S: Copy>(a1: &Buechi<T>, a2: &Buechi<S>) -> (r: (Vec<(T, S)>, Transitions))
    ensures
        r.0@ == paired_infos(a1@, a2@),
        r.1@ == paired_transitions(a1@, a2@),
        r.0@.len() == a1@.state_infos.len() * a2@.state_infos.len(),
        targets_below(r.1@, r.0@.len()),
{
    let infos1 = a1.state_infos();
    let infos2 = a2.state_infos();
    let n1 = infos1.len();
    let n2 = infos2.len();
    let ghost v1 = a1@;
    let ghost v2 = a2@;
    let mut state_infos: Vec<(T, S)> = Vec::new();
    let mut p: usize = 0;
    while p < n1
        invariant
            p <= n1,
            n1 == infos1@.len(),
            n2 == infos2@.len(),
            state_infos@.len() == p * n2,
            forall|i: int, j: int|
                0 <= i < p && 0 <= j < n2 ==> #[trigger] state_infos@[i * n2 + j] == (infos1@[i], infos2@[j]),
        decreases n1 - p,
    {
        let ghost before = state_infos@;
        let mut q: usize = 0;
        while q < n2
            invariant
                q <= n2,
                p < n1,
                n1 == infos1@.len(),
                n2 == infos2@.len(),
                before.len() == p * n2,
                state_infos@ == before + Seq::new(q as nat, |j: int| (infos1@[p as int], infos2@[j])),
            decreases n2 - q,
        {
            state_infos.push((infos1[p], infos2[q]));
            assert(state_infos@ =~= before + Seq::new((q + 1) as nat, |j: int| (infos1@[p as int], infos2@[j])));
            q = q + 1;
        }
        proof {
            assert((p + 1) * n2 == p * n2 + n2) by (nonlinear_arith);
            assert forall|i: int, j: int| 0 <= i < p + 1 && 0 <= j < n2 implies #[trigger] state_infos@[i * n2 + j] == (
                infos1@[i],
                infos2@[j],
            ) by {
                if i < p {
                    lemma_cell(i, j, p as int, n2 as int);
                    assert(state_infos@[i * n2 + j] == before[i * n2 + j]);
                }
            }
        }
        p = p + 1;
    }
    let total = state_infos.len();
    let mut transitions = Transitions::for_states(total);
    let edges1 = a1.transitions();
    let edges2 = a2.transitions();
    proof {
        assert(total == n1 * n2);
        assert forall|i: int, j: int| 0 <= i < n1 && 0 <= j < n2 implies #[trigger] transitions@[i * n2 + j] == Seq::<
            (Symbol, State),
        >::empty() by {
            lemma_cell(i, j, n1 as int, n2 as int);
        }
    }
    let mut p: usize = 0;
    while p < n1
        invariant
            p <= n1,
            v1 == a1@,
            v2 == a2@,
            v1.well_formed(),
            v2.well_formed(),
            n1 == v1.state_infos.len(),
            n2 == v2.state_infos.len(),
            edges1@ == v1.transitions,
            edges2@ == v2.transitions,
            total == n1 * n2,
            transitions@.len() == total,
            targets_below(transitions@, total as nat),
            forall|i: int, j: int|
                0 <= i < p && 0 <= j < n2 ==> #[trigger] transitions@[i * n2 + j] == paired(
                    v1.transitions[i],
                    v2.transitions[j],
                    n2 as int,
                    v1.transitions[i].len(),
                ),
            forall|i: int, j: int|
                p <= i < n1 && 0 <= j < n2 ==> #[trigger] transitions@[i * n2 + j] == Seq::<(Symbol, State)>::empty(),
        decreases n1 - p,
    {
        let row1 = edges1.get_from_state(p as u64);
        let mut q: usize = 0;
        while q < n2
            invariant
                q <= n2,
                p < n1,
                v1 == a1@,
                v2 == a2@,
                v1.well_formed(),
                v2.well_formed(),
                n1 == v1.state_infos.len(),
                n2 == v2.state_infos.len(),
                edges1@ == v1.transitions,
                edges2@ == v2.transitions,
                row1@ == v1.transitions[p as int],
                total == n1 * n2,
                transitions@.len() == total,
                targets_below(transitions@, total as nat),
                forall|i: int, j: int|
                    0 <= i && (i < p || (i == p && j < q)) && 0 <= j < n2 ==> #[trigger] transitions@[i * n2 + j]
                        == paired(v1.transitions[i], v2.transitions[j], n2 as int, v1.transitions[i].len()),
                forall|i: int, j: int|
                    (p < i || (i == p && q <= j)) && i < n1 && 0 <= j < n2 ==> #[trigger] transitions@[i * n2 + j]
                        == Seq::<(Symbol, State)>::empty(),
            decreases n2 - q,
        {
            proof {
                lemma_cell(p as int, q as int, n1 as int, n2 as int);
            }
            let from = p * n2 + q;
            let ghost others = transitions@;
            let mut e: usize = 0;
            while e < row1.len()
                invariant
                    e <= row1@.len(),
                    p < n1,
                    q < n2,
                    v1.well_formed(),
                    v2.well_formed(),
                    n1 == v1.state_infos.len(),
                    n2 == v2.state_infos.len(),
                    edges2@ == v2.transitions,
                    row1@ == v1.transitions[p as int],
                    total == n1 * n2,
                    from == p * n2 + q,
                    from < total,
                    transitions@.len() == total,
                    targets_below(transitions@, total as nat),
                    forall|x: int| 0 <= x < total && x != from ==> #[trigger] transitions@[x] == others[x],
                    transitions@[from as int] == paired(row1@, v2.transitions[q as int], n2 as int, e as nat),
                decreases row1@.len() - e,
            {
                let (symbol, to1) = row1[e];
                let targets = edges2.get_from_state_with_symbol(q as u64, symbol);
                proof {
                    assert(v1.transitions[p as int][e as int].1 < n1);
                    lemma_cell(to1 as int, 0, n1 as int, n2 as int);
                    lemma_targets_below(v2.transitions[q as int], symbol, n2 as nat);
                }
                let base = to1 as usize * n2;
                let ghost start = transitions@[from as int];
                let mut t: usize = 0;
                while t < targets.len()
                    invariant
                        t <= targets@.len(),
                        to1 < n1,
                        total == n1 * n2,
                        base == to1 * n2,
                        from < total,
                        forall|k: int| 0 <= k < targets@.len() ==> targets@[k] < n2,
                        transitions@.len() == total,
                        targets_below(transitions@, total as nat),
                        forall|x: int| 0 <= x < total && x != from ==> #[trigger] transitions@[x] == others[x],
                        transitions@[from as int] == joined(start, symbol, base as int, targets@, t as nat),
                    decreases targets@.len() - t,
                {
                    let to2 = targets[t];
                    proof {
                        lemma_cell(to1 as int, to2 as int, n1 as int, n2 as int);
                        lemma_with_edge_below(
                            transitions@,
                            from as u64,
                            symbol,
                            (base + to2 as usize) as u64,
                            total as nat,
                        );
                    }
                    transitions.add(from as u64, symbol, (base + to2 as usize) as u64);
                    t = t + 1;
                }
                e = e + 1;
            }
            proof {
                assert forall|i: int, j: int|
                    0 <= i && (i < p || (i == p && j < q + 1)) && 0 <= j < n2 implies #[trigger] transitions@[i * n2
                    + j] == paired(v1.transitions[i], v2.transitions[j], n2 as int, v1.transitions[i].len()) by {
                    lemma_cell(i, j, n1 as int, n2 as int);
                    if !(i == p && j == q) {
                        assert(transitions@[i * n2 + j] == others[i * n2 + j]);
                    }
                }
                assert forall|i: int, j: int|
                    (p < i || (i == p && q + 1 <= j)) && i < n1 && 0 <= j < n2 implies #[trigger] transitions@[i * n2
                    + j] == Seq::<(Symbol, State)>::empty() by {
                    lemma_cell(i, j, n1 as int, n2 as int);
                    assert(transitions@[i * n2 + j] == others[i * n2 + j]);
                }
            }
            q = q + 1;
        }
        p = p + 1;
    }
    proof {
        assert(state_infos@ =~= paired_infos(v1, v2)) by {
            assert forall|x: int| 0 <= x < n1 * n2 implies state_infos@[x] == paired_infos(v1, v2)[x] by {
                lemma_cell_of(x, n1 as int, n2 as int);
                assert(state_infos@[(x / (n2 as int)) * n2 + x % (n2 as int)] == (
                    infos1@[x / (n2 as int)],
                    infos2@[x % (n2 as int)],
                ));
            }
        }
        assert(transitions@ =~= paired_transitions(v1, v2)) by {
            assert forall|x: int| 0 <= x < n1 * n2 implies transitions@[x] == paired_transitions(v1, v2)[x] by {
                lemma_cell_of(x, n1 as int, n2 as int);
                let i = x / (n2 as int);
                let j = x % (n2 as int);
                assert(transitions@[i * n2 + j] == paired(
                    v1.transitions[i],
                    v2.transitions[j],
                    n2 as int,
                    v1.transitions[i].len(),
                ));
            }
        }
    }
    (state_infos, transitions)
}

/// The targets of edges that lead below a bound lie below it.
pub proof fn lemma_targets_below(edges: Seq<(Symbol, State)>, symbol: Symbol, bound: nat)
    requires
        forall|i: int| 0 <= i < edges.len() ==> (#[trigger] edges[i]).1 < bound,
    ensures
        forall|k: int|
            0 <= k < targets_with_symbol(edges, symbol).len() ==> targets_with_symbol(edges, symbol)[k] < bound,
    decreases edges.len(),
{
    if edges.len() > 0 {
        let front = edges.drop_last();
        assert forall|i: int| 0 <= i < front.len() implies (#[trigger] front[i]).1 < bound by {
            assert(front[i] == edges[i]);
        }
        lemma_targets_below(front, symbol, bound);
        let before = targets_with_symbol(front, symbol);
        let now = targets_with_symbol(edges, symbol);
        assert(edges[edges.len() - 1].1 < bound);
        assert forall|k: int| 0 <= k < now.len() implies now[k] < bound by {
            if k < before.len() {
                assert(now[k] == before[k]);
            }
        }
    }
}

/// For each pair of states whether its first, or else its second, state is accepting.
fn lifted_end_set(end_set: &BitVec, n1: usize, n2: usize, first: bool) -> (r: BitVec)
    requires
        n1 * n2 <= usize::MAX,
        bit_seq(*end_set).len() == if first {
            n1
        } else {
            n2
        },
    ensures
        bit_seq(r) == Seq::new(
            (n1 * n2) as nat,
            |x: int|
                bit_seq(*end_set)[if first {
                    x / (n2 as int)
                } else {
                    x % (n2 as int)
                }],
        ),
{
    let total = n1 * n2;
    let mut lifted = bits_from_elem(total, false);
    proof {
        assert forall|i: int, j: int| 0 <= i < n1 && 0 <= j < n2 implies !(#[trigger] bit_seq(lifted)[i * n2 + j]) by {
            lemma_cell(i, j, n1 as int, n2 as int);
        }
    }
    let mut p: usize = 0;
    while p < n1
        invariant
            p <= n1,
            total == n1 * n2,
            bit_seq(*end_set).len() == if first {
                n1
            } else {
                n2
            },
            bit_seq(lifted).len() == total,
            forall|i: int, j: int|
                0 <= i < n1 && 0 <= j < n2 ==> #[trigger] bit_seq(lifted)[i * n2 + j] == (i < p && bit_seq(
                    *end_set,
                )[if first {
                    i
                } else {
                    j
                }]),
        decreases n1 - p,
    {
        let mut q: usize = 0;
        while q < n2
            invariant
                q <= n2,
                p < n1,
                total == n1 * n2,
                bit_seq(*end_set).len() == if first {
                    n1
                } else {
                    n2
                },
                bit_seq(lifted).len() == total,
                forall|i: int, j: int|
                    0 <= i < n1 && 0 <= j < n2 ==> #[trigger] bit_seq(lifted)[i * n2 + j] == ((i < p || (i == p && j
                        < q)) && bit_seq(*end_set)[if first {
                        i
                    } else {
                        j
                    }]),
            decreases n2 - q,
        {
            proof {
                lemma_cell(p as int, q as int, n1 as int, n2 as int);
            }
            let bit = bits_get(
                end_set,
                if first {
                    p
                } else {
                    q
                },
            );
            let ghost before = bit_seq(lifted);
            if let Some(true) = bit {
                bits_set(&mut lifted, p * n2 + q, true);
            }
            proof {
                assert forall|i: int, j: int| 0 <= i < n1 && 0 <= j < n2 implies #[trigger] bit_seq(lifted)[i * n2 + j]
                    == ((i < p || (i == p && j < q + 1)) && bit_seq(*end_set)[if first {
                    i
                } else {
                    j
                }]) by {
                    lemma_cell(i, j, n1 as int, n2 as int);
                    assert(before[i * n2 + j] == ((i < p || (i == p && j < q)) && bit_seq(*end_set)[if first {
                        i
                    } else {
                        j
                    }]));
                }
            }
            q = q + 1;
        }
        p = p + 1;
    }
    proof {
        let expected = Seq::new(
            (n1 * n2) as nat,
            |x: int|
                bit_seq(*end_set)[if first {
                    x / (n2 as int)
                } else {
                    x % (n2 as int)
                }],
        );
        assert forall|x: int| 0 <= x < n1 * n2 implies bit_seq(lifted)[x] == expected[x] by {
            lemma_cell_of(x, n1 as int, n2 as int);
            let i = x / (n2 as int);
            let j = x % (n2 as int);
            assert(bit_seq(lifted)[i * n2 + j] == bit_seq(*end_set)[if first {
                i
            } else {
                j
            }]);
        }
        assert(bit_seq(lifted) =~= expected);
    }
    lifted
}

/// The product where a pair is accepting just where its second state is.
fn simple<T: Copy, S: Copy>(a1: &Buechi<T>, a2: &Buechi<S>) -> (r: Buechi<(T, S)>)
    ensures
        r@ == simple_product(a1@, a2@),
{
    let (state_infos, transitions) = pairs(a1, a2);
    let n1 = a1.state_infos().len();
    let n2 = a2.state_infos().len();
    let total = state_infos.len();
    let end_set = lifted_end_set(a2.end_set(), n1, n2, false);
    let start1 = a1.start_state();
    let start2 = a2.start_state();
    proof {
        lemma_cell(start1 as int, start2 as int, n1 as int, n2 as int);
    }
    let start_state = (start1 as usize * n2 + start2 as usize) as u64;
    assert(bit_seq(end_set) =~= simple_product(a1@, a2@).end_set);
    Buechi::new(state_infos, a1.amount_aps(), start_state, transitions, end_set)
}

/// The synchronous product of two automata. It speaks of as many atomic
/// propositions as the first.
pub fn product<T: Copy, S: Copy>(a1: &Buechi<T>, a2: &Buechi<S>) -> (r: Buechi<(T, S)>)
    ensures
        r@ == product_of(a1@, a2@),
{
    if bits_all(a1.end_set()) {
        return simple(a1, a2);
    }
    if bits_all(a2.end_set()) {
        let (infos, amount_aps, start_state, transitions, end_set) = simple(a2, a1).into_parts();
        let mut state_infos: Vec<(T, S)> = Vec::new();
        let mut x: usize = 0;
        while x < infos.len()
            invariant
                x <= infos@.len(),
                state_infos@ == Seq::new(x as nat, |y: int| (infos@[y].1, infos@[y].0)),
            decreases infos@.len() - x,
        {
            state_infos.push((infos[x].1, infos[x].0));
            assert(state_infos@ =~= Seq::new((x + 1) as nat, |y: int| (infos@[y].1, infos@[y].0)));
            x = x + 1;
        }
        return Buechi::new(state_infos, amount_aps, start_state, transitions, end_set);
    }
    let (state_infos, transitions) = pairs(a1, a2);
    let n1 = a1.state_infos().len();
    let n2 = a2.state_infos().len();
    let total = state_infos.len();
    let start1 = a1.start_state();
    let start2 = a2.start_state();
    proof {
        lemma_cell(start1 as int, start2 as int, n1 as int, n2 as int);
    }
    let start_state = (start1 as usize * n2 + start2 as usize) as u64;
    let mut end_sets: Vec<BitVec> = Vec::new();
    end_sets.push(lifted_end_set(a1.end_set(), n1, n2, true));
    end_sets.push(lifted_end_set(a2.end_set(), n1, n2, false));
    proof {
        let expected = generalized_product(a1@, a2@).end_sets;
        assert(bit_seqs(end_sets@)[0] =~= expected[0]);
        assert(bit_seqs(end_sets@)[1] =~= expected[1]);
        assert(bit_seqs(end_sets@) =~= expected);
    }
    let generalized = GeneralizedBuechi::new(state_infos, a1.amount_aps(), start_state, transitions, end_sets);
    let (infos, amount_aps, start_state, transitions, end_set) = Buechi::from_generalized_buechi(
        generalized,
    ).into_parts();
    let mut state_infos: Vec<(T, S)> = Vec::new();
    let mut x: usize = 0;
    while x < infos.len()
        invariant
            x <= infos@.len(),
            state_infos@ == Seq::new(x as nat, |y: int| infos@[y].0),
        decreases infos@.len() - x,
    {
        state_infos.push(infos[x].0);
        assert(state_infos@ =~= Seq::new((x + 1) as nat, |y: int| infos@[y].0));
        x = x + 1;
    }
    Buechi::new(state_infos, amount_aps, start_state, transitions, end_set)
}

/// The product depends on nothing but what its operands are made of: the
/// same operands give the same states, in the same order, with the same
/// edges in the same order.
pub proof fn lemma_product_deterministic<T, S>(a1: BuechiView<T>, a2: BuechiView<S>, b1: BuechiView<T>, b2: BuechiView<S>)
    requires
        a1 == b1,
        a2 == b2,
    ensures
        product_of(a1, a2) == product_of(b1, b2),
{
}

/// The targets under a symbol are just the states that an edge under that symbol leads to.
pub proof fn lemma_targets_with_symbol(edges: Seq<(Symbol, State)>, symbol: Symbol, to: State)
    ensures
        targets_with_symbol(edges, symbol).contains(to) <==> edges.contains((symbol, to)),
    decreases edges.len(),
{
    if edges.len() > 0 {
        let front = edges.drop_last();
        lemma_targets_with_symbol(front, symbol, to);
        let before = targets_with_symbol(front, symbol);
        let now = targets_with_symbol(edges, symbol);
        if now.contains(to) {
            let at = choose|at: int| 0 <= at < now.len() && now[at] == to;
            if at < before.len() {
                assert(before[at] == to);
                let e = choose|e: int| 0 <= e < front.len() && front[e] == (symbol, to);
                assert(edges[e] == (symbol, to));
            } else {
                assert(edges[edges.len() - 1] == (symbol, to));
            }
        }
        if edges.contains((symbol, to)) {
            let e = choose|e: int| 0 <= e < edges.len() && edges[e] == (symbol, to);
            if e < front.len() {
                assert(front[e] == (symbol, to));
                let at = choose|at: int| 0 <= at < before.len() && before[at] == to;
                assert(now[at] == to);
            } else {
                assert(now[now.len() - 1] == to);
            }
        }
    }
}

/// The joined edges are just the edges before and the new ones.
pub proof fn lemma_joined(
    edges: Seq<(Symbol, State)>,
    symbol: Symbol,
    base: int,
    targets: Seq<State>,
    k: nat,
    edge: (Symbol, State),
)
    requires
        k <= targets.len(),
        0 <= base,
        forall|t: int| 0 <= t < targets.len() ==> base + #[trigger] targets[t] <= u64::MAX,
    ensures
        joined(edges, symbol, base, targets, k).contains(edge) <==> (edges.contains(edge) || exists|t: int|
            0 <= t < k && edge == (symbol, (base + #[trigger] targets[t]) as State)),
    decreases k,
{
    if k > 0 {
        lemma_joined(edges, symbol, base, targets, (k - 1) as nat, edge);
        let before = joined(edges, symbol, base, targets, (k - 1) as nat);
        let new_edge = (symbol, (base + targets[k - 1]) as State);
        let now = pushed_once(before, new_edge);
        if !before.contains(new_edge) {
            assert(now == before.push(new_edge));
            if now.contains(edge) {
                let at = choose|at: int| 0 <= at < now.len() && now[at] == edge;
                if at < before.len() {
                    assert(before[at] == edge);
                }
            }
            if before.contains(edge) {
                let at = choose|at: int| 0 <= at < before.len() && before[at] == edge;
                assert(now[at] == edge);
            }
            assert(now[now.len() - 1] == new_edge);
        }
        if exists|t: int| 0 <= t < k && edge == (symbol, (base + #[trigger] targets[t]) as State) {
            let t = choose|t: int| 0 <= t < k && edge == (symbol, (base + #[trigger] targets[t]) as State);
            if t == k - 1 {
                assert(edge == new_edge);
            }
        }
    }
}

/// The edges of a pair are just these: one for each edge of the first state
/// together with each edge of the second state under the same symbol.
pub proof fn lemma_paired(
    edges1: Seq<(Symbol, State)>,
    edges2: Seq<(Symbol, State)>,
    n1: int,
    n2: int,
    k: nat,
    symbol: Symbol,
    to: State,
)
    requires
        k <= edges1.len(),
        0 <= n1,
        0 <= n2,
        n1 * n2 <= u64::MAX,
        forall|e: int| 0 <= e < edges1.len() ==> (#[trigger] edges1[e]).1 < n1,
        forall|e: int| 0 <= e < edges2.len() ==> (#[trigger] edges2[e]).1 < n2,
    ensures
        paired(edges1, edges2, n2, k).contains((symbol, to)) <==> exists|e: int, q_to: State|
            0 <= e < k && (#[trigger] edges1[e]).0 == symbol && #[trigger] edges2.contains((symbol, q_to)) && to
                == edges1[e].1 * n2 + q_to,
    decreases k,
{
    if k > 0 {
        lemma_paired(edges1, edges2, n1, n2, (k - 1) as nat, symbol, to);
        let before = paired(edges1, edges2, n2, (k - 1) as nat);
        let sym = edges1[k - 1].0;
        let base = edges1[k - 1].1 * n2;
        let targets = targets_with_symbol(edges2, sym);
        lemma_targets_below(edges2, sym, n2 as nat);
        assert(0 <= base) by (nonlinear_arith)
            requires
                base == edges1[k - 1].1 * n2,
                0 <= n2,
        ;
        assert forall|t: int| 0 <= t < targets.len() implies base + #[trigger] targets[t] <= u64::MAX by {
            lemma_cell(edges1[k - 1].1 as int, targets[t] as int, n1, n2);
        }
        lemma_joined(before, sym, base, targets, targets.len(), (symbol, to));
        let now = paired(edges1, edges2, n2, k);
        if now.contains((symbol, to)) {
            if before.contains((symbol, to)) {
                let (e, q_to) = choose|e: int, q_to: State|
                    0 <= e < k - 1 && (#[trigger] edges1[e]).0 == symbol && #[trigger] edges2.contains((symbol, q_to))
                        && to == edges1[e].1 * n2 + q_to;
                assert(0 <= e < k && edges1[e].0 == symbol && edges2.contains((symbol, q_to)) && to == edges1[e].1 * n2
                    + q_to);
            } else {
                let t = choose|t: int|
                    0 <= t < targets.len() && (symbol, to) == (sym, (base + #[trigger] targets[t]) as State);
                lemma_targets_with_symbol(edges2, sym, targets[t]);
                assert(targets.contains(targets[t]));
                assert(edges1[k - 1].0 == symbol && edges2.contains((symbol, targets[t])) && to == edges1[k - 1].1
                    * n2 + targets[t]);
            }
        }
        if exists|e: int, q_to: State|
            0 <= e < k && (#[trigger] edges1[e]).0 == symbol && #[trigger] edges2.contains((symbol, q_to)) && to
                == edges1[e].1 * n2 + q_to {
            let (e, q_to) = choose|e: int, q_to: State|
                0 <= e < k && (#[trigger] edges1[e]).0 == symbol && #[trigger] edges2.contains((symbol, q_to)) && to
                    == edges1[e].1 * n2 + q_to;
            if e == k - 1 {
                lemma_targets_with_symbol(edges2, sym, q_to);
                let t = choose|t: int| 0 <= t < targets.len() && targets[t] == q_to;
                assert((symbol, to) == (sym, (base + targets[t]) as State));
            } else {
                assert(0 <= e < k - 1 && edges1[e].0 == symbol && edges2.contains((symbol, q_to)) && to == edges1[e].1
                    * n2 + q_to);
            }
        }
    }
}

/// A step of the product is a step of both automata under one symbol: an
/// edge leads from the pair of `p` and `q` to a state under a symbol just
/// where that state is the pair of two states `p_to` and `q_to` such that the
/// first automaton has an edge from `p` to `p_to` and the second one from `q`
/// to `q_to`, both under that symbol.
pub proof fn lemma_pair_steps<T, S>(a1: BuechiView<T>, a2: BuechiView<S>, p: State, q: State, symbol: Symbol, to: State)
    requires
        a1.well_formed(),
        a2.well_formed(),
        a1.state_infos.len() * a2.state_infos.len() <= u64::MAX,
        p < a1.state_infos.len(),
        q < a2.state_infos.len(),
    ensures
        ({
            let n2 = a2.state_infos.len() as int;
            paired_transitions(a1, a2)[p * n2 + q].contains((symbol, to)) <==> exists|p_to: State, q_to: State|
                #![trigger a1.transitions[p as int].contains((symbol, p_to)), a2.transitions[q as int].contains((symbol, q_to))]
                a1.transitions[p as int].contains((symbol, p_to)) && a2.transitions[q as int].contains((symbol, q_to))
                    && to == p_to * n2 + q_to
        }),
{
    let n1 = a1.state_infos.len() as int;
    let n2 = a2.state_infos.len() as int;
    let edges1 = a1.transitions[p as int];
    let edges2 = a2.transitions[q as int];
    lemma_cell(p as int, q as int, n1, n2);
    assert forall|e: int| 0 <= e < edges1.len() implies (#[trigger] edges1[e]).1 < n1 by {
        assert(a1.transitions[p as int][e].1 < n1);
    }
    assert forall|e: int| 0 <= e < edges2.len() implies (#[trigger] edges2[e]).1 < n2 by {
        assert(a2.transitions[q as int][e].1 < n2);
    }
    lemma_paired(edges1, edges2, n1, n2, edges1.len(), symbol, to);
    let row = paired_transitions(a1, a2)[p * n2 + q];
    assert(row == paired(edges1, edges2, n2, edges1.len()));
    if row.contains((symbol, to)) {
        let (e, q_to) = choose|e: int, q_to: State|
            0 <= e < edges1.len() && (#[trigger] edges1[e]).0 == symbol && #[trigger] edges2.contains((symbol, q_to))
                && to == edges1[e].1 * n2 + q_to;
        assert(edges1[e] == (symbol, edges1[e].1));
        assert(edges1.contains((symbol, edges1[e].1)));
    }
    if exists|p_to: State, q_to: State|
        #![trigger a1.transitions[p as int].contains((symbol, p_to)), a2.transitions[q as int].contains((symbol, q_to))]
        a1.transitions[p as int].contains((symbol, p_to)) && a2.transitions[q as int].contains((symbol, q_to)) && to
            == p_to * n2 + q_to {
        let (p_to, q_to) = choose|p_to: State, q_to: State|
            #![trigger a1.transitions[p as int].contains((symbol, p_to)), a2.transitions[q as int].contains((symbol, q_to))]
            a1.transitions[p as int].contains((symbol, p_to)) && a2.transitions[q as int].contains((symbol, q_to)) && to
                == p_to * n2 + q_to;
        let e = choose|e: int| 0 <= e < edges1.len() && edges1[e] == (symbol, p_to);
        assert(edges1[e].0 == symbol && edges2.contains((symbol, q_to)) && to == edges1[e].1 * n2 + q_to);
    }
}

/// In the product of an automaton in which every state is accepting with
/// another, a pair is accepting just where its second state is.
pub proof fn lemma_pair_accepting<T, S>(a1: BuechiView<T>, a2: BuechiView<S>, p: State, q: State)
    requires
        a2.well_formed(),
        p < a1.state_infos.len(),
        q < a2.state_infos.len(),
        a1.state_infos.len() * a2.state_infos.len() <= u64::MAX,
    ensures
        simple_product(a1, a2).accepting((p * a2.state_infos.len() + q) as State) <==> a2.end_set[q as int],
{
    lemma_cell(p as int, q as int, a1.state_infos.len() as int, a2.state_infos.len() as int);
}

/// Whether both automata step under one symbol: the first from `p` to `p_to`,
/// the second from `q` to `q_to`.
pub open spec fn step_together<T, S>(a1: BuechiView<T>, a2: BuechiView<S>, p: int, q: int, p_to: int, q_to: int) -> bool {
    exists|symbol: Symbol| #[trigger]
        a1.transitions[p].contains((symbol, p_to as State)) && a2.transitions[q].contains((symbol, q_to as State))
}

/// A step of the product from a pair is a step of both automata under one
/// symbol, and leads to a pair.
pub proof fn lemma_step_projects<T, S>(a1: BuechiView<T>, a2: BuechiView<S>, x: State, y: State)
    requires
        a1.well_formed(),
        a2.well_formed(),
        a1.state_infos.len() * a2.state_infos.len() <= u64::MAX,
        x < a1.state_infos.len() * a2.state_infos.len(),
        simple_product(a1, a2).step(x, y),
    ensures
        y < a1.state_infos.len() * a2.state_infos.len(),
        step_together(
            a1,
            a2,
            x as int / (a2.state_infos.len() as int),
            x as int % (a2.state_infos.len() as int),
            y as int / (a2.state_infos.len() as int),
            y as int % (a2.state_infos.len() as int),
        ),
{
    let both = simple_product(a1, a2);
    let n1 = a1.state_infos.len() as int;
    let n2 = a2.state_infos.len() as int;
    lemma_cell_of(x as int, n1, n2);
    let p = (x as int / n2) as State;
    let q = (x as int % n2) as State;
    let e = choose|e: int| 0 <= e < both.transitions[x as int].len() && (#[trigger] both.transitions[x as int][e]).1 == y;
    let symbol = both.transitions[x as int][e].0;
    assert(both.transitions[x as int].contains((symbol, y)));
    assert(x == p * n2 + q);
    lemma_pair_steps(a1, a2, p, q, symbol, y);
    let (p_to, q_to) = choose|p_to: State, q_to: State|
        #![trigger a1.transitions[p as int].contains((symbol, p_to)), a2.transitions[q as int].contains((symbol, q_to))]
        a1.transitions[p as int].contains((symbol, p_to)) && a2.transitions[q as int].contains((symbol, q_to)) && y == p_to
            * n2 + q_to;
    let e1 = choose|e1: int| 0 <= e1 < a1.transitions[p as int].len() && a1.transitions[p as int][e1] == (symbol, p_to);
    let e2 = choose|e2: int| 0 <= e2 < a2.transitions[q as int].len() && a2.transitions[q as int][e2] == (symbol, q_to);
    assert(a1.transitions[p as int][e1].1 < n1);
    assert(a2.transitions[q as int][e2].1 < n2);
    lemma_cell(p_to as int, q_to as int, n1, n2);
    assert(y as int / n2 == p_to);
    assert(y as int % n2 == q_to);
    assert(a1.transitions[x as int / n2].contains((symbol, (y as int / n2) as State)));
    assert(a2.transitions[x as int % n2].contains((symbol, (y as int % n2) as State)));
}

/// The states of a walk of pairs from a pair are pairs.
pub proof fn lemma_pairs_closed<T, S>(a1: BuechiView<T>, a2: BuechiView<S>, walk: Seq<State>, i: int)
    requires
        a1.well_formed(),
        a2.well_formed(),
        a1.state_infos.len() * a2.state_infos.len() <= u64::MAX,
        simple_product(a1, a2).is_path(walk),
        walk[0] < a1.state_infos.len() * a2.state_infos.len(),
        0 <= i < walk.len(),
    ensures
        walk[i] < a1.state_infos.len() * a2.state_infos.len(),
    decreases i,
{
    if i > 0 {
        lemma_pairs_closed(a1, a2, walk, i - 1);
        assert(simple_product(a1, a2).step(walk[i - 1], walk[i - 1 + 1]));
        lemma_step_projects(a1, a2, walk[i - 1], walk[i]);
    }
}

/// A lasso of the product of an automaton in which every state is accepting
/// with another is a walk of both, read under the same symbols. With `n2`
/// the number of states of the second automaton, the quotients of its
/// states by `n2` are a walk of the first automaton from its initial state,
/// the remainders are a walk of the second automaton from its initial
/// state, each step is taken by both under one symbol, and the remainder of
/// the state at the entry of the loop is an accepting state of the second.
pub proof fn lemma_lasso_projects<T, S>(a1: BuechiView<T>, a2: BuechiView<S>, lasso: Seq<State>, entry: int)
    requires
        a1.well_formed(),
        a2.well_formed(),
        a1.state_infos.len() * a2.state_infos.len() <= u64::MAX,
        simple_product(a1, a2).is_lasso(lasso, entry),
    ensures
        ({
            let n2 = a2.state_infos.len() as int;
            &&& lasso[0] as int / n2 == a1.start_state
            &&& lasso[0] as int % n2 == a2.start_state
            &&& forall|i: int|
                0 <= i < lasso.len() - 1 ==> #[trigger] step_together(
                    a1,
                    a2,
                    lasso[i] as int / n2,
                    lasso[i] as int % n2,
                    lasso[i + 1] as int / n2,
                    lasso[i + 1] as int % n2,
                )
            &&& a2.end_set[lasso[entry] as int % n2]
        }),
{
    let n1 = a1.state_infos.len() as int;
    let n2 = a2.state_infos.len() as int;
    lemma_cell(a1.start_state as int, a2.start_state as int, n1, n2);
    assert forall|i: int| 0 <= i < lasso.len() - 1 implies #[trigger] step_together(
        a1,
        a2,
        lasso[i] as int / n2,
        lasso[i] as int % n2,
        lasso[i + 1] as int / n2,
        lasso[i + 1] as int % n2,
    ) by {
        lemma_pairs_closed(a1, a2, lasso, i);
        assert(simple_product(a1, a2).step(lasso[i], lasso[i + 1]));
        lemma_step_projects(a1, a2, lasso[i], lasso[i + 1]);
    }
    lemma_pairs_closed(a1, a2, lasso, entry);
    lemma_cell_of(lasso[entry] as int, n1, n2);
}

} // verus!
