//! Büchi automata over valuations of atomic propositions.

pub mod correctness;
pub mod emptiness;
pub mod languages;
pub mod ltl_to_buechi;
pub mod product;
pub mod runs;
pub mod semantics;
pub mod tableau;
pub mod transitions;
pub mod words;

use crate::bits::{bit_seq, bits_clone, bits_from_elem, bits_get, bits_set};
use crate::buechi::transitions::{lemma_with_edge_below, pushed_once, targets_below, with_edge, Transitions};
use bit_vec::BitVec;
use vstd::prelude::*;

verus! {

/// A state of an automaton: its index.
pub type State = u64;

/// A letter of the alphabet: bit `i` is set where proposition `i` holds.
pub type Symbol = u64;

/// What a Büchi automaton is made of.
pub struct BuechiView<T> {
    /// For each state what it stands for.
    pub state_infos: Seq<T>,
    /// The number of atomic propositions that a symbol speaks of.
    pub amount_aps: u8,
    pub start_state: State,
    /// For each state its outgoing edges, as pairs of symbol and target.
    pub transitions: Seq<Seq<(Symbol, State)>>,
    /// For each state whether it is accepting.
    pub end_set: Seq<bool>,
}

impl<T> BuechiView<T> {
    /// Every part speaks of the same states, and every state that is named is one of them.
    pub open spec fn well_formed(self) -> bool {
        &&& self.transitions.len() == self.state_infos.len()
        &&& self.end_set.len() == self.state_infos.len()
        &&& self.start_state < self.state_infos.len()
        &&& targets_below(self.transitions, self.state_infos.len())
    }

    /// Whether an edge leads from `from` to `to`, under whatever symbol.
    pub open spec fn step(self, from: State, to: State) -> bool {
        from < self.transitions.len() && exists|i: int|
            0 <= i < self.transitions[from as int].len() && (#[trigger] self.transitions[from as int][i]).1 == to
    }
}

/// What a generalized Büchi automaton is made of.
pub struct GeneralizedBuechiView<T> {
    /// For each state what it stands for.
    pub state_infos: Seq<T>,
    /// The number of atomic propositions that a symbol speaks of.
    pub amount_aps: u8,
    pub start_state: State,
    /// For each state its outgoing edges, as pairs of symbol and target.
    pub transitions: Seq<Seq<(Symbol, State)>>,
    /// The accepting sets: each says for each state whether it belongs to it.
    pub end_sets: Seq<Seq<bool>>,
}

impl<T> GeneralizedBuechiView<T> {
    /// Every part speaks of the same states, and every state that is named is one of them.
    pub open spec fn well_formed(self) -> bool {
        &&& self.transitions.len() == self.state_infos.len()
        &&& forall|j: int| 0 <= j < self.end_sets.len() ==> (#[trigger] self.end_sets[j]).len() == self.state_infos.len()
        &&& self.start_state < self.state_infos.len()
        &&& targets_below(self.transitions, self.state_infos.len())
    }
}

/// The bits of each of the vectors.
pub open spec fn bit_seqs(sets: Seq<BitVec>) -> Seq<Seq<bool>> {
    Seq::new(sets.len(), |j: int| bit_seq(sets[j]))
}

/// An automaton that accepts a run where the run visits each of its accepting sets again and again.
#[derive(Debug)]
pub struct GeneralizedBuechi<T> {
    state_infos: Vec<T>,
    amount_aps: u8,
    start_state: State,
    transitions: Transitions,
    end_sets: Vec<BitVec>,
}

impl<T> View for GeneralizedBuechi<T> {
    type V = GeneralizedBuechiView<T>;

    closed spec fn view(&self) -> Self::V {
        GeneralizedBuechiView {
            state_infos: self.state_infos@,
            amount_aps: self.amount_aps,
            start_state: self.start_state,
            transitions: self.transitions@,
            end_sets: bit_seqs(self.end_sets@),
        }
    }
}

/// An automaton that accepts a run where the run visits an accepting state again and again.
#[derive(Debug)]
pub struct Buechi<T> {
    state_infos: Vec<T>,
    amount_aps: u8,
    start_state: State,
    transitions: Transitions,
    end_set: BitVec,
}

impl<T> View for Buechi<T> {
    type V = BuechiView<T>;

    closed spec fn view(&self) -> Self::V {
        BuechiView {
            state_infos: self.state_infos@,
            amount_aps: self.amount_aps,
            start_state: self.start_state,
            transitions: self.transitions@,
            end_set: bit_seq(self.end_set),
        }
    }
}

impl<T> GeneralizedBuechi<T> {
    #[verifier::type_invariant]
    spec fn inv(&self) -> bool {
        self@.well_formed()
    }

    /// An automaton of these parts.
    pub fn new(
        state_infos: Vec<T>,
        amount_aps: u8,
        start_state: State,
        transitions: Transitions,
        end_sets: Vec<BitVec>,
    ) -> (r: Self)
        requires
            (GeneralizedBuechiView {
                state_infos: state_infos@,
                amount_aps,
                start_state,
                transitions: transitions@,
                end_sets: bit_seqs(end_sets@),
            }).well_formed(),
        ensures
            r@ == (GeneralizedBuechiView {
                state_infos: state_infos@,
                amount_aps,
                start_state,
                transitions: transitions@,
                end_sets: bit_seqs(end_sets@),
            }),
    {
        Self { state_infos, amount_aps, start_state, transitions, end_sets }
    }

    pub fn amount_states(&self) -> (r: u64)
        ensures
            r == self@.state_infos.len(),
            self@.well_formed(),
    {
        proof {
            use_type_invariant(self);
        }
        self.state_infos.len() as u64
    }
}

impl<T> GeneralizedBuechi<T> {
    /// For each state what it stands for.
    pub fn state_infos(&self) -> (r: &Vec<T>)
        ensures
            r@ == self@.state_infos,
    {
        &self.state_infos
    }

    /// The number of atomic propositions that a symbol speaks of.
    pub fn amount_aps(&self) -> (r: u8)
        ensures
            r == self@.amount_aps,
    {
        self.amount_aps
    }

    pub fn start_state(&self) -> (r: State)
        ensures
            r == self@.start_state,
    {
        self.start_state
    }

    pub fn transitions(&self) -> (r: &Transitions)
        ensures
            r@ == self@.transitions,
    {
        &self.transitions
    }

    /// The accepting sets: each says for each state whether it belongs to it.
    pub fn end_sets(&self) -> (r: &Vec<BitVec>)
        ensures
            bit_seqs(r@) == self@.end_sets,
    {
        &self.end_sets
    }
}

impl<T> Buechi<T> {
    #[verifier::type_invariant]
    spec fn inv(&self) -> bool {
        self@.well_formed()
    }

    /// An automaton of these parts.
    pub fn new(
        state_infos: Vec<T>,
        amount_aps: u8,
        start_state: State,
        transitions: Transitions,
        end_set: BitVec,
    ) -> (r: Self)
        requires
            (BuechiView {
                state_infos: state_infos@,
                amount_aps,
                start_state,
                transitions: transitions@,
                end_set: bit_seq(end_set),
            }).well_formed(),
        ensures
            r@ == (BuechiView {
                state_infos: state_infos@,
                amount_aps,
                start_state,
                transitions: transitions@,
                end_set: bit_seq(end_set),
            }),
    {
        Self { state_infos, amount_aps, start_state, transitions, end_set }
    }

    pub fn amount_states(&self) -> (r: u64)
        ensures
            r == self@.state_infos.len(),
            self@.well_formed(),
    {
        proof {
            use_type_invariant(self);
        }
        self.state_infos.len() as u64
    }

    /// For each state what it stands for.
    pub fn state_infos(&self) -> (r: &Vec<T>)
        ensures
            r@ == self@.state_infos,
            self@.well_formed(),
    {
        proof {
            use_type_invariant(self);
        }
        &self.state_infos
    }

    /// The number of atomic propositions that a symbol speaks of.
    pub fn amount_aps(&self) -> (r: u8)
        ensures
            r == self@.amount_aps,
    {
        self.amount_aps
    }

    pub fn start_state(&self) -> (r: State)
        ensures
            r == self@.start_state,
            self@.well_formed(),
    {
        proof {
            use_type_invariant(self);
        }
        self.start_state
    }

    pub fn transitions(&self) -> (r: &Transitions)
        ensures
            r@ == self@.transitions,
            self@.well_formed(),
    {
        proof {
            use_type_invariant(self);
        }
        &self.transitions
    }

    /// The parts of the automaton: what the states stand for, the number of
    /// atomic propositions, the initial state, the edges and the accepting states.
    pub fn into_parts(self) -> (r: (Vec<T>, u8, State, Transitions, BitVec))
        ensures
            self@ == (BuechiView {
                state_infos: r.0@,
                amount_aps: r.1,
                start_state: r.2,
                transitions: r.3@,
                end_set: bit_seq(r.4),
            }),
            self@.well_formed(),
    {
        proof {
            use_type_invariant(&self);
        }
        (self.state_infos, self.amount_aps, self.start_state, self.transitions, self.end_set)
    }

    /// For each state whether it is accepting.
    pub fn end_set(&self) -> (r: &BitVec)
        ensures
            bit_seq(*r) == self@.end_set,
            self@.well_formed(),
    {
        proof {
            use_type_invariant(self);
        }
        &self.end_set
    }
}

/// The most accepting sets that an automaton can have if it is to be turned
/// into one with a single accepting set: the planes are numbered with bytes.
pub const MAX_END_SETS: usize = 256;

/// The first `k` of the edges, each led into the copy of its target that lies `shift` states on.
pub open spec fn lifted_edges(edges: Seq<(Symbol, State)>, shift: int, k: nat) -> Seq<(Symbol, State)>
    decreases k,
{
    if k == 0 {
        Seq::empty()
    } else {
        pushed_once(lifted_edges(edges, shift, (k - 1) as nat), (edges[k - 1].0, (shift + edges[k - 1].1) as State))
    }
}

impl<T> GeneralizedBuechiView<T> {
    /// The plane that a run goes on in when it leaves `state` on `plane`:
    /// the next one, cyclically, where `state` lies in the accepting set of
    /// `plane`, else the same.
    pub open spec fn target_plane(self, plane: int, state: int) -> int {
        if self.end_sets[plane][state] {
            (plane + 1) % (self.end_sets.len() as int)
        } else {
            plane
        }
    }

    /// The automaton with a single accepting set that accepts the same runs.
    /// Without accepting sets every state is accepting; with one, the
    /// automaton stays as it is. With more, there is one copy of the
    /// states, a plane, for each accepting set: the state `s` of the plane
    /// `p` has the index `p` times the number of states plus `s`. The
    /// initial state is that of the first plane, and the accepting states
    /// are those of the last accepting set on the last plane.
    pub open spec fn degeneralized(self) -> BuechiView<(T, u8)> {
        let n = self.state_infos.len() as int;
        let m = self.end_sets.len() as int;
        if m <= 1 {
            BuechiView {
                state_infos: Seq::new(n as nat, |s: int| (self.state_infos[s], 0u8)),
                amount_aps: self.amount_aps,
                start_state: self.start_state,
                transitions: self.transitions,
                end_set: if m == 0 {
                    Seq::new(n as nat, |s: int| true)
                } else {
                    self.end_sets[0]
                },
            }
        } else {
            BuechiView {
                state_infos: Seq::new((m * n) as nat, |x: int| (self.state_infos[x % n], (x / n) as u8)),
                amount_aps: self.amount_aps,
                start_state: self.start_state,
                transitions: Seq::new(
                    (m * n) as nat,
                    |x: int|
                        lifted_edges(
                            self.transitions[x % n],
                            self.target_plane(x / n, x % n) * n,
                            self.transitions[x % n].len(),
                        ),
                ),
                end_set: Seq::new((m * n) as nat, |x: int| x / n == m - 1 && self.end_sets[m - 1][x % n]),
            }
        }
    }
}

/// The state `s` of the plane `p` lies among the states of all planes, and
/// its index tells `p` and `s`.
pub proof fn lemma_cell(p: int, s: int, m: int, n: int)
    requires
        0 <= p < m,
        0 <= s < n,
    ensures
        0 <= p * n + s < m * n,
        (p * n + s) / n == p,
        (p * n + s) % n == s,
{
    assert(0 <= p * n + s < m * n) by (nonlinear_arith)
        requires
            0 <= p < m,
            0 <= s < n,
    ;
    vstd::arithmetic::div_mod::lemma_fundamental_div_mod_converse_div(p * n + s, n, p, s);
    vstd::arithmetic::div_mod::lemma_fundamental_div_mod_converse_mod(p * n + s, n, p, s);
}

/// An index among the states of all planes tells a plane and a state.
pub proof fn lemma_cell_of(x: int, m: int, n: int)
    requires
        0 <= x < m * n,
        0 <= n,
    ensures
        n > 0,
        0 <= x / n < m,
        0 <= x % n < n,
        x == (x / n) * n + x % n,
{
    assert(n > 0) by (nonlinear_arith)
        requires
            0 <= x < m * n,
            0 <= n,
    ;
    vstd::arithmetic::div_mod::lemma_fundamental_div_mod(x, n);
    let q = x / n;
    let r = x % n;
    assert(0 <= r < n) by {
        vstd::arithmetic::div_mod::lemma_mod_pos_bound(x, n);
    }
    assert(q * n == n * q) by (nonlinear_arith);
    assert(q < m) by (nonlinear_arith)
        requires
            q * n + r == x,
            x < m * n,
            0 <= r,
            n > 0,
    ;
    assert(0 <= q) by (nonlinear_arith)
        requires
            q * n + r == x,
            r < n,
            0 <= x,
            n > 0,
    ;
}

impl<T: Copy> Buechi<T> {
    /// The automaton with a single accepting set that accepts the runs of `generalized_buechi`.
    pub fn from_generalized_buechi(generalized_buechi: GeneralizedBuechi<T>) -> (r: Buechi<(T, u8)>)
        requires
            generalized_buechi@.end_sets.len() <= MAX_END_SETS,
        ensures
            r@ == generalized_buechi@.degeneralized(),
    {
        proof {
            use_type_invariant(&generalized_buechi);
        }
        let ghost g = generalized_buechi@;
        let amount_endsets = generalized_buechi.end_sets.len();
        let n = generalized_buechi.state_infos.len();
        if amount_endsets <= 1 {
            let mut infos: Vec<(T, u8)> = Vec::new();
            let mut s: usize = 0;
            while s < n
                invariant
                    s <= n,
                    n == generalized_buechi.state_infos@.len(),
                    infos@ == Seq::new(s as nat, |i: int| (generalized_buechi.state_infos@[i], 0u8)),
                decreases n - s,
            {
                infos.push((generalized_buechi.state_infos[s], 0u8));
                assert(infos@ =~= Seq::new((s + 1) as nat, |i: int| (generalized_buechi.state_infos@[i], 0u8)));
                s = s + 1;
            }
            let end_set = if amount_endsets == 0 {
                bits_from_elem(n, true)
            } else {
                assert(bit_seqs(generalized_buechi.end_sets@)[0] == bit_seq(generalized_buechi.end_sets@[0]));
                bits_clone(&generalized_buechi.end_sets[0])
            };
            assert(bit_seq(end_set) =~= g.degeneralized().end_set);
            return Buechi::new(
                infos,
                generalized_buechi.amount_aps,
                generalized_buechi.start_state,
                generalized_buechi.transitions,
                end_set,
            );
        }
        let ghost m = amount_endsets as int;
        let mut infos: Vec<(T, u8)> = Vec::new();
        let mut i: usize = 0;
        while i < amount_endsets
            invariant
                i <= amount_endsets,
                amount_endsets <= MAX_END_SETS,
                n == generalized_buechi.state_infos@.len(),
                infos@.len() == i * n,
                forall|p: int, s: int|
                    0 <= p < i && 0 <= s < n ==> #[trigger] infos@[p * n + s] == (
                        generalized_buechi.state_infos@[s],
                        p as u8,
                    ),
            decreases amount_endsets - i,
        {
            let ghost before = infos@;
            let mut s: usize = 0;
            while s < n
                invariant
                    s <= n,
                    i < amount_endsets,
                    amount_endsets <= MAX_END_SETS,
                    n == generalized_buechi.state_infos@.len(),
                    before.len() == i * n,
                    infos@ == before + Seq::new(s as nat, |t: int| (generalized_buechi.state_infos@[t], i as u8)),
                decreases n - s,
            {
                infos.push((generalized_buechi.state_infos[s], i as u8));
                assert(infos@ =~= before + Seq::new(
                    (s + 1) as nat,
                    |t: int| (generalized_buechi.state_infos@[t], i as u8),
                ));
                s = s + 1;
            }
            proof {
                assert((i + 1) * n == i * n + n) by (nonlinear_arith);
                assert forall|p: int, s: int| 0 <= p < i + 1 && 0 <= s < n implies #[trigger] infos@[p * n + s] == (
                    generalized_buechi.state_infos@[s],
                    p as u8,
                ) by {
                    if p < i {
                        lemma_cell(p, s, i as int, n as int);
                        assert(infos@[p * n + s] == before[p * n + s]);
                    }
                }
            }
            i = i + 1;
        }
        let total = infos.len();
        let mut transitions = Transitions::for_states(total);
        let mut end_set = bits_from_elem(total, false);
        let last = amount_endsets - 1;
        proof {
            assert(total == m * n);
            assert forall|p: int, s: int| 0 <= p < m && 0 <= s < n implies #[trigger] transitions@[p * n + s] == Seq::<
                (Symbol, State),
            >::empty() by {
                lemma_cell(p, s, m, n as int);
            }
            assert forall|p: int, s: int| 0 <= p < m && 0 <= s < n implies !(#[trigger] bit_seq(end_set)[p * n + s]) by {
                lemma_cell(p, s, m, n as int);
            }
        }
        let mut i: usize = 0;
        while i < amount_endsets
            invariant
                i <= amount_endsets,
                last == amount_endsets - 1,
                m == amount_endsets,
                m >= 2,
                g == generalized_buechi@,
                g.well_formed(),
                m == g.end_sets.len(),
                n == g.state_infos.len(),
                total == m * n,
                transitions@.len() == total,
                targets_below(transitions@, total as nat),
                forall|p: int, s: int|
                    0 <= p < i && 0 <= s < n ==> #[trigger] transitions@[p * n + s] == lifted_edges(
                        g.transitions[s],
                        g.target_plane(p, s) * n,
                        g.transitions[s].len(),
                    ),
                forall|p: int, s: int|
                    i <= p < m && 0 <= s < n ==> #[trigger] transitions@[p * n + s] == Seq::<
                        (Symbol, State),
                    >::empty(),
                bit_seq(end_set).len() == total,
                forall|p: int, s: int|
                    0 <= p < m && 0 <= s < n ==> #[trigger] bit_seq(end_set)[p * n + s] == (p < i && p == m - 1
                        && g.end_sets[m - 1][s]),
            decreases amount_endsets - i,
        {
            let mut state1: usize = 0;
            while state1 < n
                invariant
                    state1 <= n,
                    i < amount_endsets,
                    last == amount_endsets - 1,
                    m == amount_endsets,
                    m >= 2,
                    g == generalized_buechi@,
                    g.well_formed(),
                    m == g.end_sets.len(),
                    n == g.state_infos.len(),
                    total == m * n,
                    transitions@.len() == total,
                    targets_below(transitions@, total as nat),
                    forall|p: int, s: int|
                        0 <= p && (p < i || (p == i && s < state1)) && 0 <= s < n ==> #[trigger] transitions@[p * n + s]
                            == lifted_edges(
                            g.transitions[s],
                            g.target_plane(p, s) * n,
                            g.transitions[s].len(),
                        ),
                    forall|p: int, s: int|
                        (i < p || (p == i && state1 <= s)) && 0 <= p < m && 0 <= s < n ==> #[trigger] transitions@[(p * n
                            + s) as int] == Seq::<(Symbol, State)>::empty(),
                    bit_seq(end_set).len() == total,
                    forall|p: int, s: int|
                        0 <= p < m && 0 <= s < n ==> #[trigger] bit_seq(end_set)[p * n + s] == ((p < i || (p == i
                            && s < state1)) && p == m - 1 && g.end_sets[m - 1][s]),
                decreases n - state1,
            {
                proof {
                    lemma_cell(i as int, state1 as int, m, n as int);
                    assert(bit_seqs(generalized_buechi.end_sets@)[i as int] == bit_seq(
                        generalized_buechi.end_sets@[i as int],
                    ));
                    assert(g.end_sets[i as int].len() == n);
                }
                let in_set = match bits_get(&generalized_buechi.end_sets[i], state1) {
                    Some(bit) => bit,
                    None => false,
                };
                let target_plane = if in_set {
                    (i + 1) % amount_endsets
                } else {
                    i
                };
                proof {
                    assert(target_plane == g.target_plane(i as int, state1 as int));
                    lemma_cell(target_plane as int, 0, m, n as int);
                }
                let from = i * n + state1;
                let shift = target_plane * n;
                let row = generalized_buechi.transitions.get_from_state(state1 as u64);
                let ghost others = transitions@;
                let mut e: usize = 0;
                while e < row.len()
                    invariant
                        e <= row@.len(),
                        state1 < n,
                        i < m,
                        target_plane < m,
                        from == i * n + state1,
                        from < total,
                        shift == target_plane * n,
                        g.well_formed(),
                        n == g.state_infos.len(),
                        total == m * n,
                        row@ == g.transitions[state1 as int],
                        transitions@.len() == total,
                        targets_below(transitions@, total as nat),
                        forall|x: int| 0 <= x < total && x != from ==> #[trigger] transitions@[x] == others[x],
                        transitions@[from as int] == lifted_edges(row@, shift as int, e as nat),
                    decreases row@.len() - e,
                {
                    let (symbol, state2) = row[e];
                    proof {
                        assert(g.transitions[state1 as int][e as int].1 < n);
                        lemma_cell(target_plane as int, state2 as int, m, n as int);
                        lemma_with_edge_below(
                            transitions@,
                            from as u64,
                            symbol,
                            (shift + state2 as usize) as u64,
                            total as nat,
                        );
                    }
                    transitions.add(from as u64, symbol, (shift + state2 as usize) as u64);
                    e = e + 1;
                }
                if i == last && in_set {
                    bits_set(&mut end_set, from, true);
                }
                proof {
                    assert forall|p: int, s: int|
                        0 <= p && (p < i || (p == i && s < state1 + 1)) && 0 <= s < n implies #[trigger] transitions@[(p * n
                        + s) as int] == lifted_edges(
                        g.transitions[s],
                        g.target_plane(p, s) * n,
                        g.transitions[s].len(),
                    ) by {
                        lemma_cell(p, s, m, n as int);
                        if !(p == i && s == state1) {
                            assert(transitions@[p * n + s] == others[p * n + s]);
                        }
                    }
                    assert forall|p: int, s: int|
                        (i < p || (p == i && state1 + 1 <= s)) && p < m && 0 <= s < n implies #[trigger] transitions@[(p
                        * n + s) as int] == Seq::<(Symbol, State)>::empty() by {
                        lemma_cell(p, s, m, n as int);
                        assert(transitions@[p * n + s] == others[p * n + s]);
                    }
                    assert forall|p: int, s: int| 0 <= p < m && 0 <= s < n implies #[trigger] bit_seq(end_set)[p * n + s]
                        == ((p < i || (p == i && s < state1 + 1)) && p == m - 1 && g.end_sets[m - 1][s]) by {
                        lemma_cell(p, s, m, n as int);
                    }
                }
                state1 = state1 + 1;
            }
            i = i + 1;
        }
        proof {
            let expected = g.degeneralized();
            assert(infos@ =~= expected.state_infos) by {
                assert forall|x: int| 0 <= x < m * n implies infos@[x] == expected.state_infos[x] by {
                    lemma_cell_of(x, m, n as int);
                    let p = x / (n as int);
                    let s = x % (n as int);
                    assert(infos@[p * n + s] == (generalized_buechi.state_infos@[s], p as u8));
                }
            }
            assert(transitions@ =~= expected.transitions) by {
                assert forall|x: int| 0 <= x < m * n implies transitions@[x] == expected.transitions[x] by {
                    lemma_cell_of(x, m, n as int);
                    let p = x / (n as int);
                    let s = x % (n as int);
                    assert(transitions@[p * n + s] == lifted_edges(
                        g.transitions[s],
                        g.target_plane(p, s) * n,
                        g.transitions[s].len(),
                    ));
                }
            }
            assert(bit_seq(end_set) =~= expected.end_set) by {
                assert forall|x: int| 0 <= x < m * n implies bit_seq(end_set)[x] == expected.end_set[x] by {
                    lemma_cell_of(x, m, n as int);
                    let p = x / (n as int);
                    let s = x % (n as int);
                    assert(bit_seq(end_set)[p * n + s] == (p == m - 1 && g.end_sets[m - 1][s]));
                }
            }
            lemma_cell(0, g.start_state as int, m, n as int);
        }
        Buechi::new(infos, generalized_buechi.amount_aps, generalized_buechi.start_state, transitions, end_set)
    }
}

} // verus!
