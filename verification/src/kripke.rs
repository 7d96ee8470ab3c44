//! Kripke structures and their encoding as Büchi automata.

use crate::bits::{bit_seq, bits_all, bits_from_elem, bits_get, bits_set};
use crate::buechi::transitions::{lemma_pushed_once, pushed_once, with_edge, Transitions};
use crate::buechi::{Buechi, BuechiView, State, Symbol};
use crate::model_checking_error::{ModelCheckingError, ModelCheckingErrorKind};
use crate::parsing::lexer::{ApMap, MAX_APS};
use crate::seqs::{lemma_position, position};
use std::collections::HashMap;
use vstd::assert_by_contradiction;
use vstd::prelude::*;
use vstd::string::StringSliceAdditionalSpecFns;
use vstd::utf8::encode_utf8;

verus! {

broadcast use vstd::std_specs::hash::group_hash_axioms;

/// A state of a Kripke structure, as a caller describes it.
pub struct KripkeStateView {
    /// The names of the atomic propositions that hold in the state.
    pub aps: Seq<Seq<char>>,
    pub id: u64,
    pub start: bool,
}

/// A Kripke structure, as a caller describes it.
pub struct KripkeView {
    /// The states, in the order in which their identifiers were first added.
    pub states: Seq<KripkeStateView>,
    /// The transitions, as pairs of identifiers, in the order in which they were added.
    pub transitions: Seq<(u64, u64)>,
}

/// The identifiers of the states, in their order.
pub open spec fn ids(states: Seq<KripkeStateView>) -> Seq<u64> {
    Seq::new(states.len(), |i: int| states[i].id)
}

/// The symbol of a state: the bit of each atomic proposition that holds in the
/// state and that `names` knows is set, every other bit is clear.
pub open spec fn symbol_of(aps: Seq<Seq<char>>, names: Seq<Seq<u8>>) -> Symbol
    decreases aps.len(),
{
    if aps.len() == 0 {
        0
    } else {
        let before = symbol_of(aps.drop_last(), names);
        match position(names, encode_utf8(aps.last())) {
            Some(k) => before | (1u64 << (k as u64)),
            None => before,
        }
    }
}

/// The index that the automaton gives the `k`-th state of the structure:
/// the first two indices are those of the initial and the dead state.
pub open spec fn internal(k: nat) -> State {
    (k + 2) as State
}

/// The edges that leave the initial state: one into each start state among
/// the first `k` states, under the symbol of that state.
pub open spec fn start_edges(states: Seq<KripkeStateView>, names: Seq<Seq<u8>>, k: nat) -> Seq<(Symbol, State)>
    decreases k,
{
    if k == 0 {
        Seq::empty()
    } else {
        let before = start_edges(states, names, (k - 1) as nat);
        if states[k - 1].start {
            pushed_once(before, (symbol_of(states[k - 1].aps, names), internal((k - 1) as nat)))
        } else {
            before
        }
    }
}

/// The edges that leave the state with index `source` on account of the
/// first `m` transitions: one for each transition from that state, into the
/// target and under the symbol of the target.
pub open spec fn out_edges(model: KripkeView, names: Seq<Seq<u8>>, source: nat, m: nat) -> Seq<(Symbol, State)>
    decreases m,
{
    if m == 0 {
        Seq::empty()
    } else {
        let before = out_edges(model, names, source, (m - 1) as nat);
        let from = position(ids(model.states), model.transitions[m - 1].0);
        let to = position(ids(model.states), model.transitions[m - 1].1);
        if from == Some(source) && to is Some {
            pushed_once(before, (symbol_of(model.states[to->0 as int].aps, names), internal(to->0)))
        } else {
            before
        }
    }
}

/// Whether some state is a start state.
pub open spec fn some_start(model: KripkeView) -> bool {
    exists|k: int| 0 <= k < model.states.len() && (#[trigger] model.states[k]).start
}

/// Whether every transition leads from a state that was added to a state that was added.
pub open spec fn endpoints_declared(model: KripkeView) -> bool {
    forall|m: int|
        0 <= m < model.transitions.len() ==> position(ids(model.states), (#[trigger] model.transitions[m]).0)
            is Some && position(ids(model.states), model.transitions[m].1) is Some
}

/// The edges of the automaton before it is made total: those of the initial
/// state, none for the dead state, and those of each state of the structure.
pub open spec fn model_edges(model: KripkeView, names: Seq<Seq<u8>>) -> Seq<Seq<(Symbol, State)>> {
    Seq::new(
        model.states.len() + 2,
        |j: int|
            if j == 0 {
                start_edges(model.states, names, model.states.len())
            } else if j == 1 {
                Seq::empty()
            } else {
                out_edges(model, names, (j - 2) as nat, model.transitions.len())
            },
    )
}

/// `edges` made total: a state without an outgoing edge gets one into the
/// dead state, which has index 1, under the empty symbol.
pub open spec fn totalized(edges: Seq<Seq<(Symbol, State)>>) -> Seq<Seq<(Symbol, State)>> {
    Seq::new(
        edges.len(),
        |j: int|
            if edges[j].len() == 0 {
                seq![(0u64, 1u64)]
            } else {
                edges[j]
            },
    )
}

/// What the states of the automaton stand for: the initial state, the dead
/// state, and behind them the identifiers of the states of the structure.
pub open spec fn model_state_infos(model: KripkeView) -> Seq<u64> {
    seq![u64::MAX, (u64::MAX - 1) as u64] + ids(model.states)
}

/// The automaton that encodes a Kripke structure: its runs from the initial
/// state read the symbols of the states that an execution enters. Every state
/// is accepting. A structure without a start state is refused, and so is one
/// with a transition from or to a state that was never added.
pub open spec fn kripke_automaton(model: KripkeView, names: Seq<Seq<u8>>) -> Result<
    BuechiView<u64>,
    ModelCheckingErrorKind,
> {
    if !some_start(model) {
        Err(ModelCheckingErrorKind::ModelNoStart)
    } else if !endpoints_declared(model) {
        Err(ModelCheckingErrorKind::ModelInvalid)
    } else {
        Ok(
            BuechiView {
                state_infos: model_state_infos(model),
                amount_aps: names.len() as u8,
                start_state: 0,
                transitions: totalized(model_edges(model, names)),
                end_set: Seq::new(model.states.len() + 2, |j: int| true),
            },
        )
    }
}

#[derive(Clone)]
struct KripkeState {
    aps: Vec<String>,
    id: u64,
    start: bool,
}

/// The names, each as its characters.
pub open spec fn texts(aps: Seq<String>) -> Seq<Seq<char>> {
    Seq::new(aps.len(), |i: int| aps[i]@)
}

impl View for KripkeState {
    type V = KripkeStateView;

    closed spec fn view(&self) -> Self::V {
        KripkeStateView { aps: texts(self.aps@), id: self.id, start: self.start }
    }
}

/// Collects the states and transitions of a Kripke structure.
#[derive(Clone)]
pub struct KripkeBuilder {
    states: Vec<KripkeState>,
    transitions: Vec<(u64, u64)>,
}

impl View for KripkeBuilder {
    type V = KripkeView;

    closed spec fn view(&self) -> Self::V {
        KripkeView {
            states: Seq::new(self.states@.len(), |i: int| self.states@[i]@),
            transitions: self.transitions@,
        }
    }
}

impl Default for KripkeBuilder {
    fn default() -> (r: Self)
        ensures
            r@.states.len() == 0,
            r@.transitions.len() == 0,
    {
        Self::new()
    }
}

impl KripkeBuilder {
    /// A structure without states and transitions.
    pub fn new() -> (r: KripkeBuilder)
        ensures
            r@.states.len() == 0,
            r@.transitions.len() == 0,
    {
        KripkeBuilder { states: Vec::new(), transitions: Vec::new() }
    }

    /// Adds the state `id`, in which the propositions `aps` hold. A state
    /// that was added under the same identifier before is replaced where it stands.
    pub fn add_state(&mut self, aps: Vec<String>, id: u64, start: bool)
        ensures
            final(self)@.transitions == old(self)@.transitions,
            final(self)@.states == (match position(ids(old(self)@.states), id) {
                Some(k) => old(self)@.states.update(k as int, KripkeStateView { aps: texts(aps@), id, start }),
                None => old(self)@.states.push(KripkeStateView { aps: texts(aps@), id, start }),
            }),
    {
        let ghost before = self@.states;
        let mut i: usize = 0;
        while i < self.states.len()
            invariant
                i <= self.states@.len(),
                self@ == old(self)@,
                before == self@.states,
                forall|j: int| 0 <= j < i ==> ids(before)[j] != id,
            decreases self.states@.len() - i,
        {
            if self.states[i].id == id {
                proof {
                    assert(ids(before)[i as int] == id);
                    lemma_position(ids(before), id);
                }
                self.states[i] = KripkeState { aps, id, start };
                assert(self@.states =~= before.update(i as int, KripkeStateView { aps: texts(aps@), id, start }));
                return;
            }
            i = i + 1;
        }
        proof {
            lemma_position(ids(before), id);
        }
        self.states.push(KripkeState { aps, id, start });
        assert(self@.states =~= before.push(KripkeStateView { aps: texts(aps@), id, start }));
    }

    /// Adds a transition from the state `state_id_1` to the state `state_id_2`.
    pub fn add_transition(&mut self, state_id_1: u64, state_id_2: u64)
        ensures
            final(self)@.states == old(self)@.states,
            final(self)@.transitions == old(self)@.transitions.push((state_id_1, state_id_2)),
    {
        self.transitions.push((state_id_1, state_id_2));
    }

    /// The symbol of a state in which the propositions `string_aps` hold.
    pub fn get_symbol_from_string_aps_with_ap_map(string_aps: &Vec<String>, ap_map: &ApMap) -> (r: u64)
        ensures
            r == symbol_of(texts(string_aps@), ap_map@),
    {
        let mut symbol: u64 = 0;
        let mut i: usize = 0;
        while i < string_aps.len()
            invariant
                i <= string_aps@.len(),
                symbol == symbol_of(texts(string_aps@).take(i as int), ap_map@),
            decreases string_aps@.len() - i,
        {
            assert(texts(string_aps@).take(i + 1).drop_last() =~= texts(string_aps@).take(i as int));
            let name = string_aps[i].as_str();
            proof {
                assert(texts(string_aps@).take(i + 1).last() == name@);
                assert(name.spec_bytes() == encode_utf8(name@));
                lemma_position(ap_map@, encode_utf8(name@));
            }
            if let Some(ap) = ap_map.get(name) {
                symbol = symbol | (1u64 << (ap as u64));
            }
            i = i + 1;
        }
        assert(texts(string_aps@).take(i as int) =~= texts(string_aps@));
        symbol
    }

    /// Encodes the structure as an automaton over the propositions of `ap_map`.
    pub fn create_buechi(&self, ap_map: &ApMap) -> (r: Result<Buechi<u64>, ModelCheckingError>)
        ensures
            match kripke_automaton(self@, ap_map@) {
                Ok(automaton) => r matches Ok(b) && b@ == automaton,
                Err(kind) => r matches Err(e) && e.spec_kind() == kind,
            },
    {
        let ghost model = self@;
        let ghost names = ap_map@;
        let amount_aps = ap_map.len() as u8;
        let mut state_infos: Vec<u64> = Vec::new();
        state_infos.push(u64::MAX);
        state_infos.push(u64::MAX - 1);
        let mut state_map = HashMap::<u64, u64>::new();
        let mut has_start = false;
        let mut k: usize = 0;
        while k < self.states.len()
            invariant
                k <= self.states@.len(),
                model == self@,
                state_infos@ == seq![u64::MAX, (u64::MAX - 1) as u64] + ids(model.states).take(k as int),
                has_start == exists|j: int| 0 <= j < k && (#[trigger] model.states[j]).start,
                forall|id: u64| #[trigger]
                    state_map@.contains_key(id) <==> position(ids(model.states).take(k as int), id) is Some,
                forall|id: u64| #[trigger]
                    state_map@.contains_key(id) ==> state_map@[id] == position(
                        ids(model.states).take(k as int),
                        id,
                    )->0 + 2,
            decreases self.states@.len() - k,
        {
            let state = &self.states[k];
            let current_id = state_infos.len() as u64;
            proof {
                assert(ids(model.states).take(k + 1).drop_last() =~= ids(model.states).take(k as int));
                assert(ids(model.states).take(k + 1).last() == state.id);
                assert(model.states[k as int].start == state.start);
            }
            if !state_map.contains_key(&state.id) {
                state_map.insert(state.id, current_id);
            }
            state_infos.push(state.id);
            assert(state_infos@ =~= seq![u64::MAX, (u64::MAX - 1) as u64] + ids(model.states).take(k + 1));
            if state.start {
                has_start = true;
            }
            k = k + 1;
        }
        assert(ids(model.states).take(k as int) =~= ids(model.states));
        if !has_start {
            return Err(ModelCheckingError::new(ModelCheckingErrorKind::ModelNoStart));
        }
        assert(some_start(model));
        let amount_states = state_infos.len();
        let mut transitions = Transitions::for_states(amount_states);
        let mut k: usize = 0;
        while k < self.states.len()
            invariant
                k <= self.states@.len(),
                model == self@,
                names == ap_map@,
                amount_states == model.states.len() + 2,
                transitions@.len() == amount_states,
                transitions@[0] == start_edges(model.states, names, k as nat),
                forall|j: int| 1 <= j < amount_states ==> transitions@[j] == Seq::<(Symbol, State)>::empty(),
                forall|i: int| 0 <= i < transitions@[0].len() ==> (#[trigger] transitions@[0][i]).1 < amount_states,
                (exists|j: int| 0 <= j < k && (#[trigger] model.states[j]).start) ==> transitions@[0].len() > 0,
            decreases self.states@.len() - k,
        {
            let state = &self.states[k];
            proof {
                assert(model.states[k as int] == state@);
            }
            if state.start {
                let symbol = Self::get_symbol_from_string_aps_with_ap_map(&state.aps, ap_map);
                transitions.add(0, symbol, (k + 2) as u64);
            }
            k = k + 1;
        }
        let mut has_successor = bits_from_elem(amount_states, false);
        bits_set(&mut has_successor, 0, true);
        bits_set(&mut has_successor, 1, true);
        let mut m: usize = 0;
        while m < self.transitions.len()
            invariant
                m <= self.transitions@.len(),
                model == self@,
                names == ap_map@,
                some_start(model),
                amount_states == model.states.len() + 2,
                transitions@.len() == amount_states,
                transitions@[0] == start_edges(model.states, names, model.states.len()),
                transitions@[0].len() > 0,
                transitions@[1] == Seq::<(Symbol, State)>::empty(),
                forall|i: int|
                    0 <= i < model.states.len() ==> #[trigger] transitions@[i + 2] == out_edges(
                        model,
                        names,
                        i as nat,
                        m as nat,
                    ),
                forall|from: int, i: int|
                    0 <= from < transitions@.len() && 0 <= i < transitions@[from].len() ==> (
                    #[trigger] transitions@[from][i]).1 < amount_states,
                bit_seq(has_successor).len() == amount_states,
                bit_seq(has_successor)[0],
                bit_seq(has_successor)[1],
                forall|i: int|
                    0 <= i < model.states.len() ==> #[trigger] bit_seq(has_successor)[i + 2] == (out_edges(
                        model,
                        names,
                        i as nat,
                        m as nat,
                    ).len() > 0),
                forall|j: int|
                    0 <= j < m ==> position(ids(model.states), (#[trigger] model.transitions[j]).0) is Some
                        && position(ids(model.states), model.transitions[j].1) is Some,
                forall|id: u64| #[trigger]
                    state_map@.contains_key(id) <==> position(ids(model.states), id) is Some,
                forall|id: u64| #[trigger]
                    state_map@.contains_key(id) ==> state_map@[id] == position(ids(model.states), id)->0 + 2,
            decreases self.transitions@.len() - m,
        {
            let (state1, state2) = self.transitions[m];
            proof {
                lemma_position(ids(model.states), state1);
                lemma_position(ids(model.states), state2);
            }
            let internal_state1 = match state_map.get(&state1) {
                Some(found) => *found,
                None => {
                    assert(model.transitions[m as int].0 == state1);
                    return Err(ModelCheckingError::new(ModelCheckingErrorKind::ModelInvalid));
                },
            };
            let internal_state2 = match state_map.get(&state2) {
                Some(found) => *found,
                None => {
                    assert(model.transitions[m as int].1 == state2);
                    return Err(ModelCheckingError::new(ModelCheckingErrorKind::ModelInvalid));
                },
            };
            let target_state = &self.states[(internal_state2 - 2) as usize];
            let ghost source = (internal_state1 - 2) as nat;
            let ghost target = (internal_state2 - 2) as nat;
            proof {
                assert(model.states[target as int] == target_state@);
            }
            let symbol = Self::get_symbol_from_string_aps_with_ap_map(&target_state.aps, ap_map);
            let ghost before = transitions@;
            transitions.add(internal_state1, symbol, internal_state2);
            bits_set(&mut has_successor, internal_state1 as usize, true);
            proof {
                assert forall|i: int| 0 <= i < model.states.len() implies #[trigger] transitions@[i + 2]
                    == out_edges(model, names, i as nat, (m + 1) as nat) && bit_seq(has_successor)[i + 2] == (
                out_edges(model, names, i as nat, (m + 1) as nat).len() > 0) by {
                    assert(before[i + 2] == out_edges(model, names, i as nat, m as nat));
                    if i == source {
                        assert(before[i + 2].push((symbol, internal_state2)).len() > 0);
                    }
                }
                assert forall|from: int, i: int|
                    0 <= from < transitions@.len() && 0 <= i < transitions@[from].len() implies (
                #[trigger] transitions@[from][i]).1 < amount_states by {
                    if from == internal_state1 && !before[from].contains((symbol, internal_state2)) {
                        if i < before[from].len() {
                            assert(transitions@[from][i] == before[from][i]);
                        }
                    } else {
                        assert(transitions@[from][i] == before[from][i]);
                    }
                }
            }
            m = m + 1;
        }
        let ghost base = transitions@;
        proof {
            assert forall|j: int| 2 <= j < amount_states implies base[j] == out_edges(
                model,
                names,
                (j - 2) as nat,
                model.transitions.len(),
            ) && bit_seq(has_successor)[j] == (base[j].len() > 0) by {
                assert(base[(j - 2) + 2] == out_edges(model, names, (j - 2) as nat, m as nat));
                assert(bit_seq(has_successor)[(j - 2) + 2] == (base[j].len() > 0));
            }
            assert(base =~= model_edges(model, names));
        }
        if !bits_all(&has_successor) {
            let mut j: usize = 0;
            while j < amount_states
                invariant
                    j <= amount_states,
                    amount_states >= 2,
                    base.len() == amount_states,
                    transitions@.len() == amount_states,
                    bit_seq(has_successor).len() == amount_states,
                    base[0].len() > 0,
                    base[1].len() == 0,
                    bit_seq(has_successor)[0],
                    bit_seq(has_successor)[1],
                    forall|i: int| 2 <= i < amount_states ==> #[trigger] bit_seq(has_successor)[i] == (base[i].len() > 0),
                    forall|i: int| j <= i < amount_states ==> #[trigger] transitions@[i] == base[i],
                    forall|i: int| 0 <= i < j && i != 1 ==> #[trigger] transitions@[i] == totalized(base)[i],
                    j > 1 ==> transitions@[1] == base[1],
                    forall|from: int, i: int|
                        0 <= from < transitions@.len() && 0 <= i < transitions@[from].len() ==> (
                        #[trigger] transitions@[from][i]).1 < amount_states,
                decreases amount_states - j,
            {
                let ghost before = transitions@;
                if let Some(false) = bits_get(&has_successor, j) {
                    transitions.add(j as u64, 0, 1);
                    proof {
                        assert(before[j as int] =~= Seq::<(Symbol, State)>::empty());
                        assert(transitions@[j as int] =~= seq![(0u64, 1u64)]);
                        assert forall|from: int, i: int|
                            0 <= from < transitions@.len() && 0 <= i < transitions@[from].len() implies (
                        #[trigger] transitions@[from][i]).1 < amount_states by {
                            if from != j {
                                assert(transitions@[from][i] == before[from][i]);
                            }
                        }
                    }
                }
                j = j + 1;
            }
        } else {
            assert forall|i: int| 0 <= i < amount_states && i != 1 implies #[trigger] transitions@[i] == totalized(
                base,
            )[i] by {
                if i >= 2 {
                    assert(bit_seq(has_successor)[i]);
                    assert(bit_seq(has_successor)[(i - 2) + 2]);
                }
            }
        }
        let ghost before = transitions@;
        transitions.add(1, 0, 1);
        proof {
            assert(before[1] =~= Seq::<(Symbol, State)>::empty());
            assert(transitions@[1] =~= seq![(0u64, 1u64)]);
            assert(transitions@ =~= totalized(base));
            assert forall|from: int, i: int|
                0 <= from < transitions@.len() && 0 <= i < transitions@[from].len() implies (
            #[trigger] transitions@[from][i]).1 < amount_states by {
                if from != 1 {
                    assert(transitions@[from][i] == before[from][i]);
                }
            }
        }
        let end_set = bits_from_elem(amount_states, true);
        assert(bit_seq(end_set) =~= Seq::new(model.states.len() + 2, |j: int| true));
        Ok(Buechi::new(state_infos, amount_aps, 0, transitions, end_set))
    }
}

/// From the initial state an edge leads just into each start state, under
/// the symbol of that state.
pub proof fn lemma_start_edges(states: Seq<KripkeStateView>, names: Seq<Seq<u8>>, k: nat, edge: (Symbol, State))
    requires
        k <= states.len(),
        states.len() + 2 <= u64::MAX,
    ensures
        start_edges(states, names, k).contains(edge) <==> exists|i: int|
            0 <= i < k && (#[trigger] states[i]).start && edge == (symbol_of(states[i].aps, names), (i + 2) as State),
    decreases k,
{
    if k > 0 {
        lemma_start_edges(states, names, (k - 1) as nat, edge);
        let before = start_edges(states, names, (k - 1) as nat);
        let new_edge = (symbol_of(states[k - 1].aps, names), internal((k - 1) as nat));
        if states[k - 1].start {
            lemma_pushed_once(before, new_edge, edge);
            if edge == new_edge {
                assert(states[k - 1].start && edge == (symbol_of(states[k - 1].aps, names), ((k - 1) + 2) as State));
            }
        }
    }
}

/// From a state of the structure an edge leads just into the target of
/// each transition from that state, under the symbol of the target.
pub proof fn lemma_out_edges(model: KripkeView, names: Seq<Seq<u8>>, source: nat, m: nat, edge: (Symbol, State))
    requires
        m <= model.transitions.len(),
        model.states.len() + 2 <= u64::MAX,
    ensures
        out_edges(model, names, source, m).contains(edge) <==> exists|j: int|
            0 <= j < m && position(ids(model.states), (#[trigger] model.transitions[j]).0) == Some(source) && ({
                let to = position(ids(model.states), model.transitions[j].1);
                to is Some && edge == (symbol_of(model.states[to->0 as int].aps, names), (to->0 + 2) as State)
            }),
    decreases m,
{
    if m > 0 {
        lemma_out_edges(model, names, source, (m - 1) as nat, edge);
        let before = out_edges(model, names, source, (m - 1) as nat);
        let from = position(ids(model.states), model.transitions[m - 1].0);
        let to = position(ids(model.states), model.transitions[m - 1].1);
        if from == Some(source) && to is Some {
            let new_edge = (symbol_of(model.states[to->0 as int].aps, names), internal(to->0));
            lemma_position(ids(model.states), model.transitions[m - 1].1);
            lemma_pushed_once(before, new_edge, edge);
            if edge == new_edge {
                assert(position(ids(model.states), model.transitions[m - 1].0) == Some(source));
            }
        }
    }
}

/// Whether the structure has a transition from its state with index `source`.
pub open spec fn has_successor(model: KripkeView, source: nat) -> bool {
    exists|j: int|
        0 <= j < model.transitions.len() && position(ids(model.states), (#[trigger] model.transitions[j]).0) == Some(
            source,
        )
}

/// The edges of the automaton of a structure are just these. From the
/// initial state one leads into each start state. From a state of the
/// structure one leads into the target of each transition from it or, where
/// there is none, into the dead state under the empty symbol. From the dead
/// state one leads to the dead state under the empty symbol. An edge into
/// a state of the structure carries the symbol of that state.
pub proof fn lemma_kripke_edges(model: KripkeView, names: Seq<Seq<u8>>, from: State, symbol: Symbol, to: State)
    requires
        kripke_automaton(model, names) is Ok,
        model.states.len() + 2 <= u64::MAX,
        from < model.states.len() + 2,
    ensures
        kripke_automaton(model, names)->Ok_0.transitions[from as int].contains((symbol, to)) <==> (if from == 0 {
            exists|i: int|
                0 <= i < model.states.len() && (#[trigger] model.states[i]).start && symbol == symbol_of(
                    model.states[i].aps,
                    names,
                ) && to == i + 2
        } else if from == 1 || !has_successor(model, (from - 2) as nat) {
            symbol == 0 && to == 1
        } else {
            exists|j: int|
                0 <= j < model.transitions.len() && position(ids(model.states), (#[trigger] model.transitions[j]).0)
                    == Some((from - 2) as nat) && ({
                    let target = position(ids(model.states), model.transitions[j].1);
                    target is Some && symbol == symbol_of(model.states[target->0 as int].aps, names) && to
                        == target->0 + 2
                })
        }),
{
    let base = model_edges(model, names);
    let row = base[from as int];
    let total = totalized(base)[from as int];
    let n = model.states.len();
    if from == 0 {
        lemma_start_edges(model.states, names, n, (symbol, to));
        let k = choose|k: int| 0 <= k < n && (#[trigger] model.states[k]).start;
        lemma_start_edges(model.states, names, n, (symbol_of(model.states[k].aps, names), (k + 2) as State));
        assert(row.len() > 0);
    } else if from == 1 {
        assert(total == seq![(0u64, 1u64)]);
        assert(total[0] == (0u64, 1u64));
    } else {
        let source = (from - 2) as nat;
        lemma_out_edges(model, names, source, model.transitions.len(), (symbol, to));
        if has_successor(model, source) {
            let j = choose|j: int|
                0 <= j < model.transitions.len() && position(ids(model.states), (#[trigger] model.transitions[j]).0)
                    == Some(source);
            let target = position(ids(model.states), model.transitions[j].1);
            assert(target is Some);
            let edge = (symbol_of(model.states[target->0 as int].aps, names), (target->0 + 2) as State);
            lemma_out_edges(model, names, source, model.transitions.len(), edge);
            assert(row.contains(edge));
            assert(row.len() > 0);
            lemma_position(ids(model.states), model.transitions[j].1);
        } else {
            assert_by_contradiction!(row.len() == 0, {
                lemma_out_edges(model, names, source, model.transitions.len(), row[0]);
                assert(row.contains(row[0]));
            });
            assert(total == seq![(0u64, 1u64)]);
            assert(total[0] == (0u64, 1u64));
        }
        if row.len() > 0 && row.contains((symbol, to)) {
            let j = choose|j: int|
                0 <= j < model.transitions.len() && position(ids(model.states), (#[trigger] model.transitions[j]).0)
                    == Some(source) && ({
                    let target = position(ids(model.states), model.transitions[j].1);
                    target is Some && (symbol, to) == (
                        symbol_of(model.states[target->0 as int].aps, names),
                        (target->0 + 2) as State,
                    )
                });
            lemma_position(ids(model.states), model.transitions[j].1);
        }
    }
}

} // verus!
