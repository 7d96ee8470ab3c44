//! From a formula to a generalized Büchi automaton. A state of the automaton
//! is a word of bits: one for each atomic proposition, and behind them one
//! for each distinct next or until subformula.

use crate::bits::{bit_seq, bits_from_elem, bits_set};
use crate::buechi::transitions::{lemma_with_edge_below, pushed_once, targets_below, with_edge, Transitions};
use crate::buechi::{bit_seqs, GeneralizedBuechi, GeneralizedBuechiView, State, Symbol};
use crate::parsing::LTLFormula;
use crate::seqs::{lemma_position, position};
use bit_vec::BitVec;
use vstd::prelude::*;

verus! {

/// The number of bits of a state.
pub const WORD_BITS: u8 = 64;

/// Whether bit `bit` of `s` is set.
pub open spec fn test_bit(s: State, bit: u8) -> bool {
    s & (1u64 << (bit as u64)) != 0
}

/// A predicate on states, made of bit tests.
pub enum GetValueForThing {
    And(Box<GetValueForThing>, Box<GetValueForThing>),
    Not(Box<GetValueForThing>),
    Lookup(u8),
}

impl GetValueForThing {
    /// Whether the predicate holds of `s`.
    pub open spec fn value(self, s: State) -> bool
        decreases self,
    {
        match self {
            GetValueForThing::And(a1, a2) => a1.value(s) && a2.value(s),
            GetValueForThing::Not(a) => !a.value(s),
            GetValueForThing::Lookup(a) => test_bit(s, a),
        }
    }

    /// Whether every bit that is tested is a bit of a state.
    pub open spec fn in_range(self) -> bool
        decreases self,
    {
        match self {
            GetValueForThing::And(a1, a2) => a1.in_range() && a2.in_range(),
            GetValueForThing::Not(a) => a.in_range(),
            GetValueForThing::Lookup(a) => a < WORD_BITS,
        }
    }

    pub fn get(&self, s: &State) -> (r: bool)
        requires
            self.in_range(),
        ensures
            r == self.value(*s),
        decreases *self,
    {
        match self {
            GetValueForThing::And(a1, a2) => a1.get(s) && a2.get(s),
            GetValueForThing::Not(a) => !a.get(s),
            GetValueForThing::Lookup(a) => (*s & (1u64 << (*a as u64))) != 0,
        }
    }

    /// A copy of this predicate.
    pub fn duplicate(&self) -> (r: Self)
        ensures
            r == *self,
        decreases *self,
    {
        match self {
            GetValueForThing::And(a1, a2) => GetValueForThing::And(
                Box::new(a1.duplicate()),
                Box::new(a2.duplicate()),
            ),
            GetValueForThing::Not(a) => GetValueForThing::Not(Box::new(a.duplicate())),
            GetValueForThing::Lookup(a) => GetValueForThing::Lookup(*a),
        }
    }
}

/// What a step from one state to the next must respect on account of one
/// next or until subformula.
pub enum CompareTheThing {
    /// The bit of "next `phi`", and `phi`.
    Next(GetValueForThing, GetValueForThing),
    /// `phi1`, `phi2`, and the bit of "`phi1` until `phi2`".
    Until(GetValueForThing, GetValueForThing, GetValueForThing),
}

impl CompareTheThing {
    /// Whether a step from `q1` to `q2` is allowed. "Next `phi`" holds in
    /// `q1` just where `phi` holds in `q2`. An until that holds in `q1` with
    /// its second operand, or fails in `q1` with its first operand, says
    /// nothing of `q2`; otherwise it holds in `q2` just where it holds in `q1`.
    pub open spec fn allows(self, q1: State, q2: State) -> bool {
        match self {
            CompareTheThing::Next(xphi, phi) => xphi.value(q1) == phi.value(q2),
            CompareTheThing::Until(phi1, phi2, phi1_u_phi2) => {
                let q1_has_u = phi1_u_phi2.value(q1);
                q1_has_u && phi2.value(q1) || !q1_has_u && !phi1.value(q1) || q1_has_u == phi1_u_phi2.value(q2)
            },
        }
    }

    /// Whether every bit that is tested is a bit of a state.
    pub open spec fn in_range(self) -> bool {
        match self {
            CompareTheThing::Next(xphi, phi) => xphi.in_range() && phi.in_range(),
            CompareTheThing::Until(phi1, phi2, phi1_u_phi2) => phi1.in_range() && phi2.in_range()
                && phi1_u_phi2.in_range(),
        }
    }

    pub fn compare(&self, q1: &State, q2: &State) -> (r: bool)
        requires
            self.in_range(),
        ensures
            r == self.allows(*q1, *q2),
    {
        match self {
            CompareTheThing::Next(xphi, phi) => xphi.get(q1) == phi.get(q2),
            CompareTheThing::Until(phi1, phi2, phi1_u_phi2) => {
                let q1_has_u = phi1_u_phi2.get(q1);
                q1_has_u && phi2.get(q1) || !q1_has_u && !phi1.get(q1) || q1_has_u == phi1_u_phi2.get(q2)
            },
        }
    }
}

/// The number of bits that the atomic propositions of a formula take: one
/// more than the largest identifier, which is their number where the
/// identifiers are 0, 1, 2 and so on.
pub open spec fn ap_bits(ltl: LTLFormula) -> nat
    decreases ltl,
{
    match ltl {
        LTLFormula::AP(id) => (id + 1) as nat,
        LTLFormula::Not(phi) => ap_bits(*phi),
        LTLFormula::And(phi1, phi2) => if ap_bits(*phi1) >= ap_bits(*phi2) {
            ap_bits(*phi1)
        } else {
            ap_bits(*phi2)
        },
        LTLFormula::Next(phi) => ap_bits(*phi),
        LTLFormula::Until(phi1, phi2) => if ap_bits(*phi1) >= ap_bits(*phi2) {
            ap_bits(*phi1)
        } else {
            ap_bits(*phi2)
        },
    }
}

pub fn get_aps_in_ltl(ltl: &LTLFormula) -> (r: u16)
    ensures
        r == ap_bits(*ltl),
        r <= 256,
    decreases *ltl,
{
    match ltl {
        LTLFormula::AP(id) => *id as u16 + 1,
        LTLFormula::Not(phi) => get_aps_in_ltl(phi),
        LTLFormula::And(phi1, phi2) => {
            let a = get_aps_in_ltl(phi1);
            let b = get_aps_in_ltl(phi2);
            if a >= b {
                a
            } else {
                b
            }
        },
        LTLFormula::Next(phi) => get_aps_in_ltl(phi),
        LTLFormula::Until(phi1, phi2) => {
            let a = get_aps_in_ltl(phi1);
            let b = get_aps_in_ltl(phi2);
            if a >= b {
                a
            } else {
                b
            }
        },
    }
}

/// The subformulas that have a bit, each with its bit, in the order in which
/// they got it.
pub type Registry = Seq<(LTLFormula, u8)>;

/// The subformulas that have a bit.
pub open spec fn keys(usage: Registry) -> Seq<LTLFormula> {
    Seq::new(usage.len(), |i: int| usage[i].0)
}

/// The bit of a subformula, if it has one.
pub open spec fn bit_of(usage: Registry, ltl: LTLFormula) -> Option<u8> {
    match position(keys(usage), ltl) {
        Some(i) => Some(usage[i as int].1),
        None => None,
    }
}

/// The subformulas that have a bit so far, and the number of bits in use.
pub struct Tableau {
    pub usage: Registry,
    pub bits_used: nat,
}

/// Gives a bit to each atomic proposition, next and until subformula of
/// `ltl` that has none yet: an atomic proposition gets the bit of its
/// identifier; a next or until subformula gets the lowest free bit once its
/// operands were seen to, the first operand first.
pub open spec fn registered(ltl: LTLFormula, t: Tableau) -> Tableau
    decreases ltl,
{
    match ltl {
        LTLFormula::AP(id) => if bit_of(t.usage, ltl) is Some {
            t
        } else {
            Tableau { usage: t.usage.push((ltl, id)), bits_used: t.bits_used }
        },
        LTLFormula::Not(phi) => registered(*phi, t),
        LTLFormula::And(phi1, phi2) => registered(*phi2, registered(*phi1, t)),
        LTLFormula::Next(phi) => if bit_of(t.usage, ltl) is Some {
            t
        } else {
            let inner = registered(*phi, t);
            Tableau { usage: inner.usage.push((ltl, inner.bits_used as u8)), bits_used: inner.bits_used + 1 }
        },
        LTLFormula::Until(phi1, phi2) => if bit_of(t.usage, ltl) is Some {
            t
        } else {
            let inner = registered(*phi2, registered(*phi1, t));
            Tableau { usage: inner.usage.push((ltl, inner.bits_used as u8)), bits_used: inner.bits_used + 1 }
        },
    }
}

/// The bits of a formula, where none was given before: those of its atomic
/// propositions come first.
pub open spec fn tableau_of(ltl: LTLFormula) -> Tableau {
    registered(ltl, Tableau { usage: Seq::empty(), bits_used: ap_bits(ltl) })
}

/// Whether a state has a bit for each atomic proposition and each distinct
/// next or until subformula of the formula.
pub open spec fn fits(ltl: LTLFormula) -> bool {
    tableau_of(ltl).bits_used <= WORD_BITS
}

/// Seeing to a formula frees no bit.
pub proof fn lemma_registered_grows(ltl: LTLFormula, t: Tableau)
    ensures
        registered(ltl, t).bits_used >= t.bits_used,
    decreases ltl,
{
    match ltl {
        LTLFormula::AP(_) => {},
        LTLFormula::Not(phi) => {
            lemma_registered_grows(*phi, t);
        },
        LTLFormula::And(phi1, phi2) => {
            lemma_registered_grows(*phi1, t);
            lemma_registered_grows(*phi2, registered(*phi1, t));
        },
        LTLFormula::Next(phi) => {
            lemma_registered_grows(*phi, t);
        },
        LTLFormula::Until(phi1, phi2) => {
            lemma_registered_grows(*phi1, t);
            lemma_registered_grows(*phi2, registered(*phi1, t));
        },
    }
}

/// The entries of a registry in the making.
pub open spec fn registry_of(bit_usage: Seq<(&LTLFormula, u8)>) -> Registry {
    Seq::new(bit_usage.len(), |i: int| (*bit_usage[i].0, bit_usage[i].1))
}

/// Whether every bit of the registry is a bit of a state.
pub open spec fn bits_in_range(usage: Registry) -> bool {
    forall|i: int| 0 <= i < usage.len() ==> (#[trigger] usage[i]).1 < WORD_BITS
}

/// The bit that `bit_usage` holds for `ltl`.
fn find_bit(bit_usage: &Vec<(&LTLFormula, u8)>, ltl: &LTLFormula) -> (r: Option<u8>)
    ensures
        r == bit_of(registry_of(bit_usage@), *ltl),
        r matches Some(bit) ==> exists|i: int|
            0 <= i < bit_usage@.len() && (#[trigger] registry_of(bit_usage@)[i]).1 == bit,
{
    let ghost usage = registry_of(bit_usage@);
    let mut i: usize = 0;
    while i < bit_usage.len()
        invariant
            i <= bit_usage@.len(),
            usage == registry_of(bit_usage@),
            forall|j: int| 0 <= j < i ==> keys(usage)[j] != *ltl,
        decreases bit_usage@.len() - i,
    {
        if bit_usage[i].0.same(ltl) {
            proof {
                assert(keys(usage)[i as int] == *ltl);
                lemma_position(keys(usage), *ltl);
                assert(usage[i as int].1 == bit_usage@[i as int].1);
            }
            return Some(bit_usage[i].1);
        }
        i = i + 1;
    }
    proof {
        lemma_position(keys(usage), *ltl);
    }
    None
}

/// Gives a bit to each atomic proposition, next and until subformula of
/// `ltl` that has none yet, and says whether the bits of a state sufficed.
/// Where they did not, what `bit_usage` and `bits_used` hold is of no use.
pub fn ltl_to_buechi_recursive<'a>(
    ltl: &'a LTLFormula,
    bit_usage: &mut Vec<(&'a LTLFormula, u8)>,
    bits_used: &mut u8,
) -> (r: bool)
    requires
        ap_bits(*ltl) <= *old(bits_used) <= WORD_BITS,
        bits_in_range(registry_of(old(bit_usage)@)),
    ensures
        r == (registered(*ltl, Tableau { usage: registry_of(old(bit_usage)@), bits_used: *old(bits_used) as nat }).bits_used
            <= WORD_BITS),
        r ==> registered(*ltl, Tableau { usage: registry_of(old(bit_usage)@), bits_used: *old(bits_used) as nat })
            == (Tableau { usage: registry_of(final(bit_usage)@), bits_used: *final(bits_used) as nat }),
        r ==> bits_in_range(registry_of(final(bit_usage)@)),
        r ==> *old(bits_used) <= *final(bits_used) <= WORD_BITS,
    decreases *ltl,
{
    let ghost before = Tableau { usage: registry_of(bit_usage@), bits_used: *bits_used as nat };
    match ltl {
        LTLFormula::Not(phi) => ltl_to_buechi_recursive(phi, bit_usage, bits_used),
        LTLFormula::And(phi1, phi2) => {
            if !ltl_to_buechi_recursive(phi1, bit_usage, bits_used) {
                proof {
                    lemma_registered_grows(**phi2, registered(**phi1, before));
                }
                return false;
            }
            ltl_to_buechi_recursive(phi2, bit_usage, bits_used)
        },
        LTLFormula::AP(id) => {
            if find_bit(bit_usage, ltl).is_none() {
                bit_usage.push((ltl, *id));
                assert(registry_of(bit_usage@) =~= before.usage.push((*ltl, *id)));
            }
            true
        },
        LTLFormula::Next(phi) => {
            if find_bit(bit_usage, ltl).is_some() {
                return true;
            }
            if !ltl_to_buechi_recursive(phi, bit_usage, bits_used) {
                return false;
            }
            let id = *bits_used;
            if id >= WORD_BITS {
                return false;
            }
            let ghost inner = registry_of(bit_usage@);
            *bits_used = id + 1;
            bit_usage.push((ltl, id));
            assert(registry_of(bit_usage@) =~= inner.push((*ltl, id)));
            true
        },
        LTLFormula::Until(phi1, phi2) => {
            if find_bit(bit_usage, ltl).is_some() {
                return true;
            }
            if !ltl_to_buechi_recursive(phi1, bit_usage, bits_used) {
                proof {
                    lemma_registered_grows(**phi2, registered(**phi1, before));
                }
                return false;
            }
            if !ltl_to_buechi_recursive(phi2, bit_usage, bits_used) {
                return false;
            }
            let id = *bits_used;
            if id >= WORD_BITS {
                return false;
            }
            let ghost inner = registry_of(bit_usage@);
            *bits_used = id + 1;
            bit_usage.push((ltl, id));
            assert(registry_of(bit_usage@) =~= inner.push((*ltl, id)));
            true
        },
    }
}

/// A predicate that holds of no state.
pub open spec fn never() -> GetValueForThing {
    GetValueForThing::And(
        Box::new(GetValueForThing::Lookup(0)),
        Box::new(GetValueForThing::Not(Box::new(GetValueForThing::Lookup(0)))),
    )
}

/// The predicate that says of a state whether `ltl` holds in it: a test of
/// its bit for an atomic proposition, a next or an until, and the
/// connectives over these. What has no bit holds nowhere.
pub open spec fn compiled(ltl: LTLFormula, usage: Registry) -> GetValueForThing
    decreases ltl,
{
    match ltl {
        LTLFormula::Not(phi) => GetValueForThing::Not(Box::new(compiled(*phi, usage))),
        LTLFormula::And(phi1, phi2) => GetValueForThing::And(
            Box::new(compiled(*phi1, usage)),
            Box::new(compiled(*phi2, usage)),
        ),
        _ => match bit_of(usage, ltl) {
            Some(bit) => GetValueForThing::Lookup(bit),
            None => never(),
        },
    }
}

/// Whether `ltl` holds in the state `s`, as the bits of `s` say.
pub open spec fn holds(ltl: LTLFormula, usage: Registry, s: State) -> bool {
    compiled(ltl, usage).value(s)
}

/// `s` with bit `bit` set.
pub open spec fn with_bit(s: State, bit: u8) -> State {
    s | (1u64 << (bit as u64))
}

/// The states, and behind them a copy of each with `bit` set.
pub open spec fn doubled(states: Seq<State>, bit: u8) -> Seq<State> {
    states + Seq::new(states.len(), |i: int| with_bit(states[i], bit))
}

/// A copy with `bit` set of each state in which `phi1` holds and `phi2` does not.
pub open spec fn pending(states: Seq<State>, phi1: GetValueForThing, phi2: GetValueForThing, bit: u8) -> Seq<
    State,
>
    decreases states.len(),
{
    if states.len() == 0 {
        Seq::empty()
    } else {
        let before = pending(states.drop_last(), phi1, phi2, bit);
        let s = states.last();
        if phi1.value(s) && !phi2.value(s) {
            before.push(with_bit(s, bit))
        } else {
            before
        }
    }
}

/// The states once "`phi1` until `phi2`" has the bit `bit`: where `phi2`
/// holds the until holds; where neither operand holds it fails; where
/// `phi1` alone holds it may hold or fail, and the state stands twice.
pub open spec fn unfolded(states: Seq<State>, phi1: GetValueForThing, phi2: GetValueForThing, bit: u8) -> Seq<
    State,
> {
    Seq::new(
        states.len(),
        |i: int|
            if phi2.value(states[i]) {
                with_bit(states[i], bit)
            } else {
                states[i]
            },
    ) + pending(states, phi1, phi2, bit)
}

/// The states of the automaton after the first `m` entries of the registry:
/// at first the state without any bit; an atomic proposition or a next
/// doubles the states, an until unfolds them.
pub open spec fn enumerated(usage: Registry, m: nat) -> Seq<State>
    decreases m,
{
    if m == 0 {
        seq![0u64]
    } else {
        let before = enumerated(usage, (m - 1) as nat);
        let bit = usage[m - 1].1;
        match usage[m - 1].0 {
            LTLFormula::Until(phi1, phi2) => unfolded(before, compiled(*phi1, usage), compiled(*phi2, usage), bit),
            LTLFormula::AP(_) => doubled(before, bit),
            LTLFormula::Next(_) => doubled(before, bit),
            _ => before,
        }
    }
}

/// What a step must respect on account of the first `m` entries of the
/// registry: one constraint for each next and each until.
pub open spec fn constraints_of(usage: Registry, m: nat) -> Seq<CompareTheThing>
    decreases m,
{
    if m == 0 {
        Seq::empty()
    } else {
        let before = constraints_of(usage, (m - 1) as nat);
        let bit = usage[m - 1].1;
        match usage[m - 1].0 {
            LTLFormula::Next(phi) => before.push(
                CompareTheThing::Next(GetValueForThing::Lookup(bit), compiled(*phi, usage)),
            ),
            LTLFormula::Until(phi1, phi2) => before.push(
                CompareTheThing::Until(compiled(*phi1, usage), compiled(*phi2, usage), GetValueForThing::Lookup(bit)),
            ),
            _ => before,
        }
    }
}

/// The predicate of the accepting set of an until with the bit `bit` and the
/// second operand `phi2`: the until does not hold, or `phi2` holds.
pub open spec fn discharged(bit: u8, phi2: GetValueForThing) -> GetValueForThing {
    GetValueForThing::Not(
        Box::new(
            GetValueForThing::And(
                Box::new(GetValueForThing::Lookup(bit)),
                Box::new(GetValueForThing::Not(Box::new(phi2))),
            ),
        ),
    )
}

/// The predicates of the accepting sets on account of the first `m` entries
/// of the registry: one for each until.
pub open spec fn end_functions_of(usage: Registry, m: nat) -> Seq<GetValueForThing>
    decreases m,
{
    if m == 0 {
        Seq::empty()
    } else {
        let before = end_functions_of(usage, (m - 1) as nat);
        match usage[m - 1].0 {
            LTLFormula::Until(_, phi2) => before.push(discharged(usage[m - 1].1, compiled(*phi2, usage))),
            _ => before,
        }
    }
}

/// Whether each of the constraints allows a step from `q1` to `q2`.
pub open spec fn all_allow(constraints: Seq<CompareTheThing>, q1: State, q2: State) -> bool {
    forall|c: int| 0 <= c < constraints.len() ==> (#[trigger] constraints[c]).allows(q1, q2)
}

/// The symbols: the words in which only the lowest `amount_aps` bits may be set.
pub open spec fn ap_mask(amount_aps: nat) -> Symbol {
    if amount_aps >= 64 {
        u64::MAX
    } else {
        ((1u64 << (amount_aps as u64)) - 1) as u64
    }
}

/// The edges from the state with index `i` into the first `m` states: one
/// into each state that the constraints allow a step to, under the symbol of
/// that state.
pub open spec fn step_edges(
    states: Seq<State>,
    constraints: Seq<CompareTheThing>,
    mask: Symbol,
    i: int,
    m: nat,
) -> Seq<(Symbol, State)>
    decreases m,
{
    if m == 0 {
        Seq::empty()
    } else {
        let before = step_edges(states, constraints, mask, i, (m - 1) as nat);
        if all_allow(constraints, states[i], states[m - 1]) {
            pushed_once(before, (states[m - 1] & mask, (m - 1) as State))
        } else {
            before
        }
    }
}

/// The edges from the initial state into the first `m` states: one into each
/// state in which `top` holds, under the symbol of that state.
pub open spec fn initial_edges(states: Seq<State>, top: GetValueForThing, mask: Symbol, m: nat) -> Seq<
    (Symbol, State),
>
    decreases m,
{
    if m == 0 {
        Seq::empty()
    } else {
        let before = initial_edges(states, top, mask, (m - 1) as nat);
        if top.value(states[m - 1]) {
            pushed_once(before, (states[m - 1] & mask, (m - 1) as State))
        } else {
            before
        }
    }
}

/// The automaton of a formula. Its states are the enumerated words and,
/// behind them, the initial state. A run from the initial state reads the
/// symbols of the states that it enters; it is accepting where, for each
/// until, it visits again and again a state in which the until is discharged.
pub open spec fn gba_of(ltl: LTLFormula) -> GeneralizedBuechiView<u64> {
    let usage = tableau_of(ltl).usage;
    let states = enumerated(usage, usage.len());
    let constraints = constraints_of(usage, usage.len());
    let ends = end_functions_of(usage, usage.len());
    let mask = ap_mask(ap_bits(ltl));
    let top = compiled(ltl, usage);
    GeneralizedBuechiView {
        state_infos: states.push(u64::MAX),
        amount_aps: ap_bits(ltl) as u8,
        start_state: states.len() as State,
        transitions: Seq::new(
            states.len() + 1,
            |i: int|
                if i < states.len() {
                    step_edges(states, constraints, mask, i, states.len())
                } else {
                    initial_edges(states, top, mask, states.len())
                },
        ),
        end_sets: Seq::new(
            ends.len(),
            |j: int| Seq::new(states.len() + 1, |i: int| i < states.len() && ends[j].value(states[i])),
        ),
    }
}

/// The predicate that says of a state whether `ltl` holds in it.
fn compile(ltl: &LTLFormula, bit_usage: &Vec<(&LTLFormula, u8)>) -> (r: GetValueForThing)
    requires
        bits_in_range(registry_of(bit_usage@)),
    ensures
        r == compiled(*ltl, registry_of(bit_usage@)),
        r.in_range(),
    decreases *ltl,
{
    match ltl {
        LTLFormula::Not(phi) => GetValueForThing::Not(Box::new(compile(phi, bit_usage))),
        LTLFormula::And(phi1, phi2) => GetValueForThing::And(
            Box::new(compile(phi1, bit_usage)),
            Box::new(compile(phi2, bit_usage)),
        ),
        _ => match find_bit(bit_usage, ltl) {
            Some(bit) => {
                proof {
                    let i = choose|i: int|
                        0 <= i < bit_usage@.len() && (#[trigger] registry_of(bit_usage@)[i]).1 == bit;
                    assert(registry_of(bit_usage@)[i].1 < WORD_BITS);
                }
                GetValueForThing::Lookup(bit)
            },
            None => {
                let zero = GetValueForThing::Lookup(0);
                assert(zero.in_range());
                let not_zero = GetValueForThing::Not(Box::new(GetValueForThing::Lookup(0)));
                assert(not_zero.in_range());
                GetValueForThing::And(Box::new(zero), Box::new(not_zero))
            },
        },
    }
}

/// Puts behind the states a copy of each with `bit` set.
fn double(states: &mut Vec<State>, bit: u8)
    requires
        bit < WORD_BITS,
    ensures
        final(states)@ == doubled(old(states)@, bit),
{
    let n = states.len();
    let ghost before = states@;
    let mut i: usize = 0;
    while i < n
        invariant
            i <= n,
            n == before.len(),
            bit < WORD_BITS,
            states@ == before + Seq::new(i as nat, |j: int| with_bit(before[j], bit)),
        decreases n - i,
    {
        let state = states[i];
        states.push(state | (1u64 << (bit as u64)));
        assert(states@ =~= before + Seq::new((i + 1) as nat, |j: int| with_bit(before[j], bit)));
        i = i + 1;
    }
}

/// Sets `bit` where `phi2` holds, and puts behind the states a copy with
/// `bit` set of each state in which `phi1` holds and `phi2` does not.
fn unfold(states: &mut Vec<State>, phi1: &GetValueForThing, phi2: &GetValueForThing, bit: u8)
    requires
        bit < WORD_BITS,
        phi1.in_range(),
        phi2.in_range(),
    ensures
        final(states)@ == unfolded(old(states)@, *phi1, *phi2, bit),
{
    let n = states.len();
    let ghost before = states@;
    let mut tempvec: Vec<State> = Vec::new();
    let mut i: usize = 0;
    while i < n
        invariant
            i <= n,
            n == before.len(),
            states@.len() == n,
            bit < WORD_BITS,
            phi1.in_range(),
            phi2.in_range(),
            forall|j: int| i <= j < n ==> states@[j] == before[j],
            forall|j: int|
                0 <= j < i ==> states@[j] == if phi2.value(before[j]) {
                    with_bit(before[j], bit)
                } else {
                    before[j]
                },
            tempvec@ == pending(before.take(i as int), *phi1, *phi2, bit),
        decreases n - i,
    {
        let state = states[i];
        assert(before.take(i + 1).drop_last() =~= before.take(i as int));
        if phi2.get(&state) {
            states[i] = state | (1u64 << (bit as u64));
        } else if phi1.get(&state) {
            tempvec.push(state | (1u64 << (bit as u64)));
        }
        i = i + 1;
    }
    assert(before.take(n as int) =~= before);
    let ghost front = states@;
    states.append(&mut tempvec);
    assert(states@ =~= unfolded(before, *phi1, *phi2, bit));
}

/// Whether each of the constraints allows a step from `q1` to `q2`.
fn allowed(constraints: &Vec<CompareTheThing>, q1: &State, q2: &State) -> (r: bool)
    requires
        forall|c: int| 0 <= c < constraints@.len() ==> (#[trigger] constraints@[c]).in_range(),
    ensures
        r == all_allow(constraints@, *q1, *q2),
{
    let mut c: usize = 0;
    while c < constraints.len()
        invariant
            c <= constraints@.len(),
            forall|d: int| 0 <= d < constraints@.len() ==> (#[trigger] constraints@[d]).in_range(),
            forall|d: int| 0 <= d < c ==> (#[trigger] constraints@[d]).allows(*q1, *q2),
        decreases constraints@.len() - c,
    {
        if !constraints[c].compare(q1, q2) {
            return false;
        }
        c = c + 1;
    }
    true
}

/// The symbols of an alphabet over `amount_aps` atomic propositions, as a mask.
fn mask_for(amount_aps: u16) -> (r: Symbol)
    ensures
        r == ap_mask(amount_aps as nat),
{
    if amount_aps >= 64 {
        u64::MAX
    } else {
        let shift = amount_aps as u64;
        assert((1u64 << shift) >= 1) by (bit_vector)
            requires
                shift < 64,
        ;
        (1u64 << shift) - 1
    }
}

/// The number of next and until subformulas among the first `m` entries of the registry.
pub open spec fn count_temporal(usage: Registry, m: nat) -> nat
    decreases m,
{
    if m == 0 {
        0
    } else {
        count_temporal(usage, (m - 1) as nat) + if usage[m - 1].0 is Next || usage[m - 1].0 is Until {
            1nat
        } else {
            0nat
        }
    }
}

/// The count over the first entries does not depend on what follows them.
proof fn lemma_count_prefix(usage: Registry, longer: Registry, m: nat)
    requires
        m <= usage.len() <= longer.len(),
        forall|i: int| 0 <= i < usage.len() ==> usage[i] == longer[i],
    ensures
        count_temporal(longer, m) == count_temporal(usage, m),
    decreases m,
{
    if m > 0 {
        lemma_count_prefix(usage, longer, (m - 1) as nat);
    }
}

/// Each next and until subformula that gets a bit takes one bit.
pub proof fn lemma_registered_counts(ltl: LTLFormula, t: Tableau)
    ensures
        registered(ltl, t).bits_used - count_temporal(registered(ltl, t).usage, registered(ltl, t).usage.len())
            == t.bits_used - count_temporal(t.usage, t.usage.len()),
    decreases ltl,
{
    match ltl {
        LTLFormula::AP(id) => {
            if bit_of(t.usage, ltl) is None {
                lemma_count_prefix(t.usage, t.usage.push((ltl, id)), t.usage.len());
            }
        },
        LTLFormula::Not(phi) => {
            lemma_registered_counts(*phi, t);
        },
        LTLFormula::And(phi1, phi2) => {
            lemma_registered_counts(*phi1, t);
            lemma_registered_counts(*phi2, registered(*phi1, t));
        },
        LTLFormula::Next(phi) => {
            if bit_of(t.usage, ltl) is None {
                lemma_registered_counts(*phi, t);
                let inner = registered(*phi, t);
                lemma_count_prefix(inner.usage, inner.usage.push((ltl, inner.bits_used as u8)), inner.usage.len());
            }
        },
        LTLFormula::Until(phi1, phi2) => {
            if bit_of(t.usage, ltl) is None {
                lemma_registered_counts(*phi1, t);
                lemma_registered_counts(*phi2, registered(*phi1, t));
                let inner = registered(*phi2, registered(*phi1, t));
                lemma_count_prefix(inner.usage, inner.usage.push((ltl, inner.bits_used as u8)), inner.usage.len());
            }
        },
    }
}

/// There are no more accepting sets than next and until subformulas.
pub proof fn lemma_end_functions_count(usage: Registry, m: nat)
    ensures
        end_functions_of(usage, m).len() <= count_temporal(usage, m),
    decreases m,
{
    if m > 0 {
        lemma_end_functions_count(usage, (m - 1) as nat);
    }
}

/// The automaton of a formula that fits has no more accepting sets than a state has bits.
pub proof fn lemma_gba_end_sets(ltl: LTLFormula)
    requires
        fits(ltl),
    ensures
        gba_of(ltl).end_sets.len() <= WORD_BITS,
{
    let t = Tableau { usage: Seq::empty(), bits_used: ap_bits(ltl) };
    lemma_registered_counts(ltl, t);
    lemma_end_functions_count(tableau_of(ltl).usage, tableau_of(ltl).usage.len());
}

/// The generalized Büchi automaton of a formula, unless a state has too few
/// bits for the formula.
pub fn ltl_to_buechi(ltl: &LTLFormula) -> (r: Option<GeneralizedBuechi<u64>>)
    ensures
        match r {
            Some(automaton) => fits(*ltl) && automaton@ == gba_of(*ltl) && automaton@.state_infos.len()
                <= usize::MAX,
            None => !fits(*ltl),
        },
{
    let ap_count = get_aps_in_ltl(ltl);
    if ap_count > WORD_BITS as u16 {
        proof {
            lemma_registered_grows(*ltl, Tableau { usage: Seq::empty(), bits_used: ap_bits(*ltl) });
        }
        return None;
    }
    let mut bit_usage: Vec<(&LTLFormula, u8)> = Vec::new();
    let mut bits_used: u8 = ap_count as u8;
    assert(registry_of(bit_usage@) =~= Seq::<(LTLFormula, u8)>::empty());
    if !ltl_to_buechi_recursive(ltl, &mut bit_usage, &mut bits_used) {
        return None;
    }
    let ghost usage = registry_of(bit_usage@);
    assert(usage == tableau_of(*ltl).usage);
    let ap_bitmask = mask_for(ap_count);

    let mut states: Vec<State> = Vec::new();
    states.push(0);
    let mut constraints: Vec<CompareTheThing> = Vec::new();
    let mut end_set_functions: Vec<GetValueForThing> = Vec::new();
    let mut m: usize = 0;
    while m < bit_usage.len()
        invariant
            m <= bit_usage@.len(),
            usage == registry_of(bit_usage@),
            bits_in_range(usage),
            states@ == enumerated(usage, m as nat),
            constraints@ == constraints_of(usage, m as nat),
            end_set_functions@ == end_functions_of(usage, m as nat),
            forall|c: int| 0 <= c < constraints@.len() ==> (#[trigger] constraints@[c]).in_range(),
            forall|e: int| 0 <= e < end_set_functions@.len() ==> (#[trigger] end_set_functions@[e]).in_range(),
        decreases bit_usage@.len() - m,
    {
        let (formula, id) = bit_usage[m];
        proof {
            assert(usage[m as int] == (*formula, id));
            assert(usage[m as int].1 < WORD_BITS);
        }
        match formula {
            LTLFormula::AP(_) => {
                double(&mut states, id);
            },
            LTLFormula::Next(phi) => {
                let val = compile(phi, &bit_usage);
                double(&mut states, id);
                let lookup = GetValueForThing::Lookup(id);
                assert(lookup.in_range());
                constraints.push(CompareTheThing::Next(lookup, val));
            },
            LTLFormula::Until(phi1, phi2) => {
                let val1 = compile(phi1, &bit_usage);
                let val2 = compile(phi2, &bit_usage);
                unfold(&mut states, &val1, &val2, id);
                let lookup = GetValueForThing::Lookup(id);
                assert(lookup.in_range());
                let not_val2 = GetValueForThing::Not(Box::new(val2.duplicate()));
                assert(not_val2.in_range());
                let bit = GetValueForThing::Lookup(id);
                assert(bit.in_range());
                let both = GetValueForThing::And(Box::new(bit), Box::new(not_val2));
                assert(both.in_range());
                constraints.push(CompareTheThing::Until(val1, val2, lookup));
                end_set_functions.push(GetValueForThing::Not(Box::new(both)));
            },
            _ => {},
        }
        m = m + 1;
    }
    let complete_function = compile(ltl, &bit_usage);
    let ghost enumerated_states = states@;
    let n = states.len();
    states.push(u64::MAX);
    let amount_states = states.len();
    let start_id = n as u64;
    let mut transitions = Transitions::for_states(amount_states);
    let mut end_sets: Vec<BitVec> = Vec::new();
    let mut e: usize = 0;
    while e < end_set_functions.len()
        invariant
            e <= end_set_functions@.len(),
            end_sets@.len() == e,
            forall|f: int|
                0 <= f < e ==> (#[trigger] bit_seq(end_sets@[f])).len() == amount_states && forall|i: int|
                    0 <= i < amount_states ==> !bit_seq(end_sets@[f])[i],
        decreases end_set_functions@.len() - e,
    {
        end_sets.push(bits_from_elem(amount_states, false));
        e = e + 1;
    }
    let mut i: usize = 0;
    while i < n
        invariant
            i <= n,
            n == enumerated_states.len(),
            amount_states == n + 1,
            start_id == n,
            states@ == enumerated_states.push(u64::MAX),
            forall|c: int| 0 <= c < constraints@.len() ==> (#[trigger] constraints@[c]).in_range(),
            forall|f: int| 0 <= f < end_set_functions@.len() ==> (#[trigger] end_set_functions@[f]).in_range(),
            complete_function.in_range(),
            transitions@.len() == amount_states,
            targets_below(transitions@, amount_states as nat),
            forall|j: int|
                0 <= j < i ==> #[trigger] transitions@[j] == step_edges(
                    enumerated_states,
                    constraints@,
                    ap_bitmask,
                    j,
                    n as nat,
                ),
            forall|j: int| i <= j < n ==> #[trigger] transitions@[j] == Seq::<(Symbol, State)>::empty(),
            transitions@[n as int] == initial_edges(enumerated_states, complete_function, ap_bitmask, i as nat),
            end_sets@.len() == end_set_functions@.len(),
            forall|f: int|
                0 <= f < end_sets@.len() ==> (#[trigger] bit_seq(end_sets@[f])).len() == amount_states && forall|j: int|
                    0 <= j < amount_states ==> bit_seq(end_sets@[f])[j] == (j < i && end_set_functions@[f].value(
                        enumerated_states[j],
                    )),
        decreases n - i,
    {
        let state = states[i];
        let ghost rows = transitions@;
        let mut i2: usize = 0;
        while i2 < n
            invariant
                i2 <= n,
                i < n,
                n == enumerated_states.len(),
                amount_states == n + 1,
                states@ == enumerated_states.push(u64::MAX),
                state == enumerated_states[i as int],
                forall|c: int| 0 <= c < constraints@.len() ==> (#[trigger] constraints@[c]).in_range(),
                transitions@.len() == amount_states,
                targets_below(transitions@, amount_states as nat),
                forall|j: int|
                    0 <= j < amount_states && j != i ==> #[trigger] transitions@[j] == rows[j],
                transitions@[i as int] == step_edges(enumerated_states, constraints@, ap_bitmask, i as int, i2 as nat),
            decreases n - i2,
        {
            let state2 = states[i2];
            if allowed(&constraints, &state, &state2) {
                proof {
                    lemma_with_edge_below(
                        transitions@,
                        i as u64,
                        state2 & ap_bitmask,
                        i2 as u64,
                        amount_states as nat,
                    );
                }
                transitions.add(i as u64, state2 & ap_bitmask, i2 as u64);
            }
            i2 = i2 + 1;
        }
        if complete_function.get(&state) {
            proof {
                lemma_with_edge_below(transitions@, start_id, state & ap_bitmask, i as u64, amount_states as nat);
            }
            transitions.add(start_id, state & ap_bitmask, i as u64);
        }
        let mut f: usize = 0;
        while f < end_set_functions.len()
            invariant
                f <= end_set_functions@.len(),
                i < n,
                n == enumerated_states.len(),
                amount_states == n + 1,
                state == enumerated_states[i as int],
                forall|g: int| 0 <= g < end_set_functions@.len() ==> (#[trigger] end_set_functions@[g]).in_range(),
                end_sets@.len() == end_set_functions@.len(),
                forall|g: int|
                    0 <= g < end_sets@.len() ==> (#[trigger] bit_seq(end_sets@[g])).len() == amount_states
                        && forall|j: int|
                        0 <= j < amount_states ==> bit_seq(end_sets@[g])[j] == ((j < i || (j == i && g < f))
                            && end_set_functions@[g].value(enumerated_states[j])),
            decreases end_set_functions@.len() - f,
        {
            let value = end_set_functions[f].get(&state);
            bits_set(&mut end_sets[f], i, value);
            f = f + 1;
        }
        i = i + 1;
    }
    proof {
        let expected = gba_of(*ltl);
        assert(constraints@ == constraints_of(usage, usage.len()));
        assert(transitions@ =~= expected.transitions);
        assert(bit_seqs(end_sets@) =~= expected.end_sets) by {
            assert forall|g: int| 0 <= g < end_sets@.len() implies #[trigger] bit_seqs(end_sets@)[g]
                =~= expected.end_sets[g] by {
                assert(bit_seq(end_sets@[g]).len() == amount_states);
            }
        }
    }
    Some(GeneralizedBuechi::new(states, ap_count as u8, start_id, transitions, end_sets))
}

/// Whether a step from `s` to `after` respects every next and until of the
/// registry. "Next `phi`" holds in `s` just where `phi` holds in `after`. An
/// until that holds in `s` with its second operand, or fails in `s` with its
/// first operand, says nothing of `after`; otherwise it holds in `after` just
/// where it holds in `s`.
pub open spec fn locally_consistent(usage: Registry, s: State, after: State) -> bool {
    forall|i: int| 0 <= i < usage.len() ==> #[trigger] entry_respected(usage, i, s, after)
}

/// Whether a step from `s` to `after` respects the entry `i` of the registry.
pub open spec fn entry_respected(usage: Registry, i: int, s: State, after: State) -> bool {
    let bit = usage[i].1;
    match usage[i].0 {
        LTLFormula::Next(phi) => test_bit(s, bit) == holds(*phi, usage, after),
        LTLFormula::Until(phi1, phi2) => {
            let u = test_bit(s, bit);
            (u && holds(*phi2, usage, s)) || (!u && !holds(*phi1, usage, s)) || u == test_bit(after, bit)
        },
        _ => true,
    }
}

/// The constraints of the first `m` entries allow a step just where the step
/// respects each of these entries.
pub proof fn lemma_constraints_respect(usage: Registry, m: nat, s: State, after: State)
    requires
        m <= usage.len(),
    ensures
        all_allow(constraints_of(usage, m), s, after) <==> forall|i: int|
            0 <= i < m ==> #[trigger] entry_respected(usage, i, s, after),
    decreases m,
{
    if m > 0 {
        lemma_constraints_respect(usage, (m - 1) as nat, s, after);
        let before = constraints_of(usage, (m - 1) as nat);
        let now = constraints_of(usage, m);
        let last = m - 1;
        if usage[last].0 is Next || usage[last].0 is Until {
            assert(now == before.push(now.last()));
            assert(now.last().allows(s, after) == entry_respected(usage, last, s, after));
            if all_allow(now, s, after) {
                assert forall|c: int| 0 <= c < before.len() implies (#[trigger] before[c]).allows(s, after) by {
                    assert(now[c] == before[c]);
                }
                assert(now[now.len() - 1].allows(s, after));
            }
            if forall|i: int| 0 <= i < m ==> #[trigger] entry_respected(usage, i, s, after) {
                assert(entry_respected(usage, last, s, after));
                assert forall|c: int| 0 <= c < now.len() implies (#[trigger] now[c]).allows(s, after) by {
                    if c < before.len() {
                        assert(now[c] == before[c]);
                    }
                }
            }
        } else {
            assert(entry_respected(usage, last, s, after));
        }
    }
}

/// The edges from state `i` into the first `m` states are just these: one
/// into each state that the constraints allow a step to, under the symbol of
/// that state.
pub proof fn lemma_step_edges(
    states: Seq<State>,
    constraints: Seq<CompareTheThing>,
    mask: Symbol,
    i: int,
    m: nat,
    edge: (Symbol, State),
)
    requires
        m <= states.len() <= u64::MAX,
    ensures
        step_edges(states, constraints, mask, i, m).contains(edge) <==> (edge.1 < m && edge.0 == states[edge.1 as int]
            & mask && all_allow(constraints, states[i], states[edge.1 as int])),
    decreases m,
{
    if m > 0 {
        lemma_step_edges(states, constraints, mask, i, (m - 1) as nat, edge);
        let before = step_edges(states, constraints, mask, i, (m - 1) as nat);
        let new_edge = (states[m - 1] & mask, (m - 1) as State);
        if all_allow(constraints, states[i], states[m - 1]) {
            let now = pushed_once(before, new_edge);
            if before.contains(new_edge) {
            } else {
                assert(now == before.push(new_edge));
                assert(now.last() == new_edge);
                if now.contains(edge) {
                    let at = choose|at: int| 0 <= at < now.len() && now[at] == edge;
                    if at < before.len() {
                        assert(before[at] == edge);
                    }
                }
                if before.contains(edge) {
                    let at = choose|at: int| 0 <= at < before.len() && before[at] == edge;
                    assert(now[at] == edge);
                }
                assert(now[now.len() - 1] == new_edge);
            }
        }
    }
}

/// The edges from the initial state into the first `m` states are just
/// these: one into each state in which `top` holds, under the symbol of that state.
pub proof fn lemma_initial_edges(states: Seq<State>, top: GetValueForThing, mask: Symbol, m: nat, edge: (Symbol, State))
    requires
        m <= states.len() <= u64::MAX,
    ensures
        initial_edges(states, top, mask, m).contains(edge) <==> (edge.1 < m && edge.0 == states[edge.1 as int] & mask
            && top.value(states[edge.1 as int])),
    decreases m,
{
    if m > 0 {
        lemma_initial_edges(states, top, mask, (m - 1) as nat, edge);
        let before = initial_edges(states, top, mask, (m - 1) as nat);
        let new_edge = (states[m - 1] & mask, (m - 1) as State);
        if top.value(states[m - 1]) {
            let now = pushed_once(before, new_edge);
            if before.contains(new_edge) {
            } else {
                assert(now == before.push(new_edge));
                if now.contains(edge) {
                    let at = choose|at: int| 0 <= at < now.len() && now[at] == edge;
                    if at < before.len() {
                        assert(before[at] == edge);
                    }
                }
                if before.contains(edge) {
                    let at = choose|at: int| 0 <= at < before.len() && before[at] == edge;
                    assert(now[at] == edge);
                }
                assert(now[now.len() - 1] == new_edge);
            }
        }
    }
}

/// The automaton of a formula has just the edges that the construction
/// asks for. An edge between two enumerated states is there where the step
/// respects every next and until subformula; an edge from the initial state
/// is there where the formula holds in the target. Either carries the
/// symbol of its target: the bits of the target's atomic propositions.
/// This holds where the states are few enough to be numbered.
pub proof fn lemma_gba_edges(ltl: LTLFormula, from: int, symbol: Symbol, to: State)
    requires
        0 <= from < gba_of(ltl).transitions.len(),
        gba_of(ltl).state_infos.len() <= u64::MAX,
    ensures
        ({
            let usage = tableau_of(ltl).usage;
            let states = enumerated(usage, usage.len());
            gba_of(ltl).transitions[from].contains((symbol, to)) <==> {
                &&& to < states.len()
                &&& symbol == states[to as int] & ap_mask(ap_bits(ltl))
                &&& if from < states.len() {
                    locally_consistent(usage, states[from], states[to as int])
                } else {
                    holds(ltl, usage, states[to as int])
                }
            }
        }),
{
    let usage = tableau_of(ltl).usage;
    let states = enumerated(usage, usage.len());
    let constraints = constraints_of(usage, usage.len());
    let mask = ap_mask(ap_bits(ltl));
    if from < states.len() {
        lemma_step_edges(states, constraints, mask, from, states.len(), (symbol, to));
        if to < states.len() {
            lemma_constraints_respect(usage, usage.len(), states[from], states[to as int]);
        }
    } else {
        lemma_initial_edges(states, compiled(ltl, usage), mask, states.len(), (symbol, to));
    }
}

} // verus!
