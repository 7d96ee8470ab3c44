//! The automaton of a formula accepts just the words of which the formula holds.

use crate::buechi::ltl_to_buechi::{
    ap_bits, ap_mask, bit_of, compiled, discharged, doubled, end_functions_of, entry_respected, enumerated, fits,
    gba_of, holds, lemma_gba_edges, locally_consistent, tableau_of, test_bit, unfolded, with_bit, GetValueForThing,
    Registry,
};
use crate::buechi::semantics::{
    lemma_masked, lemma_no_bit, lemma_same_bits, lemma_sat, lemma_until_unfolds, lemma_with_bit, meaning, reached, sat,
    Word,
};
use crate::buechi::tableau::{
    covered, entry_ok, is_prefix, lemma_bit_kept, lemma_bit_of_entry, lemma_entry_of, lemma_pending_has,
    lemma_tableau_ok, lemma_until_consistent, registry_ok,
};
use crate::buechi::State;
use crate::parsing::LTLFormula;
use vstd::prelude::*;

verus! {

/// The bits of the subformulas of `ltl`.
pub open spec fn usage_of(ltl: LTLFormula) -> Registry {
    tableau_of(ltl).usage
}

/// The states of the automaton of `ltl`, without the initial state.
pub open spec fn states_of(ltl: LTLFormula) -> Seq<State> {
    enumerated(usage_of(ltl), usage_of(ltl).len())
}

/// Whether `run` is an accepting run of the automaton of `ltl` over `word`.
pub open spec fn is_accepting_run(ltl: LTLFormula, word: Word, run: spec_fn(nat) -> State) -> bool {
    &&& fits(ltl)
    &&& gba_of(ltl).state_infos.len() <= u64::MAX
    &&& gba_of(ltl).is_run(run, word)
    &&& gba_of(ltl).run_accepted(run)
}

/// The state that the run enters with the step `i`.
pub open spec fn state_at(ltl: LTLFormula, run: spec_fn(nat) -> State, i: nat) -> State {
    states_of(ltl)[run(i + 1) as int]
}

/// A run enters, with each step, one of the enumerated states, whose
/// symbol is the symbol of the step.
pub proof fn lemma_run_enters(ltl: LTLFormula, word: Word, run: spec_fn(nat) -> State, i: nat)
    requires
        fits(ltl),
        gba_of(ltl).state_infos.len() <= u64::MAX,
        gba_of(ltl).is_run(run, word),
    ensures
        run(i + 1) < states_of(ltl).len(),
        word(i) == state_at(ltl, run, i) & ap_mask(ap_bits(ltl)),
        i == 0 ==> holds(ltl, usage_of(ltl), state_at(ltl, run, i)),
        i > 0 ==> locally_consistent(usage_of(ltl), state_at(ltl, run, (i - 1) as nat), state_at(ltl, run, i)),
    decreases i,
{
    let gba = gba_of(ltl);
    assert(gba.steps_at(run, word, i));
    if i > 0 {
        lemma_run_enters(ltl, word, run, (i - 1) as nat);
    }
    lemma_gba_edges(ltl, run(i) as int, word(i), run(i + 1));
}

/// The accepting set of an until: it has the index that says how many
/// untils stand before it in the registry.
pub proof fn lemma_end_function(usage: Registry, m: nat, j: int)
    requires
        0 <= j < m <= usage.len(),
        usage[j].0 is Until,
    ensures
        end_functions_of(usage, j as nat).len() < end_functions_of(usage, m).len(),
        end_functions_of(usage, m)[end_functions_of(usage, j as nat).len() as int] == discharged(
            usage[j].1,
            compiled(*usage[j].0->Until_1, usage),
        ),
    decreases m,
{
    if m - 1 > j {
        lemma_end_function(usage, (m - 1) as nat, j);
    }
}

/// Every accepting set is that of an until of the registry.
pub proof fn lemma_end_function_entry(usage: Registry, m: nat, x: int) -> (j: int)
    requires
        m <= usage.len(),
        0 <= x < end_functions_of(usage, m).len(),
    ensures
        0 <= j < m,
        usage[j].0 is Until,
        end_functions_of(usage, m)[x] == discharged(usage[j].1, compiled(*usage[j].0->Until_1, usage)),
    decreases m,
{
    let before = end_functions_of(usage, (m - 1) as nat);
    if x < before.len() {
        lemma_end_function_entry(usage, (m - 1) as nat, x)
    } else {
        m - 1
    }
}

/// What the predicate of an accepting set says of a state: the until does
/// not hold, or its second operand holds.
pub proof fn lemma_discharged(bit: u8, phi2: GetValueForThing, s: State)
    ensures
        discharged(bit, phi2).value(s) == !(test_bit(s, bit) && !phi2.value(s)),
{
    let lookup = GetValueForThing::Lookup(bit);
    let not2 = GetValueForThing::Not(Box::new(phi2));
    let both = GetValueForThing::And(Box::new(lookup), Box::new(not2));
    assert(lookup.value(s) == test_bit(s, bit));
    assert(not2.value(s) == !phi2.value(s));
    assert(both.value(s) == (lookup.value(s) && not2.value(s)));
    assert(discharged(bit, phi2).value(s) == !both.value(s));
}

/// An accepting run comes, from any step on, to a state in which the
/// until of the entry `j` is discharged.
pub proof fn lemma_fair(ltl: LTLFormula, word: Word, run: spec_fn(nat) -> State, j: int, from: nat) -> (last: nat)
    requires
        is_accepting_run(ltl, word, run),
        0 <= j < usage_of(ltl).len(),
        usage_of(ltl)[j].0 is Until,
    ensures
        last >= from,
        !(test_bit(state_at(ltl, run, last), usage_of(ltl)[j].1) && !holds(
            *usage_of(ltl)[j].0->Until_1,
            usage_of(ltl),
            state_at(ltl, run, last),
        )),
{
    let usage = usage_of(ltl);
    let gba = gba_of(ltl);
    lemma_end_function(usage, usage.len(), j);
    let set = end_functions_of(usage, j as nat).len() as int;
    assert(gba.visits_from(run, set, from + 1));
    let i = choose|i: nat| i >= from + 1 && #[trigger] gba.in_set_at(run, set, i);
    let last = (i - 1) as nat;
    lemma_run_enters(ltl, word, run, last);
    lemma_discharged(usage[j].1, compiled(*usage[j].0->Until_1, usage), state_at(ltl, run, last));
    last
}

/// In the states of an accepting run the bit of each entry says whether
/// the formula of the entry holds from that step on.
pub proof fn lemma_bit_true(ltl: LTLFormula, word: Word, run: spec_fn(nat) -> State, j: int, i: nat)
    requires
        is_accepting_run(ltl, word, run),
        0 <= j < usage_of(ltl).len(),
    ensures
        test_bit(state_at(ltl, run, i), usage_of(ltl)[j].1) == sat(usage_of(ltl)[j].0, word, i),
    decreases j, 2nat, 0nat, ltl,
{
    let usage = usage_of(ltl);
    let s = state_at(ltl, run, i);
    lemma_tableau_ok(ltl);
    assert(entry_ok(usage, j, ap_bits(ltl)));
    lemma_run_enters(ltl, word, run, i);
    lemma_sat(usage[j].0, word, i);
    match usage[j].0 {
        LTLFormula::AP(id) => {
            lemma_masked(s, ap_bits(ltl), id);
        },
        LTLFormula::Next(phi) => {
            lemma_run_enters(ltl, word, run, i + 1);
            assert(entry_respected(usage, j, s, state_at(ltl, run, i + 1)));
            lemma_holds_true(ltl, word, run, *phi, j, i + 1);
        },
        LTLFormula::Until(phi1, phi2) => {
            if test_bit(s, usage[j].1) {
                let last = lemma_fair(ltl, word, run, j, i);
                lemma_until_forward(ltl, word, run, j, i, last);
            } else {
                if sat(usage[j].0, word, i) {
                    let goal = choose|goal: nat| #[trigger]
                        reached(meaning(*phi1, word), meaning(*phi2, word), i, goal);
                    lemma_until_backward(ltl, word, run, j, i, goal);
                }
            }
        },
        _ => {},
    }
}

/// In the states of an accepting run, what is covered by the entries
/// before `bound` holds in the state just where it holds from that step on.
pub proof fn lemma_holds_true(
    ltl: LTLFormula,
    word: Word,
    run: spec_fn(nat) -> State,
    phi: LTLFormula,
    bound: int,
    i: nat,
)
    requires
        is_accepting_run(ltl, word, run),
        0 <= bound <= usage_of(ltl).len(),
        covered(phi, usage_of(ltl).take(bound)),
    ensures
        holds(phi, usage_of(ltl), state_at(ltl, run, i)) == sat(phi, word, i),
    decreases bound, 0nat, 0nat, phi,
{
    let usage = usage_of(ltl);
    let before = usage.take(bound);
    lemma_sat(phi, word, i);
    match phi {
        LTLFormula::Not(a) => {
            lemma_holds_true(ltl, word, run, *a, bound, i);
        },
        LTLFormula::And(a, b) => {
            lemma_holds_true(ltl, word, run, *a, bound, i);
            lemma_holds_true(ltl, word, run, *b, bound, i);
        },
        _ => {
            assert(is_prefix(before, usage));
            lemma_bit_kept(before, usage, phi);
            let j = lemma_entry_of(before, phi);
            assert(before[j] == usage[j]);
            lemma_bit_true(ltl, word, run, j, i);
        },
    }
}

/// An until whose bit is set holds, as the run comes to a state in which
/// it is discharged.
proof fn lemma_until_forward(ltl: LTLFormula, word: Word, run: spec_fn(nat) -> State, j: int, i: nat, last: nat)
    requires
        is_accepting_run(ltl, word, run),
        0 <= j < usage_of(ltl).len(),
        usage_of(ltl)[j].0 is Until,
        test_bit(state_at(ltl, run, i), usage_of(ltl)[j].1),
        last >= i,
        !(test_bit(state_at(ltl, run, last), usage_of(ltl)[j].1) && !holds(
            *usage_of(ltl)[j].0->Until_1,
            usage_of(ltl),
            state_at(ltl, run, last),
        )),
    ensures
        sat(usage_of(ltl)[j].0, word, i),
    decreases j, 1nat, last - i, ltl,
{
    let usage = usage_of(ltl);
    let s = state_at(ltl, run, i);
    let phi1 = *usage[j].0->Until_0;
    let phi2 = *usage[j].0->Until_1;
    lemma_tableau_ok(ltl);
    assert(entry_ok(usage, j, ap_bits(ltl)));
    lemma_run_enters(ltl, word, run, i);
    lemma_holds_true(ltl, word, run, phi1, j, i);
    lemma_holds_true(ltl, word, run, phi2, j, i);
    lemma_until_unfolds(phi1, phi2, word, i);
    if !holds(phi2, usage, s) {
        lemma_until_consistent(usage, ap_bits(ltl), tableau_of(ltl).bits_used, usage.len(), run(i + 1) as int, j);
        lemma_run_enters(ltl, word, run, i + 1);
        assert(entry_respected(usage, j, s, state_at(ltl, run, i + 1)));
        lemma_until_forward(ltl, word, run, j, i + 1, last);
    }
}

/// An until that holds has its bit set.
proof fn lemma_until_backward(ltl: LTLFormula, word: Word, run: spec_fn(nat) -> State, j: int, i: nat, goal: nat)
    requires
        is_accepting_run(ltl, word, run),
        0 <= j < usage_of(ltl).len(),
        usage_of(ltl)[j].0 is Until,
        reached(
            meaning(*usage_of(ltl)[j].0->Until_0, word),
            meaning(*usage_of(ltl)[j].0->Until_1, word),
            i,
            goal,
        ),
    ensures
        test_bit(state_at(ltl, run, i), usage_of(ltl)[j].1),
    decreases j, 1nat, goal - i, ltl,
{
    let usage = usage_of(ltl);
    let s = state_at(ltl, run, i);
    let phi1 = *usage[j].0->Until_0;
    let phi2 = *usage[j].0->Until_1;
    if !test_bit(s, usage[j].1) {
        lemma_tableau_ok(ltl);
        assert(entry_ok(usage, j, ap_bits(ltl)));
        lemma_run_enters(ltl, word, run, i);
        lemma_holds_true(ltl, word, run, phi1, j, i);
        lemma_holds_true(ltl, word, run, phi2, j, i);
        lemma_until_consistent(usage, ap_bits(ltl), tableau_of(ltl).bits_used, usage.len(), run(i + 1) as int, j);
        assert(!sat(phi2, word, i));
        assert(goal > i);
        assert(meaning(phi1, word)(i));
        lemma_run_enters(ltl, word, run, i + 1);
        assert(entry_respected(usage, j, s, state_at(ltl, run, i + 1)));
        assert(reached(meaning(phi1, word), meaning(phi2, word), i + 1, goal));
        lemma_until_backward(ltl, word, run, j, i + 1, goal);
    }
}

/// The formula holds of every word that its automaton accepts.
pub proof fn lemma_accepted_holds(ltl: LTLFormula, word: Word)
    requires
        fits(ltl),
        gba_of(ltl).state_infos.len() <= u64::MAX,
        gba_of(ltl).accepts(word),
    ensures
        sat(ltl, word, 0),
{
    let gba = gba_of(ltl);
    let run = choose|run: spec_fn(nat) -> State| #[trigger] gba.is_run(run, word) && gba.run_accepted(run);
    lemma_tableau_ok(ltl);
    lemma_run_enters(ltl, word, run, 0);
    assert(usage_of(ltl).take(usage_of(ltl).len() as int) =~= usage_of(ltl));
    lemma_holds_true(ltl, word, run, ltl, usage_of(ltl).len() as int, 0);
}

/// The state that says of each of the first `m` entries whether its
/// formula holds of `word` from the step `i` on.
pub open spec fn truth_state(usage: Registry, m: nat, word: Word, i: nat) -> State
    decreases m,
{
    if m == 0 {
        0
    } else {
        let before = truth_state(usage, (m - 1) as nat, word, i);
        if sat(usage[m - 1].0, word, i) {
            with_bit(before, usage[m - 1].1)
        } else {
            before
        }
    }
}

/// The bit of an entry says whether its formula holds.
pub proof fn lemma_truth_bit(usage: Registry, amount_aps: nat, bits_used: nat, m: nat, word: Word, i: nat, j: int)
    requires
        registry_ok(usage, amount_aps, bits_used),
        0 <= j < m <= usage.len(),
    ensures
        test_bit(truth_state(usage, m, word, i), usage[j].1) == sat(usage[j].0, word, i),
    decreases m,
{
    let before = truth_state(usage, (m - 1) as nat, word, i);
    lemma_with_bit(before, usage[m - 1].1, usage[j].1);
    if j < m - 1 {
        lemma_truth_bit(usage, amount_aps, bits_used, (m - 1) as nat, word, i, j);
        assert(usage[m - 1].1 != usage[j].1);
    } else {
        lemma_truth_clear(usage, amount_aps, bits_used, (m - 1) as nat, word, i, usage[j].1);
    }
}

/// A bit that none of the entries has is clear.
pub proof fn lemma_truth_clear(usage: Registry, amount_aps: nat, bits_used: nat, m: nat, word: Word, i: nat, bit: u8)
    requires
        registry_ok(usage, amount_aps, bits_used),
        m <= usage.len(),
        bit < 64,
        forall|j: int| 0 <= j < m ==> (#[trigger] usage[j]).1 != bit,
    ensures
        !test_bit(truth_state(usage, m, word, i), bit),
    decreases m,
{
    if m == 0 {
        lemma_no_bit(bit);
    } else {
        let before = truth_state(usage, (m - 1) as nat, word, i);
        lemma_truth_clear(usage, amount_aps, bits_used, (m - 1) as nat, word, i, bit);
        assert(usage[m - 1].1 != bit);
        lemma_with_bit(before, usage[m - 1].1, bit);
    }
}

/// What is covered by the entries before `bound` holds in the state just
/// where it holds of the word.
pub proof fn lemma_truth_holds(
    phi: LTLFormula,
    usage: Registry,
    amount_aps: nat,
    bits_used: nat,
    bound: int,
    m: nat,
    word: Word,
    i: nat,
)
    requires
        registry_ok(usage, amount_aps, bits_used),
        0 <= bound <= m <= usage.len(),
        covered(phi, usage.take(bound)),
    ensures
        holds(phi, usage, truth_state(usage, m, word, i)) == sat(phi, word, i),
    decreases phi,
{
    let before = usage.take(bound);
    lemma_sat(phi, word, i);
    match phi {
        LTLFormula::Not(a) => {
            lemma_truth_holds(*a, usage, amount_aps, bits_used, bound, m, word, i);
        },
        LTLFormula::And(a, b) => {
            lemma_truth_holds(*a, usage, amount_aps, bits_used, bound, m, word, i);
            lemma_truth_holds(*b, usage, amount_aps, bits_used, bound, m, word, i);
        },
        _ => {
            assert(is_prefix(before, usage));
            lemma_bit_kept(before, usage, phi);
            let j = lemma_entry_of(before, phi);
            assert(before[j] == usage[j]);
            lemma_truth_bit(usage, amount_aps, bits_used, m, word, i, j);
        },
    }
}

/// The state of the truth is among the enumerated states.
pub proof fn lemma_truth_enumerated(usage: Registry, amount_aps: nat, bits_used: nat, m: nat, word: Word, i: nat)
    requires
        registry_ok(usage, amount_aps, bits_used),
        m <= usage.len(),
    ensures
        enumerated(usage, m).contains(truth_state(usage, m, word, i)),
    decreases m,
{
    let now = enumerated(usage, m);
    if m == 0 {
        assert(now[0] == 0);
    } else {
        let before = enumerated(usage, (m - 1) as nat);
        let old = truth_state(usage, (m - 1) as nat, word, i);
        let bit = usage[m - 1].1;
        lemma_truth_enumerated(usage, amount_aps, bits_used, (m - 1) as nat, word, i);
        let x = choose|x: int| 0 <= x < before.len() && before[x] == old;
        assert(entry_ok(usage, m - 1, amount_aps));
        match usage[m - 1].0 {
            LTLFormula::Until(phi1, phi2) => {
                lemma_truth_holds(*phi1, usage, amount_aps, bits_used, m - 1, (m - 1) as nat, word, i);
                lemma_truth_holds(*phi2, usage, amount_aps, bits_used, m - 1, (m - 1) as nat, word, i);
                lemma_until_unfolds(*phi1, *phi2, word, i);
                let first = compiled(*phi1, usage);
                let second = compiled(*phi2, usage);
                assert(now == unfolded(before, first, second, bit));
                if sat(*phi2, word, i) || !sat(usage[m - 1].0, word, i) {
                    assert(now[x] == truth_state(usage, m, word, i));
                } else {
                    lemma_pending_has(before, first, second, bit, x);
                    let pending = crate::buechi::ltl_to_buechi::pending(before, first, second, bit);
                    let y = choose|y: int| 0 <= y < pending.len() && pending[y] == with_bit(old, bit);
                    assert(now[before.len() + y] == truth_state(usage, m, word, i));
                }
            },
            _ => {
                assert(now == doubled(before, bit));
                if sat(usage[m - 1].0, word, i) {
                    assert(now[before.len() + x] == truth_state(usage, m, word, i));
                } else {
                    assert(now[x] == truth_state(usage, m, word, i));
                }
            },
        }
    }
}

/// Whether the word speaks of no other atomic propositions than those that have a bit.
pub open spec fn over_propositions(usage: Registry, word: Word) -> bool {
    forall|i: nat, bit: u8| bit < 64 && #[trigger] test_bit(word(i), bit) ==> bit_of(usage, LTLFormula::AP(bit)) is Some
}

/// The symbol of the state of the truth is the symbol of the step.
pub proof fn lemma_truth_symbol(ltl: LTLFormula, word: Word, i: nat)
    requires
        fits(ltl),
        over_propositions(usage_of(ltl), word),
    ensures
        truth_state(usage_of(ltl), usage_of(ltl).len(), word, i) & ap_mask(ap_bits(ltl)) == word(i),
{
    let usage = usage_of(ltl);
    let amount_aps = ap_bits(ltl);
    let bits_used = tableau_of(ltl).bits_used;
    let s = truth_state(usage, usage.len(), word, i);
    lemma_tableau_ok(ltl);
    assert forall|bit: u8| bit < 64 implies #[trigger] test_bit(s & ap_mask(amount_aps), bit) == test_bit(
        word(i),
        bit,
    ) by {
        lemma_masked(s, amount_aps, bit);
        let ap = LTLFormula::AP(bit);
        if bit_of(usage, ap) is Some {
            let j = lemma_entry_of(usage, ap);
            assert(entry_ok(usage, j, amount_aps));
            lemma_truth_bit(usage, amount_aps, bits_used, usage.len(), word, i, j);
            lemma_sat(ap, word, i);
        } else {
            if bit < amount_aps {
                assert forall|j: int| 0 <= j < usage.len() implies (#[trigger] usage[j]).1 != bit by {
                    assert(entry_ok(usage, j, amount_aps));
                    if usage[j].1 == bit {
                        lemma_bit_of_entry(usage, j);
                    }
                }
                lemma_truth_clear(usage, amount_aps, bits_used, usage.len(), word, i, bit);
            }
        }
    }
    lemma_same_bits(s & ap_mask(amount_aps), word(i));
}

/// The run that enters, with each step, the state of the truth.
pub open spec fn truth_run(ltl: LTLFormula, word: Word) -> spec_fn(nat) -> State {
    |i: nat|
        if i == 0 {
            states_of(ltl).len() as State
        } else {
            (choose|x: int|
                0 <= x < states_of(ltl).len() && states_of(ltl)[x] == truth_state(
                    usage_of(ltl),
                    usage_of(ltl).len(),
                    word,
                    (i - 1) as nat,
                )) as State
        }
}

/// The run of the truth enters, with each step, the state of the truth.
pub proof fn lemma_truth_run_state(ltl: LTLFormula, word: Word, i: nat)
    requires
        fits(ltl),
        gba_of(ltl).state_infos.len() <= u64::MAX,
    ensures
        truth_run(ltl, word)(i + 1) < states_of(ltl).len(),
        state_at(ltl, truth_run(ltl, word), i) == truth_state(usage_of(ltl), usage_of(ltl).len(), word, i),
{
    lemma_tableau_ok(ltl);
    lemma_truth_enumerated(usage_of(ltl), ap_bits(ltl), tableau_of(ltl).bits_used, usage_of(ltl).len(), word, i);
}

/// The run of the truth is a run over the word, where the formula holds of the word.
pub proof fn lemma_truth_run_steps(ltl: LTLFormula, word: Word, i: nat)
    requires
        fits(ltl),
        gba_of(ltl).state_infos.len() <= u64::MAX,
        over_propositions(usage_of(ltl), word),
        sat(ltl, word, 0),
    ensures
        gba_of(ltl).steps_at(truth_run(ltl, word), word, i),
{
    let usage = usage_of(ltl);
    let amount_aps = ap_bits(ltl);
    let bits_used = tableau_of(ltl).bits_used;
    let run = truth_run(ltl, word);
    let len = usage.len();
    lemma_tableau_ok(ltl);
    lemma_truth_run_state(ltl, word, i);
    lemma_truth_symbol(ltl, word, i);
    let now = truth_state(usage, len, word, i);
    if i == 0 {
        assert(usage.take(len as int) =~= usage);
        lemma_truth_holds(ltl, usage, amount_aps, bits_used, len as int, len, word, 0);
    } else {
        let before = truth_state(usage, len, word, (i - 1) as nat);
        lemma_truth_run_state(ltl, word, (i - 1) as nat);
        assert forall|j: int| 0 <= j < usage.len() implies #[trigger] entry_respected(usage, j, before, now) by {
            assert(entry_ok(usage, j, amount_aps));
            lemma_truth_bit(usage, amount_aps, bits_used, len, word, (i - 1) as nat, j);
            lemma_truth_bit(usage, amount_aps, bits_used, len, word, i, j);
            lemma_sat(usage[j].0, word, (i - 1) as nat);
            match usage[j].0 {
                LTLFormula::Next(phi) => {
                    lemma_truth_holds(*phi, usage, amount_aps, bits_used, j, len, word, i);
                },
                LTLFormula::Until(phi1, phi2) => {
                    lemma_truth_holds(*phi1, usage, amount_aps, bits_used, j, len, word, (i - 1) as nat);
                    lemma_truth_holds(*phi2, usage, amount_aps, bits_used, j, len, word, (i - 1) as nat);
                    lemma_until_unfolds(*phi1, *phi2, word, (i - 1) as nat);
                },
                _ => {},
            }
        }
    }
    lemma_gba_edges(ltl, run(i) as int, word(i), run(i + 1));
}

/// The run of the truth visits each accepting set again and again.
pub proof fn lemma_truth_run_fair(ltl: LTLFormula, word: Word, set: int, from: nat)
    requires
        fits(ltl),
        gba_of(ltl).state_infos.len() <= u64::MAX,
        0 <= set < gba_of(ltl).end_sets.len(),
    ensures
        gba_of(ltl).visits_from(truth_run(ltl, word), set, from),
{
    let usage = usage_of(ltl);
    let amount_aps = ap_bits(ltl);
    let bits_used = tableau_of(ltl).bits_used;
    let len = usage.len();
    let run = truth_run(ltl, word);
    lemma_tableau_ok(ltl);
    let j = lemma_end_function_entry(usage, len, set);
    let phi1 = *usage[j].0->Until_0;
    let phi2 = *usage[j].0->Until_1;
    assert(entry_ok(usage, j, amount_aps));
    lemma_sat(usage[j].0, word, from);
    let last: nat = if sat(usage[j].0, word, from) {
        choose|goal: nat| #[trigger] reached(meaning(phi1, word), meaning(phi2, word), from, goal)
    } else {
        from
    };
    let s = truth_state(usage, len, word, last);
    lemma_truth_run_state(ltl, word, last);
    lemma_truth_bit(usage, amount_aps, bits_used, len, word, last, j);
    lemma_truth_holds(phi2, usage, amount_aps, bits_used, j, len, word, last);
    lemma_discharged(usage[j].1, compiled(phi2, usage), s);
    assert(gba_of(ltl).in_set_at(run, set, last + 1));
}

/// The automaton of a formula accepts every word of which the formula
/// holds, if the word speaks of no other atomic propositions.
pub proof fn lemma_holds_accepted(ltl: LTLFormula, word: Word)
    requires
        fits(ltl),
        gba_of(ltl).state_infos.len() <= u64::MAX,
        over_propositions(usage_of(ltl), word),
        sat(ltl, word, 0),
    ensures
        gba_of(ltl).accepts(word),
{
    let gba = gba_of(ltl);
    let run = truth_run(ltl, word);
    assert forall|i: nat| #[trigger] gba.steps_at(run, word, i) by {
        lemma_truth_run_steps(ltl, word, i);
    }
    assert forall|set: int, from: nat| 0 <= set < gba.end_sets.len() implies #[trigger] gba.visits_from(
        run,
        set,
        from,
    ) by {
        lemma_truth_run_fair(ltl, word, set, from);
    }
    assert(gba.is_run(run, word));
}

/// The automaton of a formula accepts just the words of which the formula
/// holds, among the words that speak of no other atomic propositions than
/// those of the formula.
pub proof fn lemma_gba_language(ltl: LTLFormula, word: Word)
    requires
        fits(ltl),
        gba_of(ltl).state_infos.len() <= u64::MAX,
        over_propositions(usage_of(ltl), word),
    ensures
        gba_of(ltl).accepts(word) <==> sat(ltl, word, 0),
{
    if gba_of(ltl).accepts(word) {
        lemma_accepted_holds(ltl, word);
    }
    if sat(ltl, word, 0) {
        lemma_holds_accepted(ltl, word);
    }
}

} // verus!
