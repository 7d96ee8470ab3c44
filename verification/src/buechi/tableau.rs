//! What holds of the bits that the subformulas of a formula get.

use crate::buechi::ltl_to_buechi::{
    ap_bits, bit_of, compiled, doubled, enumerated, holds, keys, lemma_registered_grows, pending, registered,
    tableau_of, test_bit, unfolded, with_bit, GetValueForThing, Registry, Tableau,
};
use crate::buechi::semantics::{lemma_no_bit, lemma_with_bit};
use crate::buechi::State;
use crate::parsing::LTLFormula;
use crate::seqs::{lemma_position, position};
use vstd::prelude::*;

verus! {

/// Whether every atomic proposition, next and until that `ltl` is made of
/// with "not" and "and" has a bit.
pub open spec fn covered(ltl: LTLFormula, usage: Registry) -> bool
    decreases ltl,
{
    match ltl {
        LTLFormula::Not(phi) => covered(*phi, usage),
        LTLFormula::And(phi1, phi2) => covered(*phi1, usage) && covered(*phi2, usage),
        _ => bit_of(usage, ltl) is Some,
    }
}

/// Whether `longer` begins with `shorter`.
pub open spec fn is_prefix(shorter: Registry, longer: Registry) -> bool {
    shorter.len() <= longer.len() && forall|i: int| 0 <= i < shorter.len() ==> longer[i] == shorter[i]
}

/// The number of operators and atomic propositions of a formula.
pub open spec fn size(ltl: LTLFormula) -> nat
    decreases ltl,
{
    match ltl {
        LTLFormula::AP(_) => 1,
        LTLFormula::Not(phi) => size(*phi) + 1,
        LTLFormula::And(phi1, phi2) => size(*phi1) + size(*phi2) + 1,
        LTLFormula::Next(phi) => size(*phi) + 1,
        LTLFormula::Until(phi1, phi2) => size(*phi1) + size(*phi2) + 1,
    }
}

/// Whether the entry `i` is as it should be: an atomic proposition has the
/// bit of its identifier, among the first `amount_aps` bits; a next or an
/// until has a bit behind these, and its operands are made of what has a
/// bit among the entries before.
pub open spec fn entry_ok(usage: Registry, i: int, amount_aps: nat) -> bool {
    match usage[i].0 {
        LTLFormula::AP(id) => usage[i].1 == id && id < amount_aps,
        LTLFormula::Next(phi) => amount_aps <= usage[i].1 && covered(*phi, usage.take(i)),
        LTLFormula::Until(phi1, phi2) => amount_aps <= usage[i].1 && covered(*phi1, usage.take(i)) && covered(
            *phi2,
            usage.take(i),
        ),
        _ => false,
    }
}

/// Whether the registry is as it should be: no formula stands twice, no bit
/// is given twice, every bit is one of the `bits_used` first bits of a
/// state, and each entry is as it should be.
pub open spec fn registry_ok(usage: Registry, amount_aps: nat, bits_used: nat) -> bool {
    &&& amount_aps <= bits_used <= 64
    &&& keys(usage).no_duplicates()
    &&& forall|i: int| 0 <= i < usage.len() ==> #[trigger] entry_ok(usage, i, amount_aps)
    &&& forall|i: int| 0 <= i < usage.len() ==> (#[trigger] usage[i]).1 < bits_used
    &&& forall|i: int, j: int| 0 <= i < usage.len() && 0 <= j < usage.len() && i != j ==> (#[trigger] usage[i]).1 != (
    #[trigger] usage[j]).1
}

/// What has a bit keeps it when entries are added.
pub proof fn lemma_bit_kept(shorter: Registry, longer: Registry, ltl: LTLFormula)
    requires
        is_prefix(shorter, longer),
        bit_of(shorter, ltl) is Some,
    ensures
        bit_of(longer, ltl) == bit_of(shorter, ltl),
{
    lemma_position(keys(shorter), ltl);
    lemma_position(keys(longer), ltl);
    let at = position(keys(shorter), ltl)->0 as int;
    assert(keys(longer)[at] == ltl);
    match position(keys(longer), ltl) {
        Some(found) => {
            if found < at {
                assert(keys(shorter)[found as int] == keys(longer)[found as int]);
            }
        },
        None => {},
    }
}

/// What is covered stays covered when entries are added, and the
/// predicate that is compiled for it stays the same.
pub proof fn lemma_covered_kept(shorter: Registry, longer: Registry, ltl: LTLFormula)
    requires
        is_prefix(shorter, longer),
        covered(ltl, shorter),
    ensures
        covered(ltl, longer),
        compiled(ltl, longer) == compiled(ltl, shorter),
    decreases ltl,
{
    match ltl {
        LTLFormula::Not(phi) => {
            lemma_covered_kept(shorter, longer, *phi);
        },
        LTLFormula::And(phi1, phi2) => {
            lemma_covered_kept(shorter, longer, *phi1);
            lemma_covered_kept(shorter, longer, *phi2);
        },
        _ => {
            lemma_bit_kept(shorter, longer, ltl);
        },
    }
}

/// A registry that is as it should be stays so with one more entry that is
/// as it should be.
proof fn lemma_push_ok(usage: Registry, amount_aps: nat, bits_used: nat, entry: (LTLFormula, u8), next: nat)
    requires
        registry_ok(usage, amount_aps, bits_used),
        bit_of(usage, entry.0) is None,
        bits_used <= next <= 64,
        entry.1 < next,
        entry_ok(usage.push(entry), usage.len() as int, amount_aps),
        forall|i: int| 0 <= i < usage.len() ==> (#[trigger] usage[i]).1 != entry.1,
    ensures
        registry_ok(usage.push(entry), amount_aps, next),
        is_prefix(usage, usage.push(entry)),
        bit_of(usage.push(entry), entry.0) == Some(entry.1),
{
    let longer = usage.push(entry);
    lemma_position(keys(usage), entry.0);
    lemma_position(keys(longer), entry.0);
    assert(keys(longer) =~= keys(usage).push(entry.0));
    assert(keys(longer)[usage.len() as int] == entry.0);
    match position(keys(longer), entry.0) {
        Some(found) => {
            if found < usage.len() {
                assert(keys(usage)[found as int] == entry.0);
            }
        },
        None => {},
    }
    assert forall|i: int| 0 <= i < longer.len() implies #[trigger] entry_ok(longer, i, amount_aps) by {
        if i < usage.len() {
            assert(entry_ok(usage, i, amount_aps));
            assert(longer.take(i) =~= usage.take(i));
        }
    }
}

/// Seeing to a formula leaves the registry as it should be, keeps the
/// entries that were there, and covers the formula. The formulas of the
/// new entries are no larger than the formula.
pub proof fn lemma_registered_ok(ltl: LTLFormula, t: Tableau, amount_aps: nat)
    requires
        registry_ok(t.usage, amount_aps, t.bits_used),
        ap_bits(ltl) <= amount_aps,
        registered(ltl, t).bits_used <= 64,
    ensures
        registry_ok(registered(ltl, t).usage, amount_aps, registered(ltl, t).bits_used),
        is_prefix(t.usage, registered(ltl, t).usage),
        covered(ltl, registered(ltl, t).usage),
        forall|i: int|
            t.usage.len() <= i < registered(ltl, t).usage.len() ==> size((#[trigger] registered(ltl, t).usage[i]).0)
                <= size(ltl),
    decreases ltl,
{
    let r = registered(ltl, t);
    match ltl {
        LTLFormula::AP(id) => {
            if bit_of(t.usage, ltl) is None {
                assert forall|i: int| 0 <= i < t.usage.len() implies (#[trigger] t.usage[i]).1 != id by {
                    assert(entry_ok(t.usage, i, amount_aps));
                    lemma_position(keys(t.usage), ltl);
                    match t.usage[i].0 {
                        LTLFormula::AP(other) => {
                            assert(keys(t.usage)[i] == t.usage[i].0);
                        },
                        _ => {},
                    }
                }
                lemma_push_ok(t.usage, amount_aps, t.bits_used, (ltl, id), t.bits_used);
            }
        },
        LTLFormula::Not(phi) => {
            lemma_registered_ok(*phi, t, amount_aps);
        },
        LTLFormula::And(phi1, phi2) => {
            let middle = registered(*phi1, t);
            lemma_registered_grows(*phi2, middle);
            lemma_registered_ok(*phi1, t, amount_aps);
            lemma_registered_ok(*phi2, middle, amount_aps);
            lemma_covered_kept(middle.usage, r.usage, *phi1);
        },
        LTLFormula::Next(phi) => {
            if bit_of(t.usage, ltl) is None {
                let inner = registered(*phi, t);
                lemma_registered_ok(*phi, t, amount_aps);
                let entry = (ltl, inner.bits_used as u8);
                lemma_position(keys(t.usage), ltl);
                lemma_position(keys(inner.usage), ltl);
                assert(bit_of(inner.usage, ltl) is None) by {
                    if position(keys(inner.usage), ltl) is Some {
                        let at = position(keys(inner.usage), ltl)->0 as int;
                        if at < t.usage.len() {
                            assert(keys(t.usage)[at] == ltl);
                        } else {
                            assert(size(inner.usage[at].0) <= size(*phi));
                        }
                    }
                }
                assert(inner.usage.push(entry).take(inner.usage.len() as int) =~= inner.usage);
                lemma_push_ok(inner.usage, amount_aps, inner.bits_used, entry, inner.bits_used + 1);
            }
        },
        LTLFormula::Until(phi1, phi2) => {
            if bit_of(t.usage, ltl) is None {
                let middle = registered(*phi1, t);
                let inner = registered(*phi2, middle);
                lemma_registered_grows(*phi2, middle);
                lemma_registered_ok(*phi1, t, amount_aps);
                lemma_registered_ok(*phi2, middle, amount_aps);
                lemma_covered_kept(middle.usage, inner.usage, *phi1);
                let entry = (ltl, inner.bits_used as u8);
                lemma_position(keys(t.usage), ltl);
                lemma_position(keys(inner.usage), ltl);
                assert(bit_of(inner.usage, ltl) is None) by {
                    if position(keys(inner.usage), ltl) is Some {
                        let at = position(keys(inner.usage), ltl)->0 as int;
                        if at < t.usage.len() {
                            assert(keys(t.usage)[at] == ltl);
                        } else if at < middle.usage.len() {
                            assert(size(middle.usage[at].0) <= size(*phi1));
                            assert(inner.usage[at] == middle.usage[at]);
                        } else {
                            assert(size(inner.usage[at].0) <= size(*phi2));
                        }
                    }
                }
                assert(inner.usage.push(entry).take(inner.usage.len() as int) =~= inner.usage);
                lemma_push_ok(inner.usage, amount_aps, inner.bits_used, entry, inner.bits_used + 1);
            }
        },
    }
}

/// The registry of a formula that fits is as it should be and covers the formula.
pub proof fn lemma_tableau_ok(ltl: LTLFormula)
    requires
        tableau_of(ltl).bits_used <= 64,
    ensures
        registry_ok(tableau_of(ltl).usage, ap_bits(ltl), tableau_of(ltl).bits_used),
        covered(ltl, tableau_of(ltl).usage),
{
    let start = Tableau { usage: Seq::empty(), bits_used: ap_bits(ltl) };
    lemma_registered_grows(ltl, start);
    lemma_registered_ok(ltl, start, ap_bits(ltl));
}

/// What has a bit is at an entry, with that bit.
pub proof fn lemma_entry_of(usage: Registry, ltl: LTLFormula) -> (j: int)
    requires
        bit_of(usage, ltl) is Some,
    ensures
        0 <= j < usage.len(),
        usage[j].0 == ltl,
        bit_of(usage, ltl) == Some(usage[j].1),
{
    lemma_position(keys(usage), ltl);
    let j = position(keys(usage), ltl)->0 as int;
    assert(keys(usage)[j] == ltl);
    j
}

/// The formula of an entry has the bit of that entry.
pub proof fn lemma_bit_of_entry(usage: Registry, j: int)
    requires
        keys(usage).no_duplicates(),
        0 <= j < usage.len(),
    ensures
        bit_of(usage, usage[j].0) == Some(usage[j].1),
{
    lemma_position(keys(usage), usage[j].0);
    assert(keys(usage)[j] == usage[j].0);
    let found = position(keys(usage), usage[j].0)->0 as int;
    assert(keys(usage)[found] == keys(usage)[j]);
}

/// What is covered by the entries before `m` does not look at the bit of
/// a later entry.
pub proof fn lemma_value_ignores(
    ltl: LTLFormula,
    usage: Registry,
    amount_aps: nat,
    bits_used: nat,
    m: int,
    later: int,
    s: State,
)
    requires
        registry_ok(usage, amount_aps, bits_used),
        0 <= m <= later < usage.len(),
        covered(ltl, usage.take(m)),
    ensures
        holds(ltl, usage, with_bit(s, usage[later].1)) == holds(ltl, usage, s),
    decreases ltl,
{
    let before = usage.take(m);
    assert(is_prefix(before, usage));
    match ltl {
        LTLFormula::Not(phi) => {
            lemma_value_ignores(*phi, usage, amount_aps, bits_used, m, later, s);
        },
        LTLFormula::And(phi1, phi2) => {
            lemma_value_ignores(*phi1, usage, amount_aps, bits_used, m, later, s);
            lemma_value_ignores(*phi2, usage, amount_aps, bits_used, m, later, s);
        },
        _ => {
            lemma_bit_kept(before, usage, ltl);
            let j = lemma_entry_of(before, ltl);
            assert(before[j] == usage[j]);
            assert(usage[j].1 != usage[later].1);
            lemma_with_bit(s, usage[later].1, usage[j].1);
        },
    }
}

/// Where a state of the states after the first `m` entries comes from: a
/// state after the entries before, which it is or which it is with the bit
/// of the entry. For an until, the state has the bit where the second
/// operand holds in the state that it comes from, may have it where the
/// first operand holds alone, and has it not where neither holds.
pub proof fn lemma_origin(usage: Registry, m: nat, x: int) -> (origin: int)
    requires
        0 < m <= usage.len(),
        0 <= x < enumerated(usage, m).len(),
    ensures
        0 <= origin < enumerated(usage, (m - 1) as nat).len(),
        ({
            let s = enumerated(usage, m)[x];
            let old = enumerated(usage, (m - 1) as nat)[origin];
            let bit = usage[m - 1].1;
            &&& s == old || s == with_bit(old, bit)
            &&& usage[m - 1].0 matches LTLFormula::Until(phi1, phi2) ==> {
                &&& holds(*phi2, usage, old) ==> s == with_bit(old, bit)
                &&& !holds(*phi1, usage, old) && !holds(*phi2, usage, old) ==> s == old
            }
        }),
{
    let before = enumerated(usage, (m - 1) as nat);
    let bit = usage[m - 1].1;
    match usage[m - 1].0 {
        LTLFormula::Until(phi1, phi2) => {
            if x < before.len() {
                x
            } else {
                lemma_pending_origin(before, compiled(*phi1, usage), compiled(*phi2, usage), bit, x - before.len())
            }
        },
        LTLFormula::AP(_) => {
            if x < before.len() {
                x
            } else {
                x - before.len()
            }
        },
        LTLFormula::Next(_) => {
            if x < before.len() {
                x
            } else {
                x - before.len()
            }
        },
        _ => x,
    }
}

/// Where a pending state comes from.
proof fn lemma_pending_origin(states: Seq<State>, phi1: GetValueForThing, phi2: GetValueForThing, bit: u8, y: int) -> (origin:
    int)
    requires
        0 <= y < pending(states, phi1, phi2, bit).len(),
    ensures
        0 <= origin < states.len(),
        pending(states, phi1, phi2, bit)[y] == with_bit(states[origin], bit),
        phi1.value(states[origin]),
        !phi2.value(states[origin]),
    decreases states.len(),
{
    let front = states.drop_last();
    let before = pending(front, phi1, phi2, bit);
    if y < before.len() {
        let origin = lemma_pending_origin(front, phi1, phi2, bit, y);
        assert(front[origin] == states[origin]);
        origin
    } else {
        states.len() - 1
    }
}

/// A state in which the first operand holds and the second does not is pending.
pub proof fn lemma_pending_has(states: Seq<State>, phi1: GetValueForThing, phi2: GetValueForThing, bit: u8, x: int)
    requires
        0 <= x < states.len(),
        phi1.value(states[x]),
        !phi2.value(states[x]),
    ensures
        pending(states, phi1, phi2, bit).contains(with_bit(states[x], bit)),
    decreases states.len(),
{
    let front = states.drop_last();
    let before = pending(front, phi1, phi2, bit);
    let now = pending(states, phi1, phi2, bit);
    if x < states.len() - 1 {
        lemma_pending_has(front, phi1, phi2, bit, x);
        assert(front[x] == states[x]);
        let at = choose|at: int| 0 <= at < before.len() && before[at] == with_bit(states[x], bit);
        assert(now[at] == with_bit(states[x], bit));
    } else {
        assert(now[now.len() - 1] == with_bit(states[x], bit));
    }
}

/// The states after the first `m` entries have no bit of a later entry.
pub proof fn lemma_fresh(usage: Registry, amount_aps: nat, bits_used: nat, m: nat, x: int, later: int)
    requires
        registry_ok(usage, amount_aps, bits_used),
        m <= later < usage.len(),
        0 <= x < enumerated(usage, m).len(),
    ensures
        !test_bit(enumerated(usage, m)[x], usage[later].1),
    decreases m,
{
    if m == 0 {
        lemma_no_bit(usage[later].1);
    } else {
        let origin = lemma_origin(usage, m, x);
        lemma_fresh(usage, amount_aps, bits_used, (m - 1) as nat, origin, later);
        let old = enumerated(usage, (m - 1) as nat)[origin];
        assert(usage[m - 1].1 != usage[later].1);
        lemma_with_bit(old, usage[m - 1].1, usage[later].1);
    }
}

/// The bit of an until agrees with its operands in every state: the until
/// holds where its second operand holds, and fails where none of its
/// operands holds.
pub proof fn lemma_until_consistent(usage: Registry, amount_aps: nat, bits_used: nat, m: nat, x: int, j: int)
    requires
        registry_ok(usage, amount_aps, bits_used),
        0 <= j < m <= usage.len(),
        usage[j].0 is Until,
        0 <= x < enumerated(usage, m).len(),
    ensures
        ({
            let s = enumerated(usage, m)[x];
            let phi1 = *usage[j].0->Until_0;
            let phi2 = *usage[j].0->Until_1;
            &&& holds(phi2, usage, s) ==> test_bit(s, usage[j].1)
            &&& !holds(phi1, usage, s) && !holds(phi2, usage, s) ==> !test_bit(s, usage[j].1)
        }),
    decreases m,
{
    let s = enumerated(usage, m)[x];
    let phi1 = *usage[j].0->Until_0;
    let phi2 = *usage[j].0->Until_1;
    let bit = usage[m - 1].1;
    let origin = lemma_origin(usage, m, x);
    let old = enumerated(usage, (m - 1) as nat)[origin];
    assert(entry_ok(usage, j, amount_aps));
    lemma_value_ignores(phi1, usage, amount_aps, bits_used, j, m - 1, old);
    lemma_value_ignores(phi2, usage, amount_aps, bits_used, j, m - 1, old);
    lemma_with_bit(old, bit, usage[j].1);
    if m - 1 == j {
        lemma_fresh(usage, amount_aps, bits_used, (m - 1) as nat, origin, j);
    } else {
        lemma_until_consistent(usage, amount_aps, bits_used, (m - 1) as nat, origin, j);
        assert(bit != usage[j].1);
    }
}

} // verus!
