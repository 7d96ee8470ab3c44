//! What a formula says of a word, and the bits of a state.

use crate::buechi::ltl_to_buechi::{ap_mask, test_bit, with_bit};
use crate::buechi::{State, Symbol};
use crate::parsing::LTLFormula;
use vstd::prelude::*;

verus! {

/// Setting a bit sets that bit and leaves every other bit as it was.
pub proof fn lemma_with_bit(s: State, bit: u8, other: u8)
    requires
        bit < 64,
        other < 64,
    ensures
        test_bit(with_bit(s, bit), other) == (test_bit(s, other) || bit == other),
{
    assert(test_bit(with_bit(s, bit), other) == (test_bit(s, other) || bit == other)) by (bit_vector)
        requires
            bit < 64,
            other < 64,
    ;
}

/// No bit of 0 is set.
pub proof fn lemma_no_bit(bit: u8)
    requires
        bit < 64,
    ensures
        !test_bit(0, bit),
{
    assert(!test_bit(0, bit)) by (bit_vector)
        requires
            bit < 64,
    ;
}

/// The symbol of a state has the bits of the atomic propositions as the
/// state has them, and no other bit.
pub proof fn lemma_masked(s: State, amount_aps: nat, bit: u8)
    requires
        amount_aps <= 64,
        bit < 64,
    ensures
        test_bit(s & ap_mask(amount_aps), bit) == (test_bit(s, bit) && bit < amount_aps),
{
    if amount_aps >= 64 {
        assert(s & u64::MAX == s) by (bit_vector);
    } else {
        let k = amount_aps as u64;
        let mask = ((1u64 << k) - 1) as u64;
        assert((1u64 << k) >= 1) by (bit_vector)
            requires
                k < 64,
        ;
        assert(test_bit(s & (((1u64 << k) - 1) as u64), bit) == (test_bit(s, bit) && bit < k)) by (bit_vector)
            requires
                k < 64,
                bit < 64,
        ;
    }
}

/// Two words of bits with the same bits are the same.
pub proof fn lemma_same_bits(x: u64, y: u64)
    requires
        forall|bit: u8| bit < 64 ==> #[trigger] test_bit(x, bit) == test_bit(y, bit),
    ensures
        x == y,
{
    assert(x == y) by (bit_vector)
        requires
            test_bit(x, 0) == test_bit(y, 0),
            test_bit(x, 1) == test_bit(y, 1),
            test_bit(x, 2) == test_bit(y, 2),
            test_bit(x, 3) == test_bit(y, 3),
            test_bit(x, 4) == test_bit(y, 4),
            test_bit(x, 5) == test_bit(y, 5),
            test_bit(x, 6) == test_bit(y, 6),
            test_bit(x, 7) == test_bit(y, 7),
            test_bit(x, 8) == test_bit(y, 8),
            test_bit(x, 9) == test_bit(y, 9),
            test_bit(x, 10) == test_bit(y, 10),
            test_bit(x, 11) == test_bit(y, 11),
            test_bit(x, 12) == test_bit(y, 12),
            test_bit(x, 13) == test_bit(y, 13),
            test_bit(x, 14) == test_bit(y, 14),
            test_bit(x, 15) == test_bit(y, 15),
            test_bit(x, 16) == test_bit(y, 16),
            test_bit(x, 17) == test_bit(y, 17),
            test_bit(x, 18) == test_bit(y, 18),
            test_bit(x, 19) == test_bit(y, 19),
            test_bit(x, 20) == test_bit(y, 20),
            test_bit(x, 21) == test_bit(y, 21),
            test_bit(x, 22) == test_bit(y, 22),
            test_bit(x, 23) == test_bit(y, 23),
            test_bit(x, 24) == test_bit(y, 24),
            test_bit(x, 25) == test_bit(y, 25),
            test_bit(x, 26) == test_bit(y, 26),
            test_bit(x, 27) == test_bit(y, 27),
            test_bit(x, 28) == test_bit(y, 28),
            test_bit(x, 29) == test_bit(y, 29),
            test_bit(x, 30) == test_bit(y, 30),
            test_bit(x, 31) == test_bit(y, 31),
            test_bit(x, 32) == test_bit(y, 32),
            test_bit(x, 33) == test_bit(y, 33),
            test_bit(x, 34) == test_bit(y, 34),
            test_bit(x, 35) == test_bit(y, 35),
            test_bit(x, 36) == test_bit(y, 36),
            test_bit(x, 37) == test_bit(y, 37),
            test_bit(x, 38) == test_bit(y, 38),
            test_bit(x, 39) == test_bit(y, 39),
            test_bit(x, 40) == test_bit(y, 40),
            test_bit(x, 41) == test_bit(y, 41),
            test_bit(x, 42) == test_bit(y, 42),
            test_bit(x, 43) == test_bit(y, 43),
            test_bit(x, 44) == test_bit(y, 44),
            test_bit(x, 45) == test_bit(y, 45),
            test_bit(x, 46) == test_bit(y, 46),
            test_bit(x, 47) == test_bit(y, 47),
            test_bit(x, 48) == test_bit(y, 48),
            test_bit(x, 49) == test_bit(y, 49),
            test_bit(x, 50) == test_bit(y, 50),
            test_bit(x, 51) == test_bit(y, 51),
            test_bit(x, 52) == test_bit(y, 52),
            test_bit(x, 53) == test_bit(y, 53),
            test_bit(x, 54) == test_bit(y, 54),
            test_bit(x, 55) == test_bit(y, 55),
            test_bit(x, 56) == test_bit(y, 56),
            test_bit(x, 57) == test_bit(y, 57),
            test_bit(x, 58) == test_bit(y, 58),
            test_bit(x, 59) == test_bit(y, 59),
            test_bit(x, 60) == test_bit(y, 60),
            test_bit(x, 61) == test_bit(y, 61),
            test_bit(x, 62) == test_bit(y, 62),
            test_bit(x, 63) == test_bit(y, 63),
    ;
}

/// An infinite sequence of symbols.
pub type Word = spec_fn(nat) -> Symbol;

/// Whether `second` holds at the step `j`, which is `i` or later, and
/// `first` holds at every step from `i` on before `j`.
pub open spec fn reached(first: spec_fn(nat) -> bool, second: spec_fn(nat) -> bool, i: nat, j: nat) -> bool {
    &&& j >= i
    &&& second(j)
    &&& forall|m: nat| i <= m < j ==> #[trigger] first(m)
}

/// The steps from which on `first` holds until `second` does.
pub open spec fn until(first: spec_fn(nat) -> bool, second: spec_fn(nat) -> bool) -> spec_fn(nat) -> bool {
    |i: nat| exists|j: nat| #[trigger] reached(first, second, i, j)
}

/// The steps of `word` from which on `phi` holds.
pub open spec fn meaning(phi: LTLFormula, word: Word) -> spec_fn(nat) -> bool
    decreases phi,
{
    match phi {
        LTLFormula::AP(id) => |i: nat| test_bit(word(i), id),
        LTLFormula::Not(a) => {
            let inner = meaning(*a, word);
            |i: nat| !inner(i)
        },
        LTLFormula::And(a, b) => {
            let first = meaning(*a, word);
            let second = meaning(*b, word);
            |i: nat| first(i) && second(i)
        },
        LTLFormula::Next(a) => {
            let inner = meaning(*a, word);
            |i: nat| inner(i + 1)
        },
        LTLFormula::Until(a, b) => until(meaning(*a, word), meaning(*b, word)),
    }
}

/// Whether `phi` holds of `word` from the step `i` on. An atomic proposition
/// holds where its bit is set in the symbol of the step; "next `a`" holds
/// where `a` holds from the next step on; "`a` until `b`" holds where `b`
/// holds from some later step on and `a` holds from every step before that.
pub open spec fn sat(phi: LTLFormula, word: Word, i: nat) -> bool {
    meaning(phi, word)(i)
}

/// What holding means for each operator.
pub proof fn lemma_sat(phi: LTLFormula, word: Word, i: nat)
    ensures
        sat(phi, word, i) == match phi {
            LTLFormula::AP(id) => test_bit(word(i), id),
            LTLFormula::Not(a) => !sat(*a, word, i),
            LTLFormula::And(a, b) => sat(*a, word, i) && sat(*b, word, i),
            LTLFormula::Next(a) => sat(*a, word, i + 1),
            LTLFormula::Until(a, b) => exists|j: nat| #[trigger]
                reached(meaning(*a, word), meaning(*b, word), i, j),
        },
{
    match phi {
        LTLFormula::AP(id) => {},
        LTLFormula::Not(a) => {},
        LTLFormula::And(a, b) => {},
        LTLFormula::Next(a) => {},
        LTLFormula::Until(a, b) => {
            assert(meaning(phi, word) == until(meaning(*a, word), meaning(*b, word)));
        },
    }
}

/// An until holds where its second operand holds, or where its first
/// operand holds and the until holds at the next step.
pub proof fn lemma_until_unfolds(a: LTLFormula, b: LTLFormula, word: Word, i: nat)
    ensures
        sat(LTLFormula::Until(Box::new(a), Box::new(b)), word, i) <==> (sat(b, word, i) || (sat(a, word, i) && sat(
            LTLFormula::Until(Box::new(a), Box::new(b)),
            word,
            i + 1,
        ))),
{
    let phi = LTLFormula::Until(Box::new(a), Box::new(b));
    let first = meaning(a, word);
    let second = meaning(b, word);
    lemma_sat(phi, word, i);
    lemma_sat(phi, word, i + 1);
    if sat(phi, word, i) {
        let j = choose|j: nat| #[trigger] reached(first, second, i, j);
        if j > i {
            assert(first(i));
            assert(reached(first, second, i + 1, j));
        }
    }
    if sat(b, word, i) {
        assert(reached(first, second, i, i));
    }
    if sat(a, word, i) && sat(phi, word, i + 1) {
        let j = choose|j: nat| #[trigger] reached(first, second, i + 1, j);
        assert(reached(first, second, i, j));
    }
}

} // verus!
