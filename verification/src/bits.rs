//! The bit vectors of the `bit_vec` crate, as the automata use them. Nothing
//! in this file is proved: the verifier takes the type as opaque and
//! believes what is said here of its methods.

use bit_vec::BitVec;
use vstd::prelude::*;

verus! {

/// Makes `bit_vec::BitVec` known to the verifier, as a type whose inside it does not see.
#[verifier::external_type_specification]
#[verifier::external_body]
#[verifier::reject_recursive_types(B)]
pub struct ExBitVec<B>(BitVec<B>);

/// The bits that a bit vector holds, from index 0 upwards.
pub uninterp spec fn bit_seq(b: BitVec<u32>) -> Seq<bool>;

/// Calls `BitVec::from_elem`: the result holds `nbits` bits, each of them `bit`.
#[verifier::external_body]
pub(crate) fn bits_from_elem(nbits: usize, bit: bool) -> (r: BitVec)
    ensures
        bit_seq(r).len() == nbits,
        forall|i: int| 0 <= i < nbits ==> bit_seq(r)[i] == bit,
{
    BitVec::from_elem(nbits, bit)
}

/// Calls `BitVec::get`: the bit at index `i`, or `None` where `i` is past the end.
#[verifier::external_body]
pub(crate) fn bits_get(b: &BitVec, i: usize) -> (r: Option<bool>)
    ensures
        r == if i < bit_seq(*b).len() {
            Some(bit_seq(*b)[i as int])
        } else {
            None
        },
{
    b.get(i)
}

/// Calls `BitVec::set`, which panics on an index past the end: the bit at
/// index `i` becomes `x` and every other bit stays.
#[verifier::external_body]
pub(crate) fn bits_set(b: &mut BitVec, i: usize, x: bool)
    requires
        i < bit_seq(*old(b)).len(),
    ensures
        bit_seq(*final(b)) == bit_seq(*old(b)).update(i as int, x),
{
    b.set(i, x)
}

/// Calls `BitVec::all`: whether every bit held is set.
#[verifier::external_body]
pub(crate) fn bits_all(b: &BitVec) -> (r: bool)
    ensures
        r == (forall|i: int| 0 <= i < bit_seq(*b).len() ==> bit_seq(*b)[i]),
{
    b.all()
}

/// Calls `BitVec::clone`: the copy holds the same bits.
#[verifier::external_body]
pub(crate) fn bits_clone(b: &BitVec) -> (r: BitVec)
    ensures
        bit_seq(r) == bit_seq(*b),
{
    b.clone()
}

} // verus!
