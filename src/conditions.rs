//! A list of boolean conditions, held in a `bit_vec::BitVec`.

use bit_vec::BitVec;
use vstd::prelude::*;

verus! {

#[verifier::external_type_specification]
#[verifier::external_body]
#[verifier::reject_recursive_types(B)]
pub struct ExBitVec<B>(BitVec<B>);

/// The bits a `BitVec` holds, first to last.
pub uninterp spec fn bits_of(v: BitVec) -> Seq<bool>;

/// Relies on `bit_vec::BitVec::new`: the vector it makes holds no bit.
#[verifier::external_body]
pub fn conditions_new() -> (r: BitVec)
    ensures
        bits_of(r) == Seq::<bool>::empty(),
{
    BitVec::new()
}

/// Relies on `bit_vec::BitVec::push`: appends one bit; it panics only where
/// the length would pass `usize::MAX`.
#[verifier::external_body]
pub fn conditions_push(v: &mut BitVec, b: bool)
    requires
        bits_of(*old(v)).len() < usize::MAX,
    ensures
        bits_of(*final(v)) == bits_of(*old(v)).push(b),
{
    v.push(b)
}

/// Relies on `bit_vec::BitVec::is_empty`: whether the vector holds no bit.
#[verifier::external_body]
pub fn conditions_empty(v: &BitVec) -> (r: bool)
    ensures
        r == (bits_of(*v).len() == 0),
{
    v.is_empty()
}

/// Relies on `bit_vec::BitVec::all`: whether every bit is set.
#[verifier::external_body]
pub fn conditions_all(v: &BitVec) -> (r: bool)
    ensures
        r == (forall|i: int| 0 <= i < bits_of(*v).len() ==> bits_of(*v)[i]),
{
    v.all()
}

} // verus!
