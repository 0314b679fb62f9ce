use vstd::prelude::*;
use bit_vec::BitVec;

verus! {

#[verifier::external_type_specification]
#[verifier::external_body]
#[verifier::reject_recursive_types(B)]
pub struct ExBitVec<B>(BitVec<B>);

/// The bits held by a bit vector, in order.
pub uninterp spec fn bits_of(v: BitVec) -> Seq<bool>;

/// Relies on `BitVec::from_elem`: a vector of `n` bits, each equal to `b`.
#[verifier::external_body]
pub(crate) fn bv_from_elem(n: usize, b: bool) -> (r: BitVec)
    ensures
        bits_of(r) == Seq::new(n as nat, |_i: int| b),
{
    BitVec::from_elem(n, b)
}

/// Relies on `BitVec::len`: the number of bits held.
#[verifier::external_body]
pub(crate) fn bv_len(v: &BitVec) -> (r: usize)
    ensures
        r == bits_of(*v).len(),
{
    v.len()
}

/// Relies on indexing a `BitVec` (`Index<usize>`): the bit at `i`; it panics
/// only when `i` is out of bounds.
#[verifier::external_body]
pub(crate) fn bv_get(v: &BitVec, i: usize) -> (r: bool)
    requires
        i < bits_of(*v).len(),
    ensures
        r == bits_of(*v)[i as int],
{
    v[i]
}

/// Relies on `BitVec::set`: replaces the bit at `i`; it panics only when `i`
/// is out of bounds.
#[verifier::external_body]
pub(crate) fn bv_set(v: &mut BitVec, i: usize, b: bool)
    requires
        i < bits_of(*old(v)).len(),
    ensures
        bits_of(*final(v)) == bits_of(*old(v)).update(i as int, b),
{
    v.set(i, b)
}

} // verus!
