//! Node sets: the `BitSet` of the `bit_set` crate, seen as a mathematical set
//! of node identifiers.
//!
//! The verifier cannot look inside a `BitSet`. Its contents carry the name
//! [`members`], and every operation on it that the analysis uses goes through
//! one of the functions below, whose contracts are taken on trust from the
//! source of `bit_set`.

use bit_set::BitSet;
use vstd::prelude::*;

verus! {

/// `bit_set::BitSet`, opaque to the verifier.
#[verifier::external_type_specification]
#[verifier::external_body]
#[verifier::reject_recursive_types(B)]
pub struct ExBitSet<B>(BitSet<B>);

/// The identifiers that a node set holds.
pub uninterp spec fn members(s: BitSet) -> Set<usize>;

/// `BitSet::with_capacity`: a set without members, with room for the
/// identifiers below `nbits`.
#[verifier::external_body]
pub(crate) fn set_with_capacity(nbits: usize) -> (r: BitSet)
    ensures
        members(r) == Set::<usize>::empty(),
{
    BitSet::with_capacity(nbits)
}

/// `BitSet::contains`: whether `value` is a member.
#[verifier::external_body]
pub(crate) fn set_contains(s: &BitSet, value: usize) -> (r: bool)
    ensures
        r == members(*s).contains(value),
{
    s.contains(value)
}

/// `BitSet::insert`: makes `value` a member and tells whether it was none
/// before. The bit vector grows to `value + 1` bits, which must be a `usize`.
#[verifier::external_body]
pub(crate) fn set_insert(s: &mut BitSet, value: usize) -> (r: bool)
    requires
        value < usize::MAX,
    ensures
        members(*final(s)) == members(*old(s)).insert(value),
        r == !members(*old(s)).contains(value),
{
    s.insert(value)
}

/// `BitSet::remove`: takes `value` out and tells whether it was a member.
#[verifier::external_body]
pub(crate) fn set_remove(s: &mut BitSet, value: usize) -> (r: bool)
    ensures
        members(*final(s)) == members(*old(s)).remove(value),
        r == members(*old(s)).contains(value),
{
    s.remove(value)
}

/// `BitSet::is_empty`: whether the set has no member.
#[verifier::external_body]
pub(crate) fn set_is_empty(s: &BitSet) -> (r: bool)
    ensures
        r == members(*s).is_empty(),
{
    s.is_empty()
}

/// `BitSet::len`: the number of members.
#[verifier::external_body]
pub(crate) fn set_len(s: &BitSet) -> (r: usize)
    ensures
        r == members(*s).len(),
{
    s.len()
}

/// `BitSet::is_subset`: whether every member of `a` is a member of `b`.
#[verifier::external_body]
pub(crate) fn set_is_subset(a: &BitSet, b: &BitSet) -> (r: bool)
    ensures
        r == members(*a).subset_of(members(*b)),
{
    a.is_subset(b)
}

/// `BitSet::is_disjoint`: whether `a` and `b` have no member in common.
#[verifier::external_body]
pub(crate) fn set_is_disjoint(a: &BitSet, b: &BitSet) -> (r: bool)
    ensures
        r == members(*a).disjoint(members(*b)),
{
    a.is_disjoint(b)
}

/// `BitSet::clone`: a set with the same members.
#[verifier::external_body]
pub(crate) fn set_clone(s: &BitSet) -> (r: BitSet)
    ensures
        members(r) == members(*s),
{
    s.clone()
}

/// `BitSet::iter`: the members, each once, in ascending order.
#[verifier::external_body]
pub(crate) fn set_to_vec(s: &BitSet) -> (r: Vec<usize>)
    ensures
        forall|i: int, j: int| 0 <= i < j < r@.len() ==> r@[i] < r@[j],
        forall|x: usize| r@.contains(x) <==> members(*s).contains(x),
{
    s.iter().collect()
}

} // verus!
