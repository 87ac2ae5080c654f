//! Candidate sets: `bit_set::BitSet` as the solver uses it.

use vstd::prelude::*;

use bit_set::BitSet;

verus! {

#[verifier::external_type_specification]
#[verifier::external_body]
#[verifier::reject_recursive_types(B)]
pub struct ExBitSet<B>(bit_set::BitSet<B>);

/// The values that a bit set holds.
pub uninterp spec fn bits(s: BitSet) -> Set<usize>;

/// Relies on `BitSet::with_capacity`: a set that holds nothing yet, with
/// room for `nbits` bits allocated up front.
#[verifier::external_body]
pub(crate) fn set_with_capacity(nbits: usize) -> (r: BitSet)
    requires
        nbits <= 4096,
    ensures
        bits(r) == Set::<usize>::empty(),
{
    BitSet::with_capacity(nbits)
}

/// Relies on `BitSet::insert`: adds `v`, and says whether it was absent.
/// The set grows to hold bit `v`, so `v` stays small.
#[verifier::external_body]
pub(crate) fn set_insert(s: &mut BitSet, v: usize) -> (r: bool)
    requires
        v < 4096,
    ensures
        bits(*final(s)) == bits(*old(s)).insert(v),
        r == !bits(*old(s)).contains(v),
{
    s.insert(v)
}

/// Relies on `BitSet::remove`: takes `v` out, and says whether it was there.
#[verifier::external_body]
pub(crate) fn set_remove(s: &mut BitSet, v: usize) -> (r: bool)
    ensures
        bits(*final(s)) == bits(*old(s)).remove(v),
        r == bits(*old(s)).contains(v),
{
    s.remove(v)
}

/// Relies on `BitSet::clear`: afterwards the set holds nothing.
#[verifier::external_body]
pub(crate) fn set_clear(s: &mut BitSet)
    ensures
        bits(*final(s)) == Set::<usize>::empty(),
{
    s.clear()
}

/// Relies on `BitSet::len`: the number of values held.
#[verifier::external_body]
pub(crate) fn set_len(s: &BitSet) -> (r: usize)
    ensures
        r == bits(*s).len(),
{
    s.len()
}

/// Relies on `BitSet::contains`: membership of `v`.
#[verifier::external_body]
pub(crate) fn set_contains(s: &BitSet, v: usize) -> (r: bool)
    ensures
        r == bits(*s).contains(v),
{
    s.contains(v)
}

/// Relies on `BitSet::union_with`: adds every value of `other`.
#[verifier::external_body]
pub(crate) fn set_union_with(s: &mut BitSet, other: &BitSet)
    ensures
        bits(*final(s)) == bits(*old(s)).union(bits(*other)),
{
    s.union_with(other)
}

/// Relies on `BitSet::difference`: the values of `a` that are not in `b`,
/// each once.
#[verifier::external_body]
pub(crate) fn set_difference(a: &BitSet, b: &BitSet) -> (r: Vec<usize>)
    ensures
        r@.to_set() == bits(*a).difference(bits(*b)),
        r@.no_duplicates(),
{
    a.difference(b).collect()
}

/// Relies on `BitSet::iter`: its first value, if the set holds any.
#[verifier::external_body]
pub(crate) fn set_first(s: &BitSet) -> (r: Option<usize>)
    ensures
        r.is_none() == (bits(*s) == Set::<usize>::empty()),
        r matches Some(v) ==> bits(*s).contains(v),
{
    s.iter().next()
}

/// Relies on `BitSet::clone`: a copy that holds the same values.
#[verifier::external_body]
pub(crate) fn set_clone(s: &BitSet) -> (r: BitSet)
    ensures
        bits(r) == bits(*s),
{
    s.clone()
}

} // verus!
