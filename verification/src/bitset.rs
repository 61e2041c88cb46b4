//! The parts of `hibitset::BitSet` that the chunked bit grid uses, with what
//! the crate's source shows of them.
use hibitset::{BitSet, BitSetLike};
use vstd::prelude::*;

verus! {

#[verifier::external_type_specification]
#[verifier::external_body]
pub struct ExBitSet(BitSet);

/// The indices held by a `hibitset::BitSet`.
pub uninterp spec fn bitset_members(s: BitSet) -> Set<u32>;

/// The bound on the indices a `BitSet` takes: `usize::BITS^4`, which is
/// `2^24` where `usize` has 64 bits and `2^20` where it has 32.
pub open spec fn bitset_index_limit() -> nat {
    if usize::BITS == 64 {
        0x100_0000
    } else {
        0x10_0000
    }
}

/// `BitSet::with_capacity(max)`: an empty set with room for indices up to
/// `max`; it panics when `max` is above the index limit.
#[verifier::external_body]
pub(crate) fn bitset_with_capacity(max: u32) -> (r: BitSet)
    requires
        max <= bitset_index_limit(),
    ensures
        bitset_members(r) == Set::<u32>::empty(),
{
    BitSet::with_capacity(max)
}

/// `BitSet::add(id)`: puts `id` in the set and says whether it was there
/// already.
#[verifier::external_body]
pub(crate) fn bitset_add(s: &mut BitSet, id: u32) -> (was_present: bool)
    requires
        id < bitset_index_limit(),
    ensures
        bitset_members(*final(s)) == bitset_members(*old(s)).insert(id),
        was_present == bitset_members(*old(s)).contains(id),
{
    s.add(id)
}

/// `BitSet::remove(id)`: takes `id` out of the set and says whether it was
/// there.
#[verifier::external_body]
pub(crate) fn bitset_remove(s: &mut BitSet, id: u32) -> (was_present: bool)
    ensures
        bitset_members(*final(s)) == bitset_members(*old(s)).remove(id),
        was_present == bitset_members(*old(s)).contains(id),
{
    s.remove(id)
}

/// `BitSet::contains(id)`.
#[verifier::external_body]
pub(crate) fn bitset_contains(s: &BitSet, id: u32) -> (r: bool)
    ensures
        r == bitset_members(*s).contains(id),
{
    s.contains(id)
}

/// `BitSet::clear()`: empties the set.
#[verifier::external_body]
pub(crate) fn bitset_clear(s: &mut BitSet)
    ensures
        bitset_members(*final(s)) == Set::<u32>::empty(),
{
    s.clear()
}

/// `BitSetLike::is_empty()`: whether the set holds no index.
#[verifier::external_body]
pub(crate) fn bitset_is_empty(s: &BitSet) -> (r: bool)
    ensures
        r == (bitset_members(*s) == Set::<u32>::empty()),
{
    s.is_empty()
}

/// `*s |= other` (`BitOrAssign<&BitSet>`): adds every index of `other`.
#[verifier::external_body]
pub(crate) fn bitset_union_with(s: &mut BitSet, other: &BitSet)
    ensures
        bitset_members(*final(s)) == bitset_members(*old(s)).union(bitset_members(*other)),
{
    *s |= other;
}

/// `BitSet::clone()`: a set with the same indices.
#[verifier::external_body]
pub(crate) fn bitset_clone(s: &BitSet) -> (r: BitSet)
    ensures
        bitset_members(r) == bitset_members(*s),
{
    s.clone()
}

/// `BitSetLike::iter()`, collected: the indices of the set in increasing
/// order.
#[verifier::external_body]
pub(crate) fn bitset_indices(s: &BitSet) -> (r: Vec<u32>)
    ensures
        r@.to_set() == bitset_members(*s),
        forall|i: int, j: int| 0 <= i < j < r@.len() ==> r@[i] < r@[j],
{
    s.iter().collect()
}

} // verus!
