//! Trusted boundary to the two outside bit-set crates.
//!
//! The per-vertex adjacency sets are `hibitset::BitSet` values and the
//! depth-first traversal's visited set is a `bit_set::BitSet`; both types are
//! opaque to the verifier, so each is declared here together with an
//! uninterpreted name for its contents, and every method the library calls
//! is reached through a wrapper whose contract states what the crate's own
//! source shows.

use vstd::prelude::*;

use hibitset::BitSetLike;
use hibitset::DrainableBitSet;

use crate::MAX_CAPACITY;

verus! {

#[verifier::external_type_specification]
#[verifier::external_body]
pub struct ExAdjacencyBits(hibitset::BitSet);

/// The set of indices currently held by a `hibitset::BitSet`.
pub uninterp spec fn bits_view(b: hibitset::BitSet) -> Set<u32>;

/// A growable set of `usize` indices, held in a `bit_set::BitSet`.
///
/// The verifier refuses a declaration of `bit_set::BitSet` itself (its type
/// parameter is bounded by an outside trait), so the value lives in a hidden
/// field and is reached only through the wrappers below.
#[verifier::external_body]
pub struct VisitedBits {
    inner: bit_set::BitSet,
}

/// The set of indices currently held by a `VisitedBits`.
pub uninterp spec fn visited_view(b: VisitedBits) -> Set<usize>;

/// Relies on `hibitset::BitSet::with_capacity`: returns an empty set,
/// preallocated for indices below `max`; it panics only above the crate's
/// index ceiling of `usize::BITS` to the fourth power, far above
/// `MAX_CAPACITY`.
#[verifier::external_body]
pub(crate) fn bits_new(max: u32) -> (b: hibitset::BitSet)
    requires
        max <= MAX_CAPACITY,
    ensures
        bits_view(b) == Set::<u32>::empty(),
{
    hibitset::BitSet::with_capacity(max)
}

/// Relies on `hibitset::BitSet::add`: sets bit `id` in `data[i]` and returns
/// whether it was already set; it panics only above the crate's index
/// ceiling, far above `MAX_CAPACITY`.
#[verifier::external_body]
pub(crate) fn bits_add_at(data: &mut Vec<hibitset::BitSet>, i: usize, id: u32) -> (r: bool)
    requires
        i < old(data).len(),
        id <= MAX_CAPACITY,
    ensures
        final(data)@.len() == old(data)@.len(),
        r == bits_view(old(data)@[i as int]).contains(id),
        bits_view(final(data)@[i as int]) == bits_view(old(data)@[i as int]).insert(id),
        forall|j: int| 0 <= j < old(data)@.len() && j != i ==> final(data)@[j] == old(data)@[j],
{
    data[i].add(id)
}

/// Relies on `hibitset::BitSet::remove`: clears bit `id` in `data[i]` and
/// returns whether it was set; it never panics.
#[verifier::external_body]
pub(crate) fn bits_remove_at(data: &mut Vec<hibitset::BitSet>, i: usize, id: u32) -> (r: bool)
    requires
        i < old(data).len(),
    ensures
        final(data)@.len() == old(data)@.len(),
        r == bits_view(old(data)@[i as int]).contains(id),
        bits_view(final(data)@[i as int]) == bits_view(old(data)@[i as int]).remove(id),
        forall|j: int| 0 <= j < old(data)@.len() && j != i ==> final(data)@[j] == old(data)@[j],
{
    data[i].remove(id)
}

/// Relies on `hibitset::BitSet::contains`: membership test for bit `id`.
#[verifier::external_body]
pub(crate) fn bits_contains(b: &hibitset::BitSet, id: u32) -> (r: bool)
    ensures
        r == bits_view(*b).contains(id),
{
    b.contains(id)
}

/// Relies on `hibitset::BitSetLike::iter`: yields each set bit exactly once,
/// in ascending order.
#[verifier::external_body]
pub(crate) fn bits_list(b: &hibitset::BitSet) -> (r: Vec<u32>)
    ensures
        forall|k1: int, k2: int| 0 <= k1 < k2 < r@.len() ==> r@[k1] < r@[k2],
        forall|k: int| 0 <= k < r@.len() ==> bits_view(*b).contains(r@[k]),
        forall|x: u32| bits_view(*b).contains(x) ==> r@.contains(x),
{
    b.iter().collect()
}

/// Relies on `hibitset::DrainableBitSet::drain`: yields each set bit of
/// `data[i]` exactly once, in ascending order, removing each, so that the
/// set is empty afterwards.
#[verifier::external_body]
pub(crate) fn bits_drain_at(data: &mut Vec<hibitset::BitSet>, i: usize) -> (r: Vec<u32>)
    requires
        i < old(data).len(),
    ensures
        final(data)@.len() == old(data)@.len(),
        forall|k1: int, k2: int| 0 <= k1 < k2 < r@.len() ==> r@[k1] < r@[k2],
        forall|k: int| 0 <= k < r@.len() ==> bits_view(old(data)@[i as int]).contains(r@[k]),
        forall|x: u32| bits_view(old(data)@[i as int]).contains(x) ==> r@.contains(x),
        bits_view(final(data)@[i as int]) == Set::<u32>::empty(),
        forall|j: int| 0 <= j < old(data)@.len() && j != i ==> final(data)@[j] == old(data)@[j],
{
    data[i].drain().collect()
}

/// Relies on `bit_set::BitSet::with_capacity`: returns an empty set with room
/// for indices below `nbits`; later insertions may grow it.
#[verifier::external_body]
pub(crate) fn visited_new(nbits: usize) -> (b: VisitedBits)
    ensures
        visited_view(b) == Set::<usize>::empty(),
{
    VisitedBits { inner: bit_set::BitSet::with_capacity(nbits) }
}

/// Relies on `bit_set::BitSet::insert`: adds `v`, growing the set as needed,
/// and returns whether `v` was newly added. The bound on `v` keeps the
/// growth small; the library only inserts vertex indices, which stay below
/// `MAX_CAPACITY`.
#[verifier::external_body]
pub(crate) fn visited_insert(b: &mut VisitedBits, v: usize) -> (r: bool)
    requires
        v <= MAX_CAPACITY,
    ensures
        visited_view(*final(b)) == visited_view(*old(b)).insert(v),
        r == !visited_view(*old(b)).contains(v),
{
    b.inner.insert(v)
}

/// Relies on `bit_set::BitSet::contains`: membership test for `v`.
#[verifier::external_body]
pub(crate) fn visited_contains(b: &VisitedBits, v: usize) -> (r: bool)
    ensures
        r == visited_view(*b).contains(v),
{
    b.inner.contains(v)
}

} // verus!
