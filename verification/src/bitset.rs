//! The contracts under which the library uses `hibitset::BitSet`.
//!
//! The contracts of the bit set are not proved: they state what the library
//! believes of the bit set implementation.

use hibitset::BitSet;
use vstd::prelude::*;

verus! {

/// `hibitset::BitSet`, a set of `u32` indices. Its layers stay hidden; the
/// library speaks of a bit set only through [`bitset_indices`].
#[verifier::external_type_specification]
#[verifier::external_body]
pub struct ExBitSet(BitSet);

/// The indices that a bit set holds.
pub uninterp spec fn bitset_indices(set: BitSet) -> Set<u32>;

/// The number of indices a bit set has room for: one machine word of bits on
/// each of its four layers.
pub open spec fn index_limit() -> nat {
    if usize::BITS == 64 {
        0x100_0000
    } else {
        0x10_0000
    }
}

/// `BitSet::new` returns a bit set that holds no index.
pub assume_specification[ BitSet::new ]() -> (set: BitSet)
    ensures
        bitset_indices(set) == Set::<u32>::empty(),
;

/// `BitSet::add` puts `id` into the set and leaves every other index as it
/// was; it returns whether `id` was in the set before. An index at or beyond
/// the limit makes it panic or corrupts the upper layers, so such an index is
/// not admitted.
pub assume_specification[ BitSet::add ](set: &mut BitSet, id: u32) -> (present: bool)
    requires
        id < index_limit(),
    ensures
        bitset_indices(*final(set)) == bitset_indices(*old(set)).insert(id),
        present == bitset_indices(*old(set)).contains(id),
;

/// `BitSet::contains` tells whether `id` is in the set; it reads the bottom
/// layer only and answers `false` for an index beyond what was allocated.
pub assume_specification[ BitSet::contains ](set: &BitSet, id: u32) -> (present: bool)
    ensures
        present == bitset_indices(*set).contains(id),
;

/// The limit of [`index_limit`] as a machine integer.
pub fn max_index() -> (limit: u32)
    ensures
        limit == index_limit(),
{
    if usize::BITS == 64 {
        0x100_0000
    } else {
        0x10_0000
    }
}

} // verus!
