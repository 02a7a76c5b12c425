//! Descriptor of a buddy-system free list.
//!
//! The descriptor only holds the data; which units are occupied is read
//! from and written to its bit vector with the operations of `bitmap`.

use crate::bitmap::BitMap;
use vstd::prelude::*;

verus! {

/// First free unit, number of usable units, and the bit vector that
/// marks the occupied ones.
#[derive(Clone, Debug)]
pub struct Buddy {
    pub first_free_idx: usize,
    pub usable: usize,
    pub bitmap: BitMap,
}

/// The sibling of block `idx` at the same split level: the index with its
/// lowest bit flipped.
pub open spec fn spec_buddy_idx(idx: int) -> int {
    if idx % 2 == 0 {
        idx + 1
    } else {
        idx - 1
    }
}

/// Index of the buddy of block `idx`: `idx ^ 1`.
pub fn buddy_idx(idx: usize) -> (buddy: usize)
    ensures
        buddy == idx ^ 1,
        buddy == spec_buddy_idx(idx as int),
{
    assert(idx ^ 1 == (if idx % 2 == 0 {
        (idx + 1) as usize
    } else {
        (idx - 1) as usize
    })) by (bit_vector);
    assert(usize::MAX % 2 == 1) by {
        assert(usize::MAX == 0xFFFF_FFFF || usize::MAX == 0xFFFF_FFFF_FFFF_FFFF);
    }
    idx ^ 1
}

/// A block is the buddy of its buddy, and never its own.
pub proof fn lemma_buddy_is_mutual(idx: int)
    ensures
        spec_buddy_idx(spec_buddy_idx(idx)) == idx,
        spec_buddy_idx(idx) != idx,
{
}

} // verus!
