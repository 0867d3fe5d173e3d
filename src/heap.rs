use vstd::prelude::*;

use crate::symbol::Symbol;

verus! {

/// A candidate symbol and its estimated gain.
#[derive(Clone, Copy, PartialEq, Eq, Structural, Debug)]
pub struct HeapPair(pub usize, pub Symbol);

/// The order of candidates: by gain, then by length, then by packed value.
pub open spec fn rank_le(a: HeapPair, b: HeapPair) -> bool {
    ||| a.0 < b.0
    ||| a.0 == b.0 && a.1.len < b.1.len
    ||| a.0 == b.0 && a.1.len == b.1.len && a.1.value <= b.1.value
}

impl HeapPair {
    /// The sort key: gain, length, packed value.
    pub fn rank(&self) -> (r: (usize, usize, u64))
        ensures
            r == (self.0, self.1.len, self.1.value),
    {
        (self.0, self.1.len, self.1.value)
    }
}

/// Relies on `slice::sort_unstable_by_key`: the items are permuted into
/// non-decreasing order of their keys, and tuples of integers compare
/// lexicographically.
#[verifier::external_body]
pub(crate) fn sort_by_rank(v: &mut Vec<HeapPair>)
    ensures
        final(v)@.len() == old(v)@.len(),
        final(v)@.to_multiset() == old(v)@.to_multiset(),
        forall|i: int, j: int|
            0 <= i < j < final(v)@.len() ==> rank_le(final(v)@[i], final(v)@[j]),
{
    v.sort_unstable_by_key(|p| p.rank());
}

} // verus!
