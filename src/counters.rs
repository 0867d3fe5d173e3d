use vstd::prelude::*;

verus! {

/// Number of single-byte base codes; learned codes follow them.
pub const TABLE_LENGTH: usize = 256;

pub const COUNTER1_LENGTH: usize = 512;

pub const COUNTER2_LENGTH: usize = 262144;

/// Whether bit `b` of `w` is set.
pub open spec fn bit_set(w: u64, b: int) -> bool {
    (w & (1u64 << (b as u64))) != 0
}

/// Unigram counts over the 512 codes and bigram counts over pairs of them.
/// A count is live only while its bit in the occupancy bitmap is set, so
/// clearing the bitmaps resets every count.
pub struct Counters {
    pub counter1: Vec<usize>,
    pub counter2: Vec<usize>,
    bitmap1: Vec<u64>,
    bitmap2: Vec<u64>,
}

/// Setting one bit of a word leaves the others as they were.
proof fn lemma_set_bit(w: u64, b: int, c: int)
    requires
        0 <= b < 64,
        0 <= c < 64,
    ensures
        bit_set(w | (1u64 << (b as u64)), c) == (bit_set(w, c) || b == c),
        !bit_set(0u64, c),
{
    let bb = b as u64;
    let cc = c as u64;
    assert(((w | (1u64 << bb)) & (1u64 << cc) != 0) == ((w & (1u64 << cc) != 0) || bb == cc))
        by (bit_vector)
        requires
            bb < 64,
            cc < 64,
    ;
    assert((0u64 & (1u64 << cc)) == 0) by (bit_vector);
}

impl Counters {
    pub closed spec fn wf(&self) -> bool {
        &&& self.counter1@.len() == COUNTER1_LENGTH
        &&& self.counter2@.len() == COUNTER2_LENGTH
        &&& self.bitmap1@.len() == COUNTER1_LENGTH / 64
        &&& self.bitmap2@.len() == COUNTER2_LENGTH / 64
    }

    /// The count of code `i`.
    pub closed spec fn count1(&self, i: int) -> nat {
        if bit_set(self.bitmap1@[i / 64], i % 64) {
            self.counter1@[i] as nat
        } else {
            0
        }
    }

    /// The count of code `j` directly following code `i`.
    pub closed spec fn count2(&self, i: int, j: int) -> nat {
        let idx = i * 512 + j;
        if bit_set(self.bitmap2@[idx as int / 64], idx as int % 64) {
            self.counter2@[idx] as nat
        } else {
            0
        }
    }

    /// Every count is zero.
    pub open spec fn all_zero(&self) -> bool {
        &&& forall|i: int| 0 <= i < 512 ==> #[trigger] self.count1(i) == 0
        &&& forall|i: int, j: int| 0 <= i < 512 && 0 <= j < 512 ==> #[trigger] self.count2(i, j) == 0
    }

    /// No count exceeds `b`.
    pub open spec fn bounded_by(&self, b: nat) -> bool {
        &&& forall|i: int| 0 <= i < 512 ==> #[trigger] self.count1(i) <= b
        &&& forall|i: int, j: int| 0 <= i < 512 && 0 <= j < 512 ==> #[trigger] self.count2(i, j) <= b
    }

    /// A bound on the counts holds of every larger number too.
    pub proof fn lemma_bounded_by_mono(&self, a: nat, b: nat)
        requires
            self.bounded_by(a),
            a <= b,
        ensures
            self.bounded_by(b),
    {
    }

    pub fn new() -> (r: Counters)
        ensures
            r.wf(),
            r.all_zero(),
    {
        let counter1: Vec<usize> = vec![0; COUNTER1_LENGTH];
        let counter2: Vec<usize> = vec![0; COUNTER2_LENGTH];
        let bitmap1: Vec<u64> = vec![0; COUNTER1_LENGTH / 64];
        let bitmap2: Vec<u64> = vec![0; COUNTER2_LENGTH / 64];
        let r = Counters { counter1, counter2, bitmap1, bitmap2 };
        proof {
            assert forall|i: int| 0 <= i < 512 implies #[trigger] r.count1(i) == 0 by {
                lemma_set_bit(0, 0, i % 64);
            }
            assert forall|i: int, j: int| 0 <= i < 512 && 0 <= j < 512 implies #[trigger] r.count2(
                i,
                j,
            ) == 0 by {
                lemma_set_bit(0, 0, (i * 512 + j) % 64);
            }
        }
        r
    }

    fn is_set_c1(&self, idx: usize) -> (r: bool)
        requires
            self.wf(),
            idx < COUNTER1_LENGTH,
        ensures
            r == bit_set(self.bitmap1@[idx as int / 64], idx as int % 64),
    {
        (self.bitmap1[idx / 64] & (1u64 << ((idx % 64) as u64))) != 0
    }

    fn set_c1(&mut self, idx: usize)
        requires
            old(self).wf(),
            idx < COUNTER1_LENGTH,
        ensures
            final(self).wf(),
            final(self).counter1 == old(self).counter1,
            final(self).counter2 == old(self).counter2,
            final(self).bitmap2 == old(self).bitmap2,
            forall|i: int|
                0 <= i < 512 ==> bit_set(#[trigger] final(self).bitmap1@[i / 64], i % 64) == (
                bit_set(old(self).bitmap1@[i / 64], i % 64) || i == idx),
    {
        let bucket = idx / 64;
        let w = self.bitmap1[bucket] | (1u64 << ((idx % 64) as u64));
        self.bitmap1.set(bucket, w);
        proof {
            assert forall|i: int| 0 <= i < 512 implies bit_set(
                #[trigger] self.bitmap1@[i / 64],
                i % 64,
            ) == (bit_set(old(self).bitmap1@[i / 64], i % 64) || i == idx) by {
                if i / 64 == bucket {
                    lemma_set_bit(old(self).bitmap1@[i / 64], idx as int % 64, i % 64);
                }
            }
        }
    }

    fn is_set_c2(&self, idx: usize) -> (r: bool)
        requires
            self.wf(),
            idx < COUNTER2_LENGTH,
        ensures
            r == bit_set(self.bitmap2@[idx as int / 64], idx as int % 64),
    {
        (self.bitmap2[idx / 64] & (1u64 << ((idx % 64) as u64))) != 0
    }

    fn set_c2(&mut self, idx: usize)
        requires
            old(self).wf(),
            idx < COUNTER2_LENGTH,
        ensures
            final(self).wf(),
            final(self).counter1 == old(self).counter1,
            final(self).counter2 == old(self).counter2,
            final(self).bitmap1 == old(self).bitmap1,
            forall|i: int|
                0 <= i < COUNTER2_LENGTH ==> bit_set(#[trigger] final(self).bitmap2@[i / 64], i % 64)
                    == (bit_set(old(self).bitmap2@[i / 64], i % 64) || i == idx),
    {
        let bucket = idx / 64;
        let w = self.bitmap2[bucket] | (1u64 << ((idx % 64) as u64));
        self.bitmap2.set(bucket, w);
        proof {
            assert forall|i: int| 0 <= i < COUNTER2_LENGTH implies bit_set(
                #[trigger] self.bitmap2@[i / 64],
                i % 64,
            ) == (bit_set(old(self).bitmap2@[i / 64], i % 64) || i == idx) by {
                if i / 64 == bucket {
                    lemma_set_bit(old(self).bitmap2@[i / 64], idx as int % 64, i % 64);
                }
            }
        }
    }

    /// Adds one to the count of code `idx`.
    pub fn incr_c1(&mut self, idx: usize)
        requires
            old(self).wf(),
            idx < COUNTER1_LENGTH,
            old(self).count1(idx as int) < usize::MAX,
        ensures
            final(self).wf(),
            forall|i: int|
                0 <= i < 512 ==> #[trigger] final(self).count1(i) == old(self).count1(i) + (if i
                    == idx {
                    1int
                } else {
                    0int
                }),
            forall|i: int, j: int|
                0 <= i < 512 && 0 <= j < 512 ==> #[trigger] final(self).count2(i, j) == old(
                    self,
                ).count2(i, j),
    {
        if self.is_set_c1(idx) {
            let c = self.counter1[idx];
            self.counter1.set(idx, c + 1);
        } else {
            self.counter1.set(idx, 1);
            self.set_c1(idx);
        }
        proof {
            assert forall|i: int| 0 <= i < 512 implies #[trigger] self.count1(i) == old(
                self,
            ).count1(i) + (if i == idx {
                1int
            } else {
                0int
            }) by {
                assert(bit_set(self.bitmap1@[i / 64], i % 64) == (bit_set(
                    old(self).bitmap1@[i / 64],
                    i % 64,
                ) || i == idx));
            }
            assert forall|i: int, j: int| 0 <= i < 512 && 0 <= j < 512 implies #[trigger] self.count2(
                i,
                j,
            ) == old(self).count2(i, j) by {}
        }
    }

    /// Adds one to the count of code `idx2` following code `idx1`.
    pub fn incr_c2(&mut self, idx1: usize, idx2: usize)
        requires
            old(self).wf(),
            idx1 < COUNTER1_LENGTH,
            idx2 < COUNTER1_LENGTH,
            old(self).count2(idx1 as int, idx2 as int) < usize::MAX,
        ensures
            final(self).wf(),
            forall|i: int| 0 <= i < 512 ==> #[trigger] final(self).count1(i) == old(self).count1(i),
            forall|i: int, j: int|
                0 <= i < 512 && 0 <= j < 512 ==> #[trigger] final(self).count2(i, j) == old(
                    self,
                ).count2(i, j) + (if i == idx1 && j == idx2 {
                    1int
                } else {
                    0int
                }),
    {
        let idx = idx1 * COUNTER1_LENGTH + idx2;
        if self.is_set_c2(idx) {
            let c = self.counter2[idx];
            self.counter2.set(idx, c + 1);
        } else {
            self.counter2.set(idx, 1);
            self.set_c2(idx);
        }
        proof {
            assert forall|i: int| 0 <= i < 512 implies #[trigger] self.count1(i) == old(
                self,
            ).count1(i) by {}
            assert forall|i: int, j: int| 0 <= i < 512 && 0 <= j < 512 implies #[trigger] self.count2(
                i,
                j,
            ) == old(self).count2(i, j) + (if i == idx1 && j == idx2 {
                1int
            } else {
                0int
            }) by {
                let k = i * 512 + j;
                assert(0 <= k < COUNTER2_LENGTH);
                assert(k == idx <==> (i == idx1 && j == idx2));
                assert(bit_set(self.bitmap2@[k / 64], k % 64) == (bit_set(
                    old(self).bitmap2@[k / 64],
                    k % 64,
                ) || k == idx));
            }
        }
    }

    /// The count of code `idx`.
    pub fn get_from_c1(&self, idx: usize) -> (r: usize)
        requires
            self.wf(),
            idx < COUNTER1_LENGTH,
        ensures
            r == self.count1(idx as int),
    {
        if self.is_set_c1(idx) {
            self.counter1[idx]
        } else {
            0
        }
    }

    /// The count of code `idx2` following code `idx1`.
    pub fn get_from_c2(&self, idx1: usize, idx2: usize) -> (r: usize)
        requires
            self.wf(),
            idx1 < COUNTER1_LENGTH,
            idx2 < COUNTER1_LENGTH,
        ensures
            r == self.count2(idx1 as int, idx2 as int),
    {
        let idx = idx1 * COUNTER1_LENGTH + idx2;
        if self.is_set_c2(idx) {
            self.counter2[idx]
        } else {
            0
        }
    }

    /// Resets every count to zero by clearing the bitmaps.
    pub fn clear(&mut self)
        requires
            old(self).wf(),
        ensures
            final(self).wf(),
            final(self).all_zero(),
    {
        let mut i: usize = 0;
        while i < self.bitmap1.len()
            invariant
                self.wf(),
                forall|k: int| 0 <= k < i ==> self.bitmap1@[k] == 0,
            decreases self.bitmap1@.len() - i,
        {
            self.bitmap1.set(i, 0);
            i = i + 1;
        }
        let mut i: usize = 0;
        while i < self.bitmap2.len()
            invariant
                self.wf(),
                forall|k: int| 0 <= k < i ==> self.bitmap2@[k] == 0,
                forall|k: int| 0 <= k < COUNTER1_LENGTH / 64 ==> self.bitmap1@[k] == 0,
            decreases self.bitmap2@.len() - i,
        {
            self.bitmap2.set(i, 0);
            i = i + 1;
        }
        proof {
            assert forall|i: int| 0 <= i < 512 implies #[trigger] self.count1(i) == 0 by {
                lemma_set_bit(0, 0, i % 64);
            }
            assert forall|i: int, j: int| 0 <= i < 512 && 0 <= j < 512 implies #[trigger] self.count2(
                i,
                j,
            ) == 0 by {
                lemma_set_bit(0, 0, (i * 512 + j) % 64);
            }
        }
    }
}

} // verus!
