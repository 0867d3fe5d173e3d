use vstd::prelude::*;

verus! {

/// Number of slots of the hashed tier.
pub const HASH_TABLE_SIZE: usize = 2048;

/// A slot: the code stored there, and whether the slot is taken.
#[derive(Clone, Copy, Debug)]
pub struct TableEntry {
    pub val: usize,
    pub used: bool,
}

/// The entry of a free slot.
pub open spec fn empty_entry() -> TableEntry {
    TableEntry { val: 0, used: false }
}

/// A fixed-size map from three-byte keys to codes with one slot per hash
/// value and no collision handling: an insert into a taken slot is refused.
pub struct LossyPHS {
    pub table: [TableEntry; HASH_TABLE_SIZE],
}

/// The multiplicative hash of a key (wrapping multiply, xor with the key
/// shifted right by 15).
pub open spec fn hash_spec(value: u64) -> u64 {
    (((value as nat * 2971215073nat) % 0x1_0000_0000_0000_0000nat) as u64) ^ (value >> 15u64)
}

/// The slot that a key is stored in.
pub open spec fn slot_of(key: u64) -> int {
    (hash_spec(key) & 2047u64) as int
}

/// Every key has a slot of the table.
pub proof fn lemma_slot_in_range(key: u64)
    ensures
        0 <= slot_of(key) < HASH_TABLE_SIZE,
{
    let h = hash_spec(key);
    assert(h & 2047u64 < 2048) by (bit_vector);
}

pub fn hash(value: u64) -> (r: u64)
    ensures
        r == hash_spec(value),
{
    value.wrapping_mul(2971215073) ^ value.wrapping_shr(15)
}

fn slot_index(key: u64) -> (r: usize)
    ensures
        r == slot_of(key),
        r < HASH_TABLE_SIZE,
{
    let h = hash(key);
    proof {
        assert(h & 2047u64 < 2048) by (bit_vector);
    }
    (h & 2047u64) as usize
}

impl LossyPHS {
    pub fn new() -> (r: LossyPHS)
        ensures
            r.table@.len() == HASH_TABLE_SIZE,
            forall|i: int| 0 <= i < HASH_TABLE_SIZE ==> r.table@[i] == empty_entry(),
    {
        let table = [TableEntry { val: 0, used: false };HASH_TABLE_SIZE];
        proof {
            broadcast use vstd::array::group_array_axioms;

            assert(table@.len() == HASH_TABLE_SIZE);
        }
        LossyPHS { table }
    }

    /// Stores `code` under `entry` when its slot is free; returns whether it
    /// was stored.
    pub fn add(&mut self, entry: u64, code: usize) -> (r: bool)
        ensures
            r == !old(self).table@[slot_of(entry)].used,
            r ==> final(self).table@ == old(self).table@.update(
                slot_of(entry),
                TableEntry { val: code, used: true },
            ),
            !r ==> final(self).table@ == old(self).table@,
    {
        let idx = slot_index(entry);
        if self.table[idx].used {
            false
        } else {
            self.table[idx] = TableEntry { val: code, used: true };
            true
        }
    }

    /// The slot that `entry` hashes to, taken or not.
    pub fn get(&self, entry: u64) -> (r: TableEntry)
        ensures
            r == self.table@[slot_of(entry)],
    {
        let idx = slot_index(entry);
        self.table[idx]
    }

    /// Frees the slot that `entry` hashes to.
    pub fn remove(&mut self, entry: u64)
        ensures
            final(self).table@ == old(self).table@.update(slot_of(entry), empty_entry()),
    {
        let idx = slot_index(entry);
        self.table[idx] = TableEntry { val: 0, used: false };
    }
}

} // verus!
