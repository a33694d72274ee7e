//! A table of network evaluations by position hash.
//!
//! The table has one slot for each residue of the hash, and the newest evaluation takes
//! the slot. Numbers are held as the 32 bits of their representation. Threads that use
//! one table share it under a lock.

use vstd::arithmetic::power2::{
    lemma2_to64, lemma2_to64_rest, lemma_pow2_pos, lemma_pow2_strictly_increases, lemma_pow2_unfold,
    pow2,
};
use vstd::bits::{lemma_usize_low_bits_mask_is_mod, low_bits_mask};
use vstd::prelude::*;

verus! {

/// What a network said of a position: the bits of the value and of the policy.
pub struct TTNodeData {
    pub value: u32,
    pub policy: Vec<u32>,
}

impl View for TTNodeData {
    type V = (u32, Seq<u32>);

    open spec fn view(&self) -> (u32, Seq<u32>) {
        (self.value, self.policy@)
    }
}

pub struct TTEntry {
    pub key: u64,
    pub data: Option<TTNodeData>,
}

pub struct TranspositionTable {
    pub entries: Vec<TTEntry>,
    pub mask: usize,
}

/// What one entry is taken to cost, in bytes, without its policy.
pub const ENTRY_SIZE: usize = 24;

/// The least power of two that is at least `n`.
pub open spec fn is_next_power_of_two(n: int, p: int) -> bool {
    exists|k: nat| #[trigger] pow2(k) == p && p >= n && (k == 0 || 2 * n > p)
}

/// The number of slots for a table of that many megabytes: half the power of two that
/// the entries round up to.
pub open spec fn is_slot_count(size_mb: int, slots: int) -> bool {
    exists|p: int| #[trigger]
        is_next_power_of_two(size_mb * 1048576 / (ENTRY_SIZE as int), p) && slots == p / 2
}

/// A power of two that fits in a `usize` has an exponent below its width.
proof fn lemma_exponent_fits(k: nat)
    requires
        pow2(k) <= usize::MAX,
    ensures
        k < usize::BITS,
{
    lemma2_to64();
    lemma2_to64_rest();
    if k >= usize::BITS {
        if k > usize::BITS {
            lemma_pow2_strictly_increases(usize::BITS as nat, k);
        }
        assert(pow2(usize::BITS as nat) > usize::MAX);
    }
}

/// Rounds up to a power of two.
fn next_power_of_two(n: usize) -> (p: usize)
    requires
        2 * n <= usize::MAX,
    ensures
        is_next_power_of_two(n as int, p as int),
        p >= 1,
{
    let mut p: usize = 1;
    let ghost mut k: nat = 0;
    proof {
        lemma2_to64();
    }
    while p < n
        invariant
            2 * n <= usize::MAX,
            p == pow2(k),
            p >= 1,
            k == 0 || 2 * n > p,
        decreases 2 * n - p,
    {
        proof {
            lemma_pow2_unfold(k + 1);
            k = k + 1;
        }
        p = p * 2;
    }
    assert(pow2(k) == p && p >= n && (k == 0 || 2 * n > p));
    p
}

/// Half a power of two is one, unless it is 1.
proof fn lemma_half_is_power_of_two(n: int, p: int)
    requires
        is_next_power_of_two(n, p),
        p > 1,
    ensures
        exists|k: nat| #[trigger] pow2(k) == p / 2,
{
    let k = choose|k: nat| #[trigger] pow2(k) == p && p >= n && (k == 0 || 2 * n > p);
    lemma2_to64();
    lemma_pow2_unfold(k);
    assert(pow2((k - 1) as nat) == p / 2);
}

impl TranspositionTable {
    /// There is one slot for each value of the mask, a power of two of them.
    pub open spec fn wf(&self) -> bool {
        &&& self.entries@.len() == self.mask + 1
        &&& exists|k: nat| #[trigger] pow2(k) == self.entries@.len()
    }

    /// The slot of a key.
    pub open spec fn slot(&self, key: u64) -> int {
        (key as usize) as int % (self.entries@.len() as int)
    }

    /// What the table holds under a key.
    pub open spec fn lookup(&self, key: u64) -> Option<(u32, Seq<u32>)> {
        let entry = self.entries@[self.slot(key)];
        if entry.key == key {
            match entry.data {
                Some(data) => Some(data@),
                None => None,
            }
        } else {
            None
        }
    }

    /// Makes an empty table that takes at most that many megabytes. A table without a
    /// slot cannot be made.
    pub fn new(size_mb: usize) -> (table: Self)
        requires
            size_mb * 1048576 <= usize::MAX,
            size_mb >= 1,
        ensures
            table.wf(),
            is_slot_count(size_mb as int, table.entries@.len() as int),
            forall|i: int|
                0 <= i < table.entries@.len() ==> (#[trigger] table.entries@[i]).key == 0
                    && table.entries@[i].data is None,
    {
        let num_entries = (size_mb * 1024 * 1024) / ENTRY_SIZE;
        let rounded = next_power_of_two(num_entries);
        let power_of_2 = rounded / 2;
        let mut entries: Vec<TTEntry> = Vec::with_capacity(power_of_2);
        let mut i: usize = 0;
        while i < power_of_2
            invariant
                i <= power_of_2,
                entries@.len() == i,
                forall|j: int|
                    0 <= j < i ==> (#[trigger] entries@[j]).key == 0 && entries@[j].data is None,
            decreases power_of_2 - i,
        {
            entries.push(TTEntry { key: 0, data: None });
            i += 1;
        }
        proof {
            assert(num_entries == size_mb * 1048576 / (ENTRY_SIZE as int));
            assert(num_entries >= 2);
            lemma_half_is_power_of_two(num_entries as int, rounded as int);
        }
        TranspositionTable { entries, mask: power_of_2 - 1 }
    }

    fn index_of(&self, key: u64) -> (index: usize)
        requires
            self.wf(),
        ensures
            index == self.slot(key),
            index < self.entries@.len(),
    {
        let k_usize = key as usize;
        let mask = self.mask;
        proof {
            let k = choose|k: nat| #[trigger] pow2(k) == self.entries@.len();
            assert(self.entries.len() == self.entries@.len());
            lemma_exponent_fits(k);
            lemma_usize_low_bits_mask_is_mod(k_usize, k);
            lemma_pow2_pos(k);
            assert(mask == low_bits_mask(k));
            assert(k_usize % (pow2(k) as usize) == k_usize as int % pow2(k) as int);
        }
        k_usize & mask
    }

    /// Looks up what was recorded under a key.
    pub fn probe(&self, key: u64) -> (found: Option<&TTNodeData>)
        requires
            self.wf(),
        ensures
            match found {
                Some(data) => self.lookup(key) == Some(data@),
                None => self.lookup(key) is None,
            },
    {
        let index = self.index_of(key);
        let entry = &self.entries[index];
        if entry.key == key {
            match &entry.data {
                Some(data) => Some(data),
                None => None,
            }
        } else {
            None
        }
    }

    /// Records an evaluation; what stood in its slot is gone.
    pub fn record(&mut self, key: u64, value: u32, policy: Vec<u32>)
        requires
            old(self).wf(),
        ensures
            final(self).wf(),
            final(self).mask == old(self).mask,
            final(self).entries@.len() == old(self).entries@.len(),
            final(self).lookup(key) == Some((value, policy@)),
            forall|other: u64|
                old(self).slot(other) != old(self).slot(key) ==> #[trigger] final(self).lookup(
                    other,
                ) == old(self).lookup(other),
            forall|other: u64|
                other != key && old(self).slot(other) == old(self).slot(key)
                    ==> #[trigger] final(self).lookup(other) is None,
    {
        let index = self.index_of(key);
        self.entries.set(index, TTEntry { key, data: Some(TTNodeData { value, policy }) });
    }
}

/// A table takes no more than the megabytes it was given and, were it twice as large, would hold
/// every entry that fits in them.
pub proof fn law_a_table_fits_its_size(size_mb: int, slots: int)
    requires
        size_mb >= 1,
        is_slot_count(size_mb, slots),
    ensures
        24 * slots <= size_mb * 1048576,
        24 * (2 * slots + 1) > size_mb * 1048576,
        exists|k: nat| #[trigger] pow2(k) == slots,
{
    let n = size_mb * 1048576 / (ENTRY_SIZE as int);
    let p = choose|p: int| #[trigger] is_next_power_of_two(n, p) && slots == p / 2;
    let k = choose|k: nat| #[trigger] pow2(k) == p && p >= n && (k == 0 || 2 * n > p);
    lemma2_to64();
    lemma_half_is_power_of_two(n, p);
    if k > 0 {
        lemma_pow2_unfold(k);
    }
}

} // verus!
