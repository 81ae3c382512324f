//! Bloom filter for approximate set membership.
//!
//! A Bloom filter can return false positives, but never false negatives.
use crate::hashing::{seeded_hash, seeded_hash64, SketchKey};
use crate::SketchError;
use vstd::prelude::*;

verus! {

pub const HASH_SEED_A: u64 = 0x243F_6A88_85A3_08D3;

pub const HASH_SEED_B: u64 = 0x1319_8A2E_0370_7344;

/// Numerator of the rational approximation of ln 2 used for sizing.
pub const LN2_NUM: u128 = 693_147_180_559_945_309;

/// Denominator of the rational approximation of ln 2 used for sizing.
pub const LN2_DEN: u128 = 1_000_000_000_000_000_000;

/// First hash of the double-hashing scheme.
pub open spec fn first_hash(key: Seq<u8>) -> u64 {
    seeded_hash(key, HASH_SEED_A)
}

/// Second hash of the double-hashing scheme, forced odd.
pub open spec fn second_hash(key: Seq<u8>) -> u64 {
    seeded_hash(key, HASH_SEED_B) | 1u64
}

/// The `i`-th probe value `h1 + i * h2` (wrapping).
pub open spec fn probe_value(h1: u64, h2: u64, i: nat) -> u64
    decreases i,
{
    if i == 0 {
        h1
    } else {
        probe_value(h1, h2, (i - 1) as nat).wrapping_add(h2)
    }
}

/// The bit addressed by the `i`-th probe of an item in a filter of `m` bits.
pub open spec fn probe_bit(key: Seq<u8>, i: nat, m: nat) -> nat {
    (probe_value(first_hash(key), second_hash(key), i) as nat) % m
}

/// Whether bit `b` of word `w` is set.
pub open spec fn word_bit(w: u64, b: nat) -> bool {
    (w >> (b as u64)) & 1u64 == 1u64
}

/// `round(m / n * ln 2)`, at least one, saturating at `u32::MAX`.
pub open spec fn optimal_hash_count(m: nat, n: nat) -> u32 {
    let k = (m * LN2_NUM + n * LN2_DEN / 2) / (n * LN2_DEN);
    if k < 1 {
        1u32
    } else if k > u32::MAX {
        u32::MAX
    } else {
        k as u32
    }
}

proof fn lemma_set_bit(w: u64, b: u64, c: u64)
    requires
        b < 64,
        c < 64,
    ensures
        ((w | (1u64 << b)) >> c) & 1u64 == 1u64 <==> (c == b || (w >> c) & 1u64 == 1u64),
{
    assert(((w | (1u64 << b)) >> c) & 1u64 == 1u64 <==> (c == b || (w >> c) & 1u64 == 1u64))
        by (bit_vector)
        requires
            b < 64,
            c < 64,
    ;
}

proof fn lemma_or_bit(x: u64, y: u64, c: u64)
    requires
        c < 64,
    ensures
        ((x | y) >> c) & 1u64 == 1u64 <==> ((x >> c) & 1u64 == 1u64 || (y >> c) & 1u64 == 1u64),
{
    assert(((x | y) >> c) & 1u64 == 1u64 <==> ((x >> c) & 1u64 == 1u64 || (y >> c) & 1u64
        == 1u64)) by (bit_vector)
        requires
            c < 64,
    ;
}

proof fn lemma_zero_bit(c: u64)
    ensures
        (0u64 >> c) & 1u64 != 1u64,
{
    assert((0u64 >> c) & 1u64 != 1u64) by (bit_vector);
}

/// Probabilistic set-membership filter.
#[derive(Debug, Clone)]
pub struct BloomFilter {
    bit_len: usize,
    words: Vec<u64>,
    num_hashes: u32,
    inserted_items: u64,
}

impl BloomFilter {
    pub closed spec fn spec_bit_len(&self) -> nat {
        self.bit_len as nat
    }

    pub closed spec fn spec_num_hashes(&self) -> nat {
        self.num_hashes as nat
    }

    pub closed spec fn spec_inserted_items(&self) -> u64 {
        self.inserted_items
    }

    /// Validity: at least one bit and one probe.
    pub open spec fn wf(&self) -> bool {
        &&& self.spec_bit_len() > 0
        &&& self.spec_num_hashes() > 0
        &&& self.inner_wf()
    }

    pub closed spec fn inner_wf(&self) -> bool {
        &&& self.bit_len > 0
        &&& self.num_hashes > 0
        &&& self.words@.len() == (self.bit_len as int + 63) / 64
    }

    /// Whether bit `j` of the bitmap is set.
    pub closed spec fn bit_set(&self, j: nat) -> bool {
        word_bit(self.words@[(j / 64) as int], j % 64)
    }

    /// The set of bits that are set.
    pub open spec fn bits(&self) -> Set<nat> {
        Set::new(|j: nat| j < self.spec_bit_len() && self.bit_set(j))
    }

    /// The bits probed for an item with encoding `key`.
    pub open spec fn probes(&self, key: Seq<u8>) -> Set<nat> {
        Set::new(
            |j: nat|
                exists|i: nat|
                    i < self.spec_num_hashes() && j == #[trigger] probe_bit(key, i, self.spec_bit_len()),
        )
    }

    /// Whether the filter reports an item with encoding `key` as possibly present.
    pub open spec fn reports(&self, key: Seq<u8>) -> bool {
        forall|i: nat|
            i < self.spec_num_hashes() ==> #[trigger] self.bits().contains(
                probe_bit(key, i, self.spec_bit_len()),
            )
    }

    /// Creates a Bloom filter from explicit bit length and hash count.
    pub fn with_size(bit_len: usize, num_hashes: u32) -> (r: Result<Self, SketchError>)
        ensures
            bit_len == 0 ==> r matches Err(SketchError::InvalidParameter(_)),
            bit_len > 0 && num_hashes == 0 ==> r matches Err(SketchError::InvalidParameter(_)),
            bit_len > 0 && num_hashes > 0 ==> (r matches Ok(f) && f.wf() && f.spec_bit_len()
                == bit_len && f.spec_num_hashes() == num_hashes && f.spec_inserted_items() == 0
                && f.bits() == Set::<nat>::empty()),
    {
        if bit_len == 0 {
            return Err(SketchError::InvalidParameter("bit_len must be greater than zero"));
        }
        if num_hashes == 0 {
            return Err(SketchError::InvalidParameter("num_hashes must be greater than zero"));
        }
        let word_len = (bit_len - 1) / 64 + 1;
        let f = BloomFilter { bit_len, words: vec![0u64; word_len], num_hashes, inserted_items: 0 };
        proof {
            assert forall|j: nat| #[trigger] f.bits().contains(j) implies false by {
                lemma_zero_bit((j % 64) as u64);
            }
            assert(f.bits() =~= Set::<nat>::empty());
        }
        Ok(f)
    }

    /// Returns the recommended number of hash functions, `round(m / n * ln 2)`.
    pub fn optimal_num_hashes(bit_len: usize, expected_items: usize) -> (r: Result<
        u32,
        SketchError,
    >)
        ensures
            bit_len == 0 ==> r matches Err(SketchError::InvalidParameter(_)),
            bit_len > 0 && expected_items == 0 ==> r matches Err(
                SketchError::InvalidParameter(_),
            ),
            bit_len > 0 && expected_items > 0 ==> r == Ok::<u32, SketchError>(
                optimal_hash_count(bit_len as nat, expected_items as nat),
            ),
    {
        if bit_len == 0 {
            return Err(SketchError::InvalidParameter("bit_len must be greater than zero"));
        }
        if expected_items == 0 {
            return Err(SketchError::InvalidParameter("expected_items must be greater than zero"));
        }
        let m = bit_len as u128;
        let n = expected_items as u128;
        proof {
            assert(m * LN2_NUM <= 0xffff_ffff_ffff_ffffu128 * LN2_NUM) by (nonlinear_arith)
                requires m <= 0xffff_ffff_ffff_ffffu128;
            assert(n * LN2_DEN <= 0xffff_ffff_ffff_ffffu128 * LN2_DEN) by (nonlinear_arith)
                requires n <= 0xffff_ffff_ffff_ffffu128;
            assert(n * LN2_DEN >= LN2_DEN) by (nonlinear_arith)
                requires n >= 1;
        }
        let k = (m * LN2_NUM + n * LN2_DEN / 2) / (n * LN2_DEN);
        if k < 1 {
            Ok(1)
        } else if k > u32::MAX as u128 {
            Ok(u32::MAX)
        } else {
            Ok(k as u32)
        }
    }

    /// Returns the number of addressable bits.
    pub fn bit_len(&self) -> (r: usize)
        ensures
            r == self.spec_bit_len(),
    {
        self.bit_len
    }

    /// Returns the configured number of hash probes per inserted key.
    pub fn num_hashes(&self) -> (r: u32)
        ensures
            r == self.spec_num_hashes(),
    {
        self.num_hashes
    }

    /// Returns the number of insert operations applied (saturating counter).
    pub fn inserted_items(&self) -> (r: u64)
        ensures
            r == self.spec_inserted_items(),
    {
        self.inserted_items
    }

    /// Returns `true` if no item has been inserted.
    pub fn is_empty(&self) -> (r: bool)
        ensures
            r == (self.spec_inserted_items() == 0),
    {
        self.inserted_items == 0
    }

    /// The two hashes of Kirsch-Mitzenmacher double hashing.
    fn hash_pair<T: SketchKey + ?Sized>(item: &T) -> (r: (u64, u64))
        ensures
            r.0 == first_hash(item.key()),
            r.1 == second_hash(item.key()),
    {
        let first = seeded_hash64(item, HASH_SEED_A);
        let second = seeded_hash64(item, HASH_SEED_B) | 1u64;
        (first, second)
    }

    /// Sets one bit in the backing bitmap.
    fn set_bit(&mut self, bit_index: usize)
        requires
            old(self).wf(),
            bit_index < old(self).spec_bit_len(),
        ensures
            final(self).wf(),
            final(self).spec_bit_len() == old(self).spec_bit_len(),
            final(self).spec_num_hashes() == old(self).spec_num_hashes(),
            final(self).spec_inserted_items() == old(self).spec_inserted_items(),
            final(self).bits() == old(self).bits().insert(bit_index as nat),
    {
        let word_index = bit_index / 64;
        let bit_offset = bit_index % 64;
        let w = self.words[word_index];
        self.words.set(word_index, w | (1u64 << (bit_offset as u64)));
        proof {
            let s0 = old(self).bits();
            let s1 = self.bits();
            assert forall|j: nat| s1.contains(j) <==> s0.insert(bit_index as nat).contains(j) by {
                if j < self.bit_len {
                    lemma_set_bit(w, bit_offset as u64, (j % 64) as u64);
                    if j / 64 != word_index as nat {
                        assert(self.words@[(j / 64) as int] == old(self).words@[(j / 64) as int]);
                    }
                }
            }
            assert(s1 =~= s0.insert(bit_index as nat));
        }
    }

    /// Checks whether one bit is set in the backing bitmap.
    fn is_bit_set(&self, bit_index: usize) -> (r: bool)
        requires
            self.wf(),
            bit_index < self.spec_bit_len(),
        ensures
            r == self.bits().contains(bit_index as nat),
    {
        let word_index = bit_index / 64;
        let bit_offset = bit_index % 64;
        (self.words[word_index] >> (bit_offset as u64)) & 1u64 == 1u64
    }

    /// Inserts an item into the filter.
    pub fn insert<T: SketchKey + ?Sized>(&mut self, item: &T)
        requires
            old(self).wf(),
        ensures
            final(self).wf(),
            final(self).spec_bit_len() == old(self).spec_bit_len(),
            final(self).spec_num_hashes() == old(self).spec_num_hashes(),
            final(self).spec_inserted_items() == old(self).spec_inserted_items().saturating_add(1),
            final(self).bits() == old(self).bits().union(old(self).probes(item.key())),
    {
        let ghost key = item.key();
        let (h1, h2) = Self::hash_pair(item);
        let m = self.bit_len as u64;
        let mut probe = h1;
        let mut i: u32 = 0;
        while i < self.num_hashes
            invariant
                self.wf(),
                self.spec_bit_len() == old(self).spec_bit_len(),
                self.spec_num_hashes() == old(self).spec_num_hashes(),
                self.spec_inserted_items() == old(self).spec_inserted_items(),
                m == self.spec_bit_len(),
                key == item.key(),
                h1 == first_hash(key),
                h2 == second_hash(key),
                probe == probe_value(h1, h2, i as nat),
                i <= self.spec_num_hashes(),
                self.bits() == old(self).bits().union(
                    Set::new(
                        |j: nat|
                            exists|t: nat|
                                t < i && j == #[trigger] probe_bit(key, t, self.spec_bit_len()),
                    ),
                ),
            decreases self.spec_num_hashes() - i,
        {
            let bit_index = (probe % m) as usize;
            let ghost before = self.bits();
            self.set_bit(bit_index);
            proof {
                let old_probes = Set::new(
                    |j: nat|
                        exists|t: nat|
                            t < i && j == #[trigger] probe_bit(key, t, self.spec_bit_len()),
                );
                let new_probes = Set::new(
                    |j: nat|
                        exists|t: nat|
                            t < i + 1 && j == #[trigger] probe_bit(key, t, self.spec_bit_len()),
                );
                assert(probe_bit(key, i as nat, self.spec_bit_len()) == bit_index as nat);
                assert forall|j: nat| new_probes.contains(j) <==> old_probes.insert(
                    bit_index as nat,
                ).contains(j) by {
                    if new_probes.contains(j) {
                        let t = choose|t: nat|
                            t < i + 1 && j == #[trigger] probe_bit(key, t, self.spec_bit_len());
                        if t < i {
                            assert(old_probes.contains(j));
                        }
                    }
                    if old_probes.contains(j) {
                        let t = choose|t: nat|
                            t < i && j == #[trigger] probe_bit(key, t, self.spec_bit_len());
                        assert(t < i + 1);
                    }
                    if j == bit_index as nat {
                        assert(probe_bit(key, i as nat, self.spec_bit_len()) == j);
                    }
                }
                assert(new_probes =~= old_probes.insert(bit_index as nat));
                assert(self.bits() =~= old(self).bits().union(new_probes));
            }
            probe = probe.wrapping_add(h2);
            i = i + 1;
        }
        proof {
            assert(old(self).probes(key) =~= Set::new(
                |j: nat|
                    exists|t: nat| t < i && j == #[trigger] probe_bit(key, t, self.spec_bit_len()),
            ));
        }
        self.inserted_items = self.inserted_items.saturating_add(1);
    }

    /// Returns `true` if the item is possibly in the set; `false` means
    /// definitely not present.
    pub fn contains<T: SketchKey + ?Sized>(&self, item: &T) -> (r: bool)
        requires
            self.wf(),
        ensures
            r == self.reports(item.key()),
    {
        let ghost key = item.key();
        let (h1, h2) = Self::hash_pair(item);
        let m = self.bit_len as u64;
        let mut probe = h1;
        let mut i: u32 = 0;
        while i < self.num_hashes
            invariant
                self.wf(),
                m == self.spec_bit_len(),
                key == item.key(),
                h1 == first_hash(key),
                h2 == second_hash(key),
                probe == probe_value(h1, h2, i as nat),
                i <= self.spec_num_hashes(),
                forall|t: nat|
                    t < i ==> #[trigger] self.bits().contains(
                        probe_bit(key, t, self.spec_bit_len()),
                    ),
            decreases self.spec_num_hashes() - i,
        {
            let bit_index = (probe % m) as usize;
            assert(probe_bit(key, i as nat, self.spec_bit_len()) == bit_index as nat);
            if !self.is_bit_set(bit_index) {
                assert(!self.reports(key)) by {
                    if self.reports(key) {
                        assert(self.bits().contains(probe_bit(key, i as nat, self.spec_bit_len())));
                    }
                }
                return false;
            }
            probe = probe.wrapping_add(h2);
            i = i + 1;
        }
        true
    }

    /// Clears all bits and resets the insert counter.
    pub fn clear(&mut self)
        requires
            old(self).wf(),
        ensures
            final(self).wf(),
            final(self).spec_bit_len() == old(self).spec_bit_len(),
            final(self).spec_num_hashes() == old(self).spec_num_hashes(),
            final(self).spec_inserted_items() == 0,
            final(self).bits() == Set::<nat>::empty(),
    {
        let n = self.words.len();
        let mut i: usize = 0;
        while i < n
            invariant
                n == self.words@.len(),
                self.bit_len == old(self).bit_len,
                self.num_hashes == old(self).num_hashes,
                self.inserted_items == old(self).inserted_items,
                self.wf(),
                i <= n,
                forall|t: int| 0 <= t < i ==> self.words@[t] == 0u64,
            decreases n - i,
        {
            self.words.set(i, 0);
            i = i + 1;
        }
        self.inserted_items = 0;
        proof {
            assert forall|j: nat| #[trigger] self.bits().contains(j) implies false by {
                lemma_zero_bit((j % 64) as u64);
            }
            assert(self.bits() =~= Set::<nat>::empty());
        }
    }

    /// Merges another filter into this one by bitwise OR.
    pub fn merge(&mut self, other: &Self) -> (r: Result<(), SketchError>)
        requires
            old(self).wf(),
            other.wf(),
        ensures
            final(self).wf(),
            final(self).spec_bit_len() == old(self).spec_bit_len(),
            final(self).spec_num_hashes() == old(self).spec_num_hashes(),
            (old(self).spec_bit_len() != other.spec_bit_len() || old(self).spec_num_hashes()
                != other.spec_num_hashes()) ==> (r matches Err(SketchError::IncompatibleSketches(_))
                && *final(self) == *old(self)),
            (old(self).spec_bit_len() == other.spec_bit_len() && old(self).spec_num_hashes()
                == other.spec_num_hashes()) ==> r is Ok && final(self).bits() == old(
                self,
            ).bits().union(other.bits()) && final(self).spec_inserted_items()
                == old(self).spec_inserted_items().saturating_add(other.spec_inserted_items()),
    {
        if self.bit_len != other.bit_len || self.num_hashes != other.num_hashes {
            return Err(
                SketchError::IncompatibleSketches("bit_len and num_hashes must match for merge"),
            );
        }
        let n = self.words.len();
        let mut i: usize = 0;
        while i < n
            invariant
                n == self.words@.len(),
                n == other.words@.len(),
                self.bit_len == old(self).bit_len,
                self.num_hashes == old(self).num_hashes,
                self.inserted_items == old(self).inserted_items,
                self.wf(),
                i <= n,
                forall|t: int|
                    0 <= t < i ==> self.words@[t] == (old(self).words@[t] | other.words@[t]),
                forall|t: int| i <= t < n ==> self.words@[t] == old(self).words@[t],
            decreases n - i,
        {
            let w = self.words[i] | other.words[i];
            self.words.set(i, w);
            i = i + 1;
        }
        self.inserted_items = self.inserted_items.saturating_add(other.inserted_items);
        proof {
            assert forall|j: nat| #[trigger]
                self.bits().contains(j) <==> old(self).bits().union(other.bits()).contains(j) by {
                if j < self.bit_len {
                    lemma_or_bit(
                        old(self).words@[(j / 64) as int],
                        other.words@[(j / 64) as int],
                        (j % 64) as u64,
                    );
                }
            }
            assert(self.bits() =~= old(self).bits().union(other.bits()));
        }
        Ok(())
    }
}

/// No false negatives: once an item has been inserted, the filter reports it,
/// and keeps reporting it while its bits only grow (further inserts, merges).
pub proof fn lemma_inserted_item_is_reported(
    before: BloomFilter,
    after: BloomFilter,
    later: BloomFilter,
    key: Seq<u8>,
)
    requires
        after.spec_bit_len() == before.spec_bit_len(),
        after.spec_num_hashes() == before.spec_num_hashes(),
        after.bits() == before.bits().union(before.probes(key)),
        later.spec_bit_len() == after.spec_bit_len(),
        later.spec_num_hashes() == after.spec_num_hashes(),
        after.bits().subset_of(later.bits()),
    ensures
        after.reports(key),
        later.reports(key),
{
    assert forall|i: nat| i < after.spec_num_hashes() implies #[trigger] after.bits().contains(
        probe_bit(key, i, after.spec_bit_len()),
    ) by {
        assert(before.probes(key).contains(probe_bit(key, i, before.spec_bit_len())));
    }
    assert forall|i: nat| i < later.spec_num_hashes() implies #[trigger] later.bits().contains(
        probe_bit(key, i, later.spec_bit_len()),
    ) by {
        assert(after.bits().contains(probe_bit(key, i, after.spec_bit_len())));
    }
}

} // verus!
