//! Cuckoo filter for approximate set membership with deletion.
//!
//! Each item has a small non-zero fingerprint and two candidate buckets of
//! four slots; 0 marks an empty slot. A full pair of buckets triggers a
//! bounded random walk of relocations; if that walk fails, the filter is
//! restored to its state before the insert.
use crate::hashing::{seeded_hash, seeded_hash64, splitmix, splitmix64, SketchKey};
use crate::SketchError;
use vstd::multiset::Multiset;
use vstd::prelude::*;
use vstd::seq_lib::to_multiset_update;

verus! {

pub const BUCKET_SIZE: usize = 4;

pub const INDEX_SEED: u64 = 0x243F_6A88_85A3_08D3;

pub const FINGERPRINT_SEED: u64 = 0x1319_8A2E_0370_7344;

pub const ALT_INDEX_SEED: u64 = 0xA409_3822_299F_31D0;

pub const RNG_SEED: u64 = 0xD6E8_FD93_5E7A_4A6D;

pub const RNG_STEP: u64 = 0x9E37_79B9_7F4A_7C15;

/// The fingerprint of an item: its seeded hash masked to `bits` bits, forced
/// non-zero.
pub open spec fn fingerprint_of(key: Seq<u8>, bits: u8) -> u16 {
    let mask: u64 = if bits == 16 {
        0xFFFFu64
    } else {
        ((1u64 << (bits as u64)) - 1) as u64
    };
    let f = (seeded_hash(key, FINGERPRINT_SEED) & mask) as u16;
    if f < 1 {
        1
    } else {
        f
    }
}

/// The first candidate bucket of an item.
pub open spec fn primary_of(key: Seq<u8>, buckets: nat) -> nat {
    (seeded_hash(key, INDEX_SEED) & ((buckets - 1) as u64)) as nat
}

/// The other candidate bucket of a fingerprint held in bucket `i`.
pub open spec fn alternate_of(i: nat, fp: u16, buckets: nat) -> nat {
    (((i as u64) ^ seeded_hash((fp as u64).key(), ALT_INDEX_SEED)) & ((buckets - 1) as u64)) as nat
}

/// Whether bucket `b` of slot table `t` holds `f` in one of its four slots.
pub open spec fn has_in(t: Seq<u16>, b: nat, f: u16) -> bool {
    exists|s: int| 0 <= s < 4 && #[trigger] t[(b * 4 + s) as int] == f
}

proof fn lemma_has_in_kept(t: Seq<u16>, b: nat, f: u16, j: int, v: u16)
    requires
        has_in(t, b, f),
        0 <= j < t.len(),
        t[j] != f || !(b * 4 <= j < b * 4 + 4),
        b * 4 + 4 <= t.len(),
    ensures
        has_in(t.update(j, v), b, f),
{
    let s = choose|s: int| 0 <= s < 4 && #[trigger] t[(b * 4 + s) as int] == f;
    assert(t.update(j, v)[(b * 4 + s) as int] == f);
}

proof fn lemma_has_in_written(t: Seq<u16>, b: nat, j: int, v: u16)
    requires
        b * 4 <= j < b * 4 + 4,
        j < t.len(),
    ensures
        has_in(t.update(j, v), b, v),
{
    let s = j - b * 4;
    assert(t.update(j, v)[(b * 4 + s) as int] == v);
}

/// Whether the fingerprint `fp` of an item with buckets `ia`, `ib` sits in one of them.
pub open spec fn reports_in(t: Seq<u16>, fp: u16, ia: nat, ib: nat) -> bool {
    has_in(t, ia, fp) || has_in(t, ib, fp)
}

/// During relocation: the item is reported, or its fingerprint is the one in
/// hand and headed for one of its own buckets.
pub open spec fn held(t: Seq<u16>, hand: u16, bucket: nat, fp: u16, ia: nat, ib: nat) -> bool {
    reports_in(t, fp, ia, ib) || (hand == fp && (bucket == ia || bucket == ib))
}

proof fn lemma_reports_kept(t: Seq<u16>, j: int, v: u16, fp: u16, ia: nat, ib: nat)
    requires
        reports_in(t, fp, ia, ib),
        0 <= j < t.len(),
        t[j] == 0,
        fp >= 1,
        ia * 4 + 4 <= t.len(),
        ib * 4 + 4 <= t.len(),
    ensures
        reports_in(t.update(j, v), fp, ia, ib),
{
    if has_in(t, ia, fp) {
        lemma_has_in_kept(t, ia, fp, j, v);
    } else {
        lemma_has_in_kept(t, ib, fp, j, v);
    }
}

proof fn lemma_kick_keeps(t: Seq<u16>, hand: u16, bucket: nat, idx: int, fp: u16, ia: nat, ib: nat, bc: nat)
    requires
        held(t, hand, bucket, fp, ia, ib),
        bucket < bc,
        bucket * 4 <= idx < bucket * 4 + 4,
        t.len() == bc * 4,
        ia < bc,
        ib < bc,
        ib == alternate_of(ia, fp, bc),
        ia == alternate_of(ib, fp, bc),
    ensures
        held(t.update(idx, hand), t[idx], alternate_of(bucket, t[idx], bc), fp, ia, ib),
{
    assert(ia * 4 + 4 <= t.len()) by (nonlinear_arith)
        requires ia < bc, t.len() == bc * 4;
    assert(ib * 4 + 4 <= t.len()) by (nonlinear_arith)
        requires ib < bc, t.len() == bc * 4;
    let evicted = t[idx];
    if bucket == ia || bucket == ib {
        if evicted != fp {
            if has_in(t, ia, fp) {
                lemma_has_in_kept(t, ia, fp, idx, hand);
            } else if has_in(t, ib, fp) {
                lemma_has_in_kept(t, ib, fp, idx, hand);
            } else {
                lemma_has_in_written(t, bucket, idx, hand);
            }
        }
    } else {
        if has_in(t, ia, fp) {
            lemma_has_in_kept(t, ia, fp, idx, hand);
        } else {
            lemma_has_in_kept(t, ib, fp, idx, hand);
        }
    }
}

proof fn lemma_place(t: Seq<u16>, hand: u16, bucket: nat, j: int, fp: u16, ia: nat, ib: nat)
    requires
        held(t, hand, bucket, fp, ia, ib),
        bucket * 4 <= j < bucket * 4 + 4,
        j < t.len(),
        t[j] == 0,
        fp >= 1,
        ia * 4 + 4 <= t.len(),
        ib * 4 + 4 <= t.len(),
    ensures
        reports_in(t.update(j, hand), fp, ia, ib),
{
    if reports_in(t, fp, ia, ib) {
        lemma_reports_kept(t, j, hand, fp, ia, ib);
    } else {
        lemma_has_in_written(t, bucket, j, hand);
    }
}

proof fn lemma_mask_bound(x: u64, b: u64)
    requires
        b > 0,
    ensures
        x & ((b - 1) as u64) < b,
{
    assert(x & ((b - 1) as u64) <= ((b - 1) as u64)) by (bit_vector);
}

proof fn lemma_alternate_involution(i: u64, h: u64, b: u64)
    requires
        b > 0,
        b & ((b - 1) as u64) == 0,
        i < b,
    ensures
        (((i ^ h) & ((b - 1) as u64)) ^ h) & ((b - 1) as u64) == i,
{
    assert((((i ^ h) & ((b - 1) as u64)) ^ h) & ((b - 1) as u64) == i) by (bit_vector)
        requires
            b > 0,
            b & ((b - 1) as u64) == 0,
            i < b,
    ;
}

/// Approximate set-membership filter with support for deletion.
#[derive(Debug, Clone)]
pub struct CuckooFilter {
    slots: Vec<u16>,
    bucket_count: usize,
    fingerprint_bits: u8,
    max_kicks: usize,
    inserted_items: u64,
    rng_state: u64,
}

fn copy_u16s(s: &Vec<u16>) -> (r: Vec<u16>)
    ensures
        r@ == s@,
{
    let mut out: Vec<u16> = Vec::new();
    let mut i: usize = 0;
    while i < s.len()
        invariant
            i <= s@.len(),
            out@ == s@.subrange(0, i as int),
        decreases s@.len() - i,
    {
        out.push(s[i]);
        i = i + 1;
        assert(out@ =~= s@.subrange(0, i as int));
    }
    assert(s@.subrange(0, s@.len() as int) =~= s@);
    out
}

impl CuckooFilter {
    pub closed spec fn spec_bucket_count(&self) -> nat {
        self.bucket_count as nat
    }

    pub closed spec fn spec_fingerprint_bits(&self) -> u8 {
        self.fingerprint_bits
    }

    pub closed spec fn spec_inserted_items(&self) -> u64 {
        self.inserted_items
    }

    /// All slots, bucket after bucket (four per bucket, 0 for empty).
    pub closed spec fn table(&self) -> Seq<u16> {
        self.slots@
    }

    /// Validity: a power-of-two number of buckets of four slots each, and a
    /// fingerprint width in `[1, 16]`.
    pub open spec fn wf(&self) -> bool {
        &&& self.spec_bucket_count() > 0
        &&& self.spec_bucket_count() * 4 <= usize::MAX
        &&& (self.spec_bucket_count() as u64) & ((self.spec_bucket_count() - 1) as u64) == 0
        &&& self.table().len() == self.spec_bucket_count() * 4
        &&& 1 <= self.spec_fingerprint_bits() <= 16
        &&& self.inner_wf()
    }

    pub closed spec fn inner_wf(&self) -> bool {
        &&& self.bucket_count > 0
        &&& self.bucket_count & ((self.bucket_count - 1) as usize) == 0
        &&& self.bucket_count * 4 <= usize::MAX
        &&& self.slots@.len() == self.bucket_count * 4
        &&& 1 <= self.fingerprint_bits <= 16
        &&& self.max_kicks > 0
    }

    /// Whether bucket `b` holds fingerprint `fp` in one of its slots.
    pub open spec fn bucket_has(&self, b: nat, fp: u16) -> bool {
        has_in(self.table(), b, fp)
    }

    /// The fingerprint of an item in this filter.
    pub open spec fn fp_of(&self, key: Seq<u8>) -> u16 {
        fingerprint_of(key, self.spec_fingerprint_bits())
    }

    /// The first candidate bucket of an item.
    pub open spec fn first_bucket(&self, key: Seq<u8>) -> nat {
        primary_of(key, self.spec_bucket_count())
    }

    /// The second candidate bucket of an item.
    pub open spec fn second_bucket(&self, key: Seq<u8>) -> nat {
        alternate_of(self.first_bucket(key), self.fp_of(key), self.spec_bucket_count())
    }

    /// Whether the filter reports an item as possibly present: its
    /// fingerprint sits in one of its two candidate buckets.
    pub open spec fn reports(&self, key: Seq<u8>) -> bool {
        self.bucket_has(self.first_bucket(key), self.fp_of(key)) || self.bucket_has(
            self.second_bucket(key),
            self.fp_of(key),
        )
    }

    /// Creates a filter from explicit parameters; `bucket_count` must be a
    /// non-zero power of two, `fingerprint_bits` in `[1, 16]`, `max_kicks`
    /// non-zero.
    pub fn with_parameters(bucket_count: usize, fingerprint_bits: u8, max_kicks: usize) -> (r: Result<
        Self,
        SketchError,
    >)
        ensures
            (bucket_count == 0 || bucket_count & ((bucket_count - 1) as usize) != 0
                || fingerprint_bits == 0 || fingerprint_bits > 16 || max_kicks == 0
                || bucket_count * 4 > usize::MAX) ==> (r matches Err(SketchError::InvalidParameter(_))),
            (bucket_count > 0 && bucket_count & ((bucket_count - 1) as usize) == 0
                && 1 <= fingerprint_bits <= 16 && max_kicks > 0 && bucket_count * 4 <= usize::MAX)
                ==> (r matches Ok(f) && f.wf() && f.spec_bucket_count() == bucket_count
                && f.spec_fingerprint_bits() == fingerprint_bits && f.spec_inserted_items() == 0
                && f.table() == Seq::new(bucket_count as nat * 4, |i: int| 0u16)),
    {
        if bucket_count == 0 || bucket_count & (bucket_count - 1) != 0 {
            return Err(SketchError::InvalidParameter("bucket_count must be a non-zero power of two"));
        }
        if fingerprint_bits == 0 || fingerprint_bits > 16 {
            return Err(
                SketchError::InvalidParameter("fingerprint_bits must be in the inclusive range [1, 16]"),
            );
        }
        if max_kicks == 0 {
            return Err(SketchError::InvalidParameter("max_kicks must be greater than zero"));
        }
        let slot_count = match bucket_count.checked_mul(BUCKET_SIZE) {
            Some(n) => n,
            None => {
                return Err(SketchError::InvalidParameter("bucket_count is too large"));
            },
        };
        let f = CuckooFilter {
            slots: vec![0u16; slot_count],
            bucket_count,
            fingerprint_bits,
            max_kicks,
            inserted_items: 0,
            rng_state: RNG_SEED,
        };
        assert(f.table() =~= Seq::new(bucket_count as nat * 4, |i: int| 0u16));
        Ok(f)
    }

    /// Returns the number of buckets.
    pub fn bucket_count(&self) -> (r: usize)
        ensures
            r == self.spec_bucket_count(),
    {
        self.bucket_count
    }

    /// Returns the fingerprint width in bits.
    pub fn fingerprint_bits(&self) -> (r: u8)
        ensures
            r == self.spec_fingerprint_bits(),
    {
        self.fingerprint_bits
    }

    /// Returns the number of successful insertions minus deletions (saturating).
    pub fn inserted_items(&self) -> (r: u64)
        ensures
            r == self.spec_inserted_items(),
    {
        self.inserted_items
    }

    /// Returns `true` when no items are held.
    pub fn is_empty(&self) -> (r: bool)
        ensures
            r == (self.spec_inserted_items() == 0),
    {
        self.inserted_items == 0
    }

    fn fingerprint<T: SketchKey + ?Sized>(&self, item: &T) -> (r: u16)
        requires
            self.wf(),
        ensures
            r == self.fp_of(item.key()),
            r >= 1,
    {
        let hash = seeded_hash64(item, FINGERPRINT_SEED);
        let mask: u64 = if self.fingerprint_bits == 16 {
            0xFFFFu64
        } else {
            proof {
                let b = self.fingerprint_bits as u64;
                assert(1u64 << b >= 1) by (bit_vector)
                    requires
                        b < 16,
                ;
            }
            (1u64 << (self.fingerprint_bits as u64)) - 1
        };
        let f = (hash & mask) as u16;
        if f < 1 {
            1
        } else {
            f
        }
    }

    fn primary_index<T: SketchKey + ?Sized>(&self, item: &T) -> (r: usize)
        requires
            self.wf(),
        ensures
            r == self.first_bucket(item.key()),
            r < self.spec_bucket_count(),
    {
        let h = seeded_hash64(item, INDEX_SEED);
        proof {
            lemma_mask_bound(h, self.bucket_count as u64);
        }
        (h & (self.bucket_count as u64 - 1)) as usize
    }

    fn alternate_index(&self, index: usize, fp: u16) -> (r: usize)
        requires
            self.wf(),
        ensures
            r == alternate_of(index as nat, fp, self.spec_bucket_count()),
            r < self.spec_bucket_count(),
    {
        let h = seeded_hash64(&(fp as u64), ALT_INDEX_SEED);
        proof {
            lemma_mask_bound((index as u64) ^ h, self.bucket_count as u64);
        }
        (((index as u64) ^ h) & (self.bucket_count as u64 - 1)) as usize
    }

    proof fn lemma_alternate_back(&self, i: nat, fp: u16)
        requires
            self.wf(),
            i < self.spec_bucket_count(),
        ensures
            alternate_of(alternate_of(i, fp, self.spec_bucket_count()), fp, self.spec_bucket_count()) == i,
    {
        let h = seeded_hash((fp as u64).key(), ALT_INDEX_SEED);
        let b = self.bucket_count as u64;
        assert(b & ((b - 1) as u64) == 0);
        lemma_alternate_involution(i as u64, h, b);
    }

    fn next_u64(&mut self) -> (r: u64)
        ensures
            final(self).rng_state == r,
            final(self).slots == old(self).slots,
            final(self).bucket_count == old(self).bucket_count,
            final(self).fingerprint_bits == old(self).fingerprint_bits,
            final(self).max_kicks == old(self).max_kicks,
            final(self).inserted_items == old(self).inserted_items,
            r == splitmix(old(self).rng_state.wrapping_add(RNG_STEP)),
    {
        self.rng_state = splitmix64(self.rng_state.wrapping_add(RNG_STEP));
        self.rng_state
    }

    /// Places `fp` in the first empty slot of bucket `b`, if any.
    fn insert_into_bucket(&mut self, b: usize, fp: u16) -> (r: bool)
        requires
            old(self).wf(),
            b < old(self).spec_bucket_count(),
        ensures
            final(self).wf(),
            final(self).bucket_count == old(self).bucket_count,
            final(self).fingerprint_bits == old(self).fingerprint_bits,
            final(self).max_kicks == old(self).max_kicks,
            final(self).inserted_items == old(self).inserted_items,
            final(self).rng_state == old(self).rng_state,
            r == old(self).bucket_has(b as nat, 0),
            !r ==> final(self).table() == old(self).table(),
            r ==> exists|j: int| b * 4 <= j < b * 4 + 4 && #[trigger] old(self).table()[j] == 0
                && final(self).table() == old(self).table().update(j, fp),
    {
        let mut s: usize = 0;
        while s < BUCKET_SIZE
            invariant
                self.wf(),
                *self == *old(self),
                b < self.spec_bucket_count(),
                s <= 4,
                forall|t: int| 0 <= t < s ==> #[trigger] self.table()[(b * 4 + t) as int] != 0,
            decreases 4 - s,
        {
            if self.slots[b * 4 + s] == 0 {
                self.slots.set(b * 4 + s, fp);
                assert(self.table() == old(self).table().update(b * 4 + s, fp));
                assert(old(self).table()[((b as nat) * 4 + (s as int)) as int] == 0u16);
                assert(old(self).bucket_has(b as nat, 0));
                return true;
            }
            s = s + 1;
        }
        proof {
            if old(self).bucket_has(b as nat, 0) {
                let t = choose|t: int| 0 <= t < 4 && #[trigger] old(self).table()[(b * 4 + t) as int] == 0u16;
                assert(self.table()[(b * 4 + t) as int] != 0);
            }
        }
        false
    }

    /// Clears the first slot of bucket `b` that holds `fp`, if any.
    fn remove_from_bucket(&mut self, b: usize, fp: u16) -> (r: bool)
        requires
            old(self).wf(),
            b < old(self).spec_bucket_count(),
        ensures
            final(self).wf(),
            final(self).bucket_count == old(self).bucket_count,
            final(self).fingerprint_bits == old(self).fingerprint_bits,
            final(self).max_kicks == old(self).max_kicks,
            final(self).inserted_items == old(self).inserted_items,
            final(self).rng_state == old(self).rng_state,
            r == old(self).bucket_has(b as nat, fp),
            !r ==> final(self).table() == old(self).table(),
            r ==> exists|j: int| b * 4 <= j < b * 4 + 4 && #[trigger] old(self).table()[j] == fp
                && final(self).table() == old(self).table().update(j, 0),
    {
        let mut s: usize = 0;
        while s < BUCKET_SIZE
            invariant
                self.wf(),
                *self == *old(self),
                b < self.spec_bucket_count(),
                s <= 4,
                forall|t: int| 0 <= t < s ==> #[trigger] self.table()[(b * 4 + t) as int] != fp,
            decreases 4 - s,
        {
            if self.slots[b * 4 + s] == fp {
                self.slots.set(b * 4 + s, 0);
                assert(old(self).table()[((b as nat) * 4 + (s as int)) as int] == fp);
                assert(old(self).bucket_has(b as nat, fp));
                return true;
            }
            s = s + 1;
        }
        proof {
            if old(self).bucket_has(b as nat, fp) {
                let t = choose|t: int| 0 <= t < 4 && #[trigger] old(self).table()[(b * 4 + t) as int] == fp;
                assert(self.table()[(b * 4 + t) as int] != fp);
            }
        }
        false
    }

    fn bucket_contains(&self, b: usize, fp: u16) -> (r: bool)
        requires
            self.wf(),
            b < self.spec_bucket_count(),
        ensures
            r == self.bucket_has(b as nat, fp),
    {
        let mut s: usize = 0;
        while s < BUCKET_SIZE
            invariant
                self.wf(),
                b < self.spec_bucket_count(),
                s <= 4,
                forall|t: int| 0 <= t < s ==> #[trigger] self.table()[(b * 4 + t) as int] != fp,
            decreases 4 - s,
        {
            if self.slots[b * 4 + s] == fp {
                assert(self.table()[((b as nat) * 4 + (s as int)) as int] == fp);
                assert(self.bucket_has(b as nat, fp));
                return true;
            }
            s = s + 1;
        }
        proof {
            if self.bucket_has(b as nat, fp) {
                let t = choose|t: int| 0 <= t < 4 && #[trigger] self.table()[(b * 4 + t) as int] == fp;
                assert(self.table()[(b * 4 + t) as int] != fp);
            }
        }
        false
    }

    /// Returns `true` if the item is possibly in the set.
    pub fn contains<T: SketchKey + ?Sized>(&self, item: &T) -> (r: bool)
        requires
            self.wf(),
        ensures
            r == self.reports(item.key()),
    {
        let fp = self.fingerprint(item);
        let ia = self.primary_index(item);
        let ib = self.alternate_index(ia, fp);
        self.bucket_contains(ia, fp) || self.bucket_contains(ib, fp)
    }

    /// An item's two candidate buckets lie in the table and are each other's
    /// alternates under its fingerprint.
    pub proof fn lemma_candidate_pair(&self, key: Seq<u8>)
        requires
            self.wf(),
        ensures
            self.first_bucket(key) < self.spec_bucket_count(),
            self.second_bucket(key) < self.spec_bucket_count(),
            self.fp_of(key) >= 1,
            alternate_of(self.second_bucket(key), self.fp_of(key), self.spec_bucket_count())
                == self.first_bucket(key),
    {
        lemma_mask_bound(seeded_hash(key, INDEX_SEED), self.spec_bucket_count() as u64);
        lemma_mask_bound(
            (self.first_bucket(key) as u64) ^ seeded_hash((self.fp_of(key) as u64).key(), ALT_INDEX_SEED),
            self.spec_bucket_count() as u64,
        );
        self.lemma_alternate_back(self.first_bucket(key), self.fp_of(key));
    }

    /// Writing into an empty slot keeps every reported item reported.
    proof fn lemma_empty_slot_keeps_all(&self, j: int, v: u16)
        requires
            self.wf(),
            0 <= j < self.table().len(),
            self.table()[j] == 0,
        ensures
            forall|k: Seq<u8>| self.reports(k) ==> #[trigger] reports_in(
                self.table().update(j, v), self.fp_of(k), self.first_bucket(k), self.second_bucket(k),
            ),
    {
        assert forall|k: Seq<u8>| self.reports(k) implies #[trigger] reports_in(
            self.table().update(j, v), self.fp_of(k), self.first_bucket(k), self.second_bucket(k),
        ) by {
            self.lemma_candidate_pair(k);
            let bc = self.spec_bucket_count();
            assert(self.first_bucket(k) * 4 + 4 <= self.table().len()) by (nonlinear_arith)
                requires self.first_bucket(k) < bc, self.table().len() == bc * 4;
            assert(self.second_bucket(k) * 4 + 4 <= self.table().len()) by (nonlinear_arith)
                requires self.second_bucket(k) < bc, self.table().len() == bc * 4;
            lemma_reports_kept(self.table(), j, v, self.fp_of(k), self.first_bucket(k), self.second_bucket(k));
        }
    }

    /// One relocation step keeps every item held: reported, or in hand and
    /// headed for one of its own buckets.
    proof fn lemma_kick_keeps_all(&self, t: Seq<u16>, hand: u16, bucket: nat, idx: int)
        requires
            self.wf(),
            t.len() == self.table().len(),
            bucket < self.spec_bucket_count(),
            bucket * 4 <= idx < bucket * 4 + 4,
            forall|k: Seq<u8>| self.reports(k) ==> #[trigger] held(
                t, hand, bucket, self.fp_of(k), self.first_bucket(k), self.second_bucket(k),
            ),
        ensures
            forall|k: Seq<u8>| self.reports(k) ==> #[trigger] held(
                t.update(idx, hand), t[idx], alternate_of(bucket, t[idx], self.spec_bucket_count()),
                self.fp_of(k), self.first_bucket(k), self.second_bucket(k),
            ),
    {
        assert forall|k: Seq<u8>| self.reports(k) implies #[trigger] held(
            t.update(idx, hand), t[idx], alternate_of(bucket, t[idx], self.spec_bucket_count()),
            self.fp_of(k), self.first_bucket(k), self.second_bucket(k),
        ) by {
            self.lemma_candidate_pair(k);
            assert(held(t, hand, bucket, self.fp_of(k), self.first_bucket(k), self.second_bucket(k)));
            lemma_kick_keeps(t, hand, bucket, idx, self.fp_of(k), self.first_bucket(k), self.second_bucket(k), self.spec_bucket_count());
        }
    }

    /// Placing the fingerprint in hand into an empty slot of its bucket makes
    /// every held item reported.
    proof fn lemma_place_keeps_all(&self, t: Seq<u16>, hand: u16, bucket: nat, j: int)
        requires
            self.wf(),
            t.len() == self.table().len(),
            bucket * 4 <= j < bucket * 4 + 4,
            j < t.len(),
            t[j] == 0,
            forall|k: Seq<u8>| self.reports(k) ==> #[trigger] held(
                t, hand, bucket, self.fp_of(k), self.first_bucket(k), self.second_bucket(k),
            ),
        ensures
            forall|k: Seq<u8>| self.reports(k) ==> #[trigger] reports_in(
                t.update(j, hand), self.fp_of(k), self.first_bucket(k), self.second_bucket(k),
            ),
    {
        assert forall|k: Seq<u8>| self.reports(k) implies #[trigger] reports_in(
            t.update(j, hand), self.fp_of(k), self.first_bucket(k), self.second_bucket(k),
        ) by {
            self.lemma_candidate_pair(k);
            let bc = self.spec_bucket_count();
            assert(self.first_bucket(k) * 4 + 4 <= t.len()) by (nonlinear_arith)
                requires self.first_bucket(k) < bc, t.len() == bc * 4;
            assert(self.second_bucket(k) * 4 + 4 <= t.len()) by (nonlinear_arith)
                requires self.second_bucket(k) < bc, t.len() == bc * 4;
            assert(held(t, hand, bucket, self.fp_of(k), self.first_bucket(k), self.second_bucket(k)));
            lemma_place(t, hand, bucket, j, self.fp_of(k), self.first_bucket(k), self.second_bucket(k));
        }
    }

    /// Inserts one item. It succeeds whenever one of its two buckets has a
    /// free slot; otherwise it relocates fingerprints, each to its own other
    /// bucket, along a bounded random walk. On success the fingerprint takes
    /// one empty slot, and every item reported before is still reported; on
    /// failure the filter is left as it was.
    #[verifier::rlimit(80)]
    pub fn insert<T: SketchKey + ?Sized>(&mut self, item: &T) -> (r: bool)
        requires
            old(self).wf(),
        ensures
            final(self).wf(),
            final(self).spec_bucket_count() == old(self).spec_bucket_count(),
            final(self).spec_fingerprint_bits() == old(self).spec_fingerprint_bits(),
            final(self).table().len() == old(self).table().len(),
            (old(self).bucket_has(old(self).first_bucket(item.key()), 0) || old(self).bucket_has(
                old(self).second_bucket(item.key()),
                0,
            )) ==> r,
            !r ==> final(self).table() == old(self).table() && final(self).spec_inserted_items()
                == old(self).spec_inserted_items(),
            r ==> final(self).reports(item.key()) && final(self).table().to_multiset() == old(
                self,
            ).table().to_multiset().remove(0).insert(old(self).fp_of(item.key()))
                && final(self).spec_inserted_items() == old(self).spec_inserted_items().saturating_add(1),
            r ==> forall|k: Seq<u8>| old(self).reports(k) ==> #[trigger] final(self).reports(k),
    {
        broadcast use to_multiset_update;
        let fp = self.fingerprint(item);
        let ia = self.primary_index(item);
        let ib = self.alternate_index(ia, fp);
        let ghost t0 = self.table();
        let ghost bc = self.spec_bucket_count();
        proof {
            self.lemma_alternate_back(ia as nat, fp);
        }
        if self.insert_into_bucket(ia, fp) {
            self.inserted_items = self.inserted_items.saturating_add(1);
            proof {
                let j = choose|j: int| ia * 4 <= j < ia * 4 + 4 && #[trigger] t0[j] == 0 && self.table() == t0.update(j, fp);
                lemma_has_in_written(t0, ia as nat, j, fp);
                assert(self.table().to_multiset() =~= t0.to_multiset().remove(0).insert(fp));
                old(self).lemma_empty_slot_keeps_all(j, fp);
                assert forall|k: Seq<u8>| old(self).reports(k) implies #[trigger] self.reports(k) by {
                    assert(reports_in(t0.update(j, fp), old(self).fp_of(k), old(self).first_bucket(k), old(self).second_bucket(k)));
                }
            }
            return true;
        }
        if self.insert_into_bucket(ib, fp) {
            self.inserted_items = self.inserted_items.saturating_add(1);
            proof {
                let j = choose|j: int| ib * 4 <= j < ib * 4 + 4 && #[trigger] t0[j] == 0 && self.table() == t0.update(j, fp);
                lemma_has_in_written(t0, ib as nat, j, fp);
                assert(self.table().to_multiset() =~= t0.to_multiset().remove(0).insert(fp));
                old(self).lemma_empty_slot_keeps_all(j, fp);
                assert forall|k: Seq<u8>| old(self).reports(k) implies #[trigger] self.reports(k) by {
                    assert(reports_in(t0.update(j, fp), old(self).fp_of(k), old(self).first_bucket(k), old(self).second_bucket(k)));
                }
            }
            return true;
        }
        let saved = copy_u16s(&self.slots);
        let mut hand = fp;
        let mut bucket = if self.next_u64() & 1 == 0 {
            ia
        } else {
            ib
        };
        proof {
            assert forall|k: Seq<u8>| old(self).reports(k) implies #[trigger] held(
                self.table(), hand, bucket as nat, old(self).fp_of(k), old(self).first_bucket(k), old(self).second_bucket(k),
            ) by {}
        }
        let mut kick: usize = 0;
        while kick < self.max_kicks
            invariant
                self.wf(),
                old(self).wf(),
                self.bucket_count == old(self).bucket_count,
                self.fingerprint_bits == old(self).fingerprint_bits,
                self.max_kicks == old(self).max_kicks,
                self.inserted_items == old(self).inserted_items,
                bc == old(self).spec_bucket_count(),
                saved@ == t0,
                t0 == old(self).table(),
                fp == old(self).fp_of(item.key()),
                fp >= 1,
                ia == old(self).first_bucket(item.key()),
                ib == old(self).second_bucket(item.key()),
                ib == alternate_of(ia as nat, fp, bc),
                ia == alternate_of(ib as nat, fp, bc),
                ia < bc,
                ib < bc,
                bucket < bc,
                self.table().to_multiset().insert(hand) == t0.to_multiset().insert(fp),
                held(self.table(), hand, bucket as nat, fp, ia as nat, ib as nat),
                forall|k: Seq<u8>| old(self).reports(k) ==> #[trigger] held(
                    self.table(), hand, bucket as nat, old(self).fp_of(k), old(self).first_bucket(k), old(self).second_bucket(k),
                ),
            decreases self.max_kicks - kick,
        {
            let slot = (self.next_u64() % 4) as usize;
            let idx = bucket * 4 + slot;
            let ghost t1 = self.table();
            let evicted = self.slots[idx];
            self.slots.set(idx, hand);
            let ghost prev_hand = hand;
            let ghost prev_bucket = bucket;
            hand = evicted;
            bucket = self.alternate_index(bucket, hand);
            proof {
                let t2 = self.table();
                assert(t2 == t1.update(idx as int, prev_hand));
                to_multiset_update(t1, idx as int, prev_hand);
                t1.to_multiset_ensures();
                assert(t1.contains(evicted)) by {
                    assert(t1[idx as int] == evicted);
                }
                assert(t2.to_multiset().insert(evicted) =~= t1.to_multiset().insert(prev_hand));
                lemma_kick_keeps(t1, prev_hand, prev_bucket as nat, idx as int, fp, ia as nat, ib as nat, bc);
                old(self).lemma_kick_keeps_all(t1, prev_hand, prev_bucket as nat, idx as int);
            }
            let ghost t2 = self.table();
            if self.insert_into_bucket(bucket, hand) {
                proof {
                    let j = choose|j: int| bucket * 4 <= j < bucket * 4 + 4 && #[trigger] t2[j] == 0 && self.table() == t2.update(j, hand);
                    to_multiset_update(t2, j, hand);
                    assert(self.table().to_multiset() =~= t2.to_multiset().insert(hand).remove(0));
                    assert(self.table().to_multiset() =~= t0.to_multiset().remove(0).insert(fp));
                    lemma_place(t2, hand, bucket as nat, j, fp, ia as nat, ib as nat);
                    old(self).lemma_place_keeps_all(t2, hand, bucket as nat, j);
                }
                self.inserted_items = self.inserted_items.saturating_add(1);
                proof {
                    let j = choose|j: int| bucket * 4 <= j < bucket * 4 + 4 && #[trigger] t2[j] == 0 && self.table() == t2.update(j, hand);
                    assert forall|k: Seq<u8>| old(self).reports(k) implies #[trigger] self.reports(k) by {
                        assert(reports_in(t2.update(j, hand), old(self).fp_of(k), old(self).first_bucket(k), old(self).second_bucket(k)));
                    }
                }
                return true;
            }
            kick = kick + 1;
        }
        self.slots = saved;
        false
    }

    /// Deletes one instance of the item's fingerprint from its candidate
    /// buckets; returns `true` if one was removed.
    pub fn delete<T: SketchKey + ?Sized>(&mut self, item: &T) -> (r: bool)
        requires
            old(self).wf(),
        ensures
            final(self).wf(),
            final(self).spec_bucket_count() == old(self).spec_bucket_count(),
            final(self).spec_fingerprint_bits() == old(self).spec_fingerprint_bits(),
            r == old(self).reports(item.key()),
            !r ==> final(self).table() == old(self).table() && final(self).spec_inserted_items()
                == old(self).spec_inserted_items(),
            r ==> final(self).table().to_multiset() == old(self).table().to_multiset().remove(
                old(self).fp_of(item.key()),
            ).insert(0) && final(self).spec_inserted_items() == old(
                self,
            ).spec_inserted_items().saturating_sub(1),
            r ==> exists|j: int|
                (old(self).first_bucket(item.key()) * 4 <= j < old(self).first_bucket(item.key()) * 4 + 4
                    || old(self).second_bucket(item.key()) * 4 <= j < old(self).second_bucket(item.key()) * 4 + 4)
                    && #[trigger] old(self).table()[j] == old(self).fp_of(item.key())
                    && final(self).table() == old(self).table().update(j, 0),
    {
        let fp = self.fingerprint(item);
        let ia = self.primary_index(item);
        let ib = self.alternate_index(ia, fp);
        let ghost t0 = self.table();
        if self.remove_from_bucket(ia, fp) || self.remove_from_bucket(ib, fp) {
            proof {
                broadcast use to_multiset_update;
                let s = choose|j: int|
                    (ia * 4 <= j < ia * 4 + 4 || ib * 4 <= j < ib * 4 + 4) && #[trigger] t0[j] == fp && self.table() == t0.update(j, 0);
                assert(self.table().to_multiset() =~= t0.to_multiset().insert(0).remove(fp));
                assert(t0.to_multiset().insert(0).remove(fp) =~= t0.to_multiset().remove(fp).insert(0));
            }
            self.inserted_items = self.inserted_items.saturating_sub(1);
            return true;
        }
        false
    }

    /// Clears all buckets and resets the counter.
    pub fn clear(&mut self)
        requires
            old(self).wf(),
        ensures
            final(self).wf(),
            final(self).spec_bucket_count() == old(self).spec_bucket_count(),
            final(self).spec_fingerprint_bits() == old(self).spec_fingerprint_bits(),
            final(self).spec_inserted_items() == 0,
            final(self).table() == Seq::new(old(self).table().len(), |i: int| 0u16),
    {
        let n = self.slots.len();
        let mut i: usize = 0;
        while i < n
            invariant
                n == self.slots@.len(),
                self.bucket_count == old(self).bucket_count,
                self.fingerprint_bits == old(self).fingerprint_bits,
                self.max_kicks == old(self).max_kicks,
                self.wf(),
                i <= n,
                forall|t: int| 0 <= t < i ==> self.slots@[t] == 0u16,
            decreases n - i,
        {
            self.slots.set(i, 0);
            i = i + 1;
        }
        self.inserted_items = 0;
        assert(self.table() =~= Seq::new(old(self).table().len(), |i: int| 0u16));
    }
}

/// Deleting from a filter that holds nothing finds nothing: fingerprints are
/// never 0, and every slot of an empty filter is 0.
pub proof fn lemma_empty_filter_reports_nothing(f: CuckooFilter, key: Seq<u8>)
    requires
        f.wf(),
        forall|i: int| 0 <= i < f.table().len() ==> f.table()[i] == 0,
    ensures
        !f.reports(key),
{
    assert(f.fp_of(key) >= 1);
    if f.bucket_has(f.first_bucket(key), f.fp_of(key)) {
        let s = choose|s: int| 0 <= s < 4 && #[trigger] f.table()[(f.first_bucket(key) * 4 + s) as int] == f.fp_of(key);
        lemma_mask_bound(seeded_hash(key, INDEX_SEED), f.spec_bucket_count() as u64);
    }
    if f.bucket_has(f.second_bucket(key), f.fp_of(key)) {
        let s = choose|s: int| 0 <= s < 4 && #[trigger] f.table()[(f.second_bucket(key) * 4 + s) as int] == f.fp_of(key);
        lemma_mask_bound(
            (f.first_bucket(key) as u64) ^ seeded_hash((f.fp_of(key) as u64).key(), ALT_INDEX_SEED),
            f.spec_bucket_count() as u64,
        );
    }
}

} // verus!
