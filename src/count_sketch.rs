//! Count Sketch for signed approximate frequency estimation.
//!
//! Each row has one hash that selects a counter and one that selects a sign in
//! `{+1, -1}`. Point queries take the median of the sign-corrected counters.
use crate::counter_table::{
    cell, cell_index, clamp_i64, lemma_cell_in_row, saturating_add_i64, saturating_neg_i64,
};
use crate::hashing::{derive_seeds, family_seed, same_u64s, seeded_hash, seeded_hash64, SketchKey};
use crate::order::{median, sort_i64};
use crate::SketchError;
use vstd::prelude::*;

verus! {

pub const INDEX_SEED_BASE: u64 = 0x0D6E_8FD9_3A5E_4C31;

pub const SIGN_SEED_BASE: u64 = 0xA076_1D64_78BD_642F;

/// `|x|` of a signed value, as an unsigned one.
pub open spec fn magnitude(x: i64) -> u64 {
    if x < 0 {
        (-(x as int)) as u64
    } else {
        x as u64
    }
}

/// A value with a sign applied: unchanged for `+1`, negated (saturating) for `-1`.
pub open spec fn signed(sign: i64, x: i64) -> i64 {
    if sign == 1 {
        x
    } else {
        clamp_i64(-x)
    }
}

/// Approximate frequency sketch with support for signed updates.
#[derive(Debug, Clone)]
pub struct CountSketch {
    width: usize,
    depth: usize,
    counters: Vec<i64>,
    index_seeds: Vec<u64>,
    sign_seeds: Vec<u64>,
    total_update_magnitude: u64,
}

impl CountSketch {
    pub closed spec fn spec_width(&self) -> nat {
        self.width as nat
    }

    pub closed spec fn spec_depth(&self) -> nat {
        self.depth as nat
    }

    pub closed spec fn spec_total_update_magnitude(&self) -> u64 {
        self.total_update_magnitude
    }

    /// The counter table, row-major.
    pub closed spec fn table(&self) -> Seq<i64> {
        self.counters@
    }

    pub closed spec fn index_seed(&self, row: nat) -> u64 {
        self.index_seeds@[row as int]
    }

    pub closed spec fn sign_seed(&self, row: nat) -> u64 {
        self.sign_seeds@[row as int]
    }

    /// Validity: the shape and seed families that every sketch keeps.
    pub open spec fn wf(&self) -> bool {
        &&& self.spec_width() > 0
        &&& self.spec_depth() > 0
        &&& self.spec_width() * self.spec_depth() <= usize::MAX
        &&& self.table().len() == self.spec_width() * self.spec_depth()
        &&& forall|r: nat|
            r < self.spec_depth() ==> #[trigger] self.index_seed(r) == family_seed(INDEX_SEED_BASE, r)
        &&& forall|r: nat|
            r < self.spec_depth() ==> #[trigger] self.sign_seed(r) == family_seed(SIGN_SEED_BASE, r)
        &&& self.inner_wf()
    }

    pub closed spec fn inner_wf(&self) -> bool {
        &&& self.width > 0
        &&& self.depth > 0
        &&& self.width * self.depth <= usize::MAX
        &&& self.counters@.len() == self.width * self.depth
        &&& self.index_seeds@.len() == self.depth
        &&& self.sign_seeds@.len() == self.depth
        &&& forall|i: int|
            0 <= i < self.depth ==> self.index_seeds@[i] == family_seed(INDEX_SEED_BASE, i as nat)
        &&& forall|i: int|
            0 <= i < self.depth ==> self.sign_seeds@[i] == family_seed(SIGN_SEED_BASE, i as nat)
    }

    /// The cell that an item with encoding `key` selects in row `row`.
    pub open spec fn cell_of(&self, key: Seq<u8>, row: nat) -> nat {
        cell(self.spec_width(), row, seeded_hash(key, self.index_seed(row)))
    }

    /// The sign (`+1` or `-1`) of an item in row `row`.
    pub open spec fn sign_of(&self, key: Seq<u8>, row: nat) -> i64 {
        if seeded_hash(key, self.sign_seed(row)) & 1u64 == 0u64 {
            1
        } else {
            -1i64
        }
    }

    /// The sign-corrected counter of an item in each row.
    pub open spec fn row_estimates(&self, key: Seq<u8>) -> Seq<i64> {
        Seq::new(
            self.spec_depth(),
            |r: int| signed(self.sign_of(key, r as nat), self.table()[self.cell_of(key, r as nat) as int]),
        )
    }

    /// The point estimate: the median of the row estimates.
    pub open spec fn estimate_of(&self, key: Seq<u8>) -> i64 {
        median(self.row_estimates(key))
    }

    /// The table after adding the signed update to the item's cells in the
    /// first `n` rows.
    pub open spec fn bumped(&self, key: Seq<u8>, delta: i64, n: nat) -> Seq<i64> {
        Seq::new(
            self.table().len(),
            |j: int|
                {
                    let r = (j / (self.spec_width() as int)) as nat;
                    if r < n && j == self.cell_of(key, r) {
                        clamp_i64(self.table()[j] + signed(self.sign_of(key, r), delta))
                    } else {
                        self.table()[j]
                    }
                },
        )
    }

    /// Builds a sketch from explicit dimensions.
    pub fn with_dimensions(width: usize, depth: usize) -> (r: Result<Self, SketchError>)
        ensures
            width == 0 || depth == 0 || width * depth > usize::MAX ==> (r matches Err(
                SketchError::InvalidParameter(_),
            )),
            width > 0 && depth > 0 && width * depth <= usize::MAX ==> (r matches Ok(s) && s.wf()
                && s.spec_width() == width && s.spec_depth() == depth
                && s.spec_total_update_magnitude() == 0 && forall|j: int|
                0 <= j < s.table().len() ==> s.table()[j] == 0),
    {
        if width == 0 {
            return Err(SketchError::InvalidParameter("width must be greater than zero"));
        }
        if depth == 0 {
            return Err(SketchError::InvalidParameter("depth must be greater than zero"));
        }
        let table_len = match width.checked_mul(depth) {
            Some(n) => n,
            None => {
                return Err(SketchError::InvalidParameter("width * depth overflows usize"));
            },
        };
        let index_seeds = derive_seeds(depth, INDEX_SEED_BASE);
        let sign_seeds = derive_seeds(depth, SIGN_SEED_BASE);
        Ok(
            CountSketch {
                width,
                depth,
                counters: vec![0i64; table_len],
                index_seeds,
                sign_seeds,
                total_update_magnitude: 0,
            },
        )
    }

    /// Returns the number of columns per row.
    pub fn width(&self) -> (r: usize)
        ensures
            r == self.spec_width(),
    {
        self.width
    }

    /// Returns the number of rows.
    pub fn depth(&self) -> (r: usize)
        ensures
            r == self.spec_depth(),
    {
        self.depth
    }

    /// Returns the total absolute update magnitude inserted so far (saturating).
    pub fn total_update_magnitude(&self) -> (r: u64)
        ensures
            r == self.spec_total_update_magnitude(),
    {
        self.total_update_magnitude
    }

    /// Returns `true` if no non-zero update has been observed.
    pub fn is_empty(&self) -> (r: bool)
        ensures
            r == (self.spec_total_update_magnitude() == 0),
    {
        self.total_update_magnitude == 0
    }

    fn counter_index<T: SketchKey + ?Sized>(&self, row: usize, item: &T) -> (r: usize)
        requires
            self.wf(),
            row < self.spec_depth(),
        ensures
            r == self.cell_of(item.key(), row as nat),
            r < self.table().len(),
    {
        let h = seeded_hash64(item, self.index_seeds[row]);
        cell_index(self.width, self.depth, row, h)
    }

    fn sign<T: SketchKey + ?Sized>(&self, row: usize, item: &T) -> (r: i64)
        requires
            self.wf(),
            row < self.spec_depth(),
        ensures
            r == self.sign_of(item.key(), row as nat),
    {
        if seeded_hash64(item, self.sign_seeds[row]) & 1u64 == 0u64 {
            1
        } else {
            -1
        }
    }

    /// Adds a signed update for an item: each row's selected counter moves by
    /// `delta` times the row's sign, saturating at the bounds of `i64`.
    pub fn add<T: SketchKey + ?Sized>(&mut self, item: &T, delta: i64)
        requires
            old(self).wf(),
        ensures
            final(self).wf(),
            final(self).spec_width() == old(self).spec_width(),
            final(self).spec_depth() == old(self).spec_depth(),
            forall|r: nat| #[trigger] final(self).index_seed(r) == old(self).index_seed(r),
            forall|r: nat| #[trigger] final(self).sign_seed(r) == old(self).sign_seed(r),
            delta == 0 ==> *final(self) == *old(self),
            delta != 0 ==> final(self).table() == old(self).bumped(
                item.key(),
                delta,
                old(self).spec_depth(),
            ),
            delta != 0 ==> final(self).spec_total_update_magnitude() == old(
                self,
            ).spec_total_update_magnitude().saturating_add(magnitude(delta)),
    {
        if delta == 0 {
            return;
        }
        let ghost key = item.key();
        let mut row: usize = 0;
        while row < self.depth
            invariant
                self.wf(),
                key == item.key(),
                self.width == old(self).width,
                self.depth == old(self).depth,
                self.index_seeds == old(self).index_seeds,
                self.sign_seeds == old(self).sign_seeds,
                self.total_update_magnitude == old(self).total_update_magnitude,
                row <= self.spec_depth(),
                self.table() == old(self).bumped(key, delta, row as nat),
            decreases self.spec_depth() - row,
        {
            let idx = self.counter_index(row, item);
            proof {
                lemma_cell_in_row(
                    self.spec_width(),
                    self.spec_depth(),
                    row as nat,
                    seeded_hash(key, self.index_seed(row as nat)),
                );
            }
            let signed_delta = if self.sign(row, item) == 1 {
                delta
            } else {
                saturating_neg_i64(delta)
            };
            let c = saturating_add_i64(self.counters[idx], signed_delta);
            self.counters.set(idx, c);
            proof {
                assert forall|j: int| 0 <= j < self.table().len() implies self.table()[j] == old(
                    self,
                ).bumped(key, delta, (row + 1) as nat)[j] by {
                    if j == idx as int {
                        assert(j / (self.spec_width() as int) == row);
                    } else {
                        assert(self.table()[j] == old(self).bumped(key, delta, row as nat)[j]);
                    }
                }
                assert(self.table() =~= old(self).bumped(key, delta, (row + 1) as nat));
            }
            row = row + 1;
        }
        let m: u64 = if delta < 0 {
            (-(delta as i128)) as u64
        } else {
            delta as u64
        };
        self.total_update_magnitude = self.total_update_magnitude.saturating_add(m);
    }

    /// Adds one occurrence of an item.
    pub fn increment<T: SketchKey + ?Sized>(&mut self, item: &T)
        requires
            old(self).wf(),
        ensures
            final(self).wf(),
            final(self).spec_width() == old(self).spec_width(),
            final(self).spec_depth() == old(self).spec_depth(),
            forall|r: nat| #[trigger] final(self).index_seed(r) == old(self).index_seed(r),
            forall|r: nat| #[trigger] final(self).sign_seed(r) == old(self).sign_seed(r),
            final(self).table() == old(self).bumped(item.key(), 1, old(self).spec_depth()),
            final(self).spec_total_update_magnitude() == old(
                self,
            ).spec_total_update_magnitude().saturating_add(1),
    {
        self.add(item, 1);
    }

    /// Removes one occurrence of an item.
    pub fn decrement<T: SketchKey + ?Sized>(&mut self, item: &T)
        requires
            old(self).wf(),
        ensures
            final(self).wf(),
            final(self).spec_width() == old(self).spec_width(),
            final(self).spec_depth() == old(self).spec_depth(),
            forall|r: nat| #[trigger] final(self).index_seed(r) == old(self).index_seed(r),
            forall|r: nat| #[trigger] final(self).sign_seed(r) == old(self).sign_seed(r),
            final(self).table() == old(self).bumped(item.key(), -1i64, old(self).spec_depth()),
            final(self).spec_total_update_magnitude() == old(
                self,
            ).spec_total_update_magnitude().saturating_add(1),
    {
        self.add(item, -1);
    }

    /// Returns the median estimate for the item's signed count.
    pub fn estimate<T: SketchKey + ?Sized>(&self, item: &T) -> (r: i64)
        requires
            self.wf(),
        ensures
            r == self.estimate_of(item.key()),
    {
        let mut estimates: Vec<i64> = Vec::new();
        let mut row: usize = 0;
        while row < self.depth
            invariant
                self.wf(),
                row <= self.spec_depth(),
                estimates@ == self.row_estimates(item.key()).subrange(0, row as int),
            decreases self.spec_depth() - row,
        {
            let idx = self.counter_index(row, item);
            let c = self.counters[idx];
            let v = if self.sign(row, item) == 1 {
                c
            } else {
                saturating_neg_i64(c)
            };
            estimates.push(v);
            row = row + 1;
            assert(estimates@ =~= self.row_estimates(item.key()).subrange(0, row as int));
        }
        assert(estimates@ =~= self.row_estimates(item.key()));
        let sorted = sort_i64(&estimates);
        let mid = sorted.len() / 2;
        if sorted.len() % 2 == 1 {
            sorted[mid]
        } else {
            let s = sorted[mid - 1] as i128 + sorted[mid] as i128;
            if s >= 0 {
                (s / 2) as i64
            } else {
                (-((-s) / 2)) as i64
            }
        }
    }

    /// Clears all counters and update metadata.
    pub fn clear(&mut self)
        requires
            old(self).wf(),
        ensures
            final(self).wf(),
            final(self).spec_width() == old(self).spec_width(),
            final(self).spec_depth() == old(self).spec_depth(),
            final(self).spec_total_update_magnitude() == 0,
            final(self).table().len() == old(self).table().len(),
            forall|j: int| 0 <= j < final(self).table().len() ==> final(self).table()[j] == 0,
    {
        let n = self.counters.len();
        let mut i: usize = 0;
        while i < n
            invariant
                n == self.counters@.len(),
                self.width == old(self).width,
                self.depth == old(self).depth,
                self.index_seeds == old(self).index_seeds,
                self.sign_seeds == old(self).sign_seeds,
                self.wf(),
                i <= n,
                forall|t: int| 0 <= t < i ==> self.counters@[t] == 0i64,
            decreases n - i,
        {
            self.counters.set(i, 0);
            i = i + 1;
        }
        self.total_update_magnitude = 0;
    }

    /// Merges another sketch into this one by element-wise saturating addition.
    pub fn merge(&mut self, other: &Self) -> (r: Result<(), SketchError>)
        requires
            old(self).wf(),
            other.wf(),
        ensures
            final(self).wf(),
            final(self).spec_width() == old(self).spec_width(),
            final(self).spec_depth() == old(self).spec_depth(),
            forall|r: nat| #[trigger] final(self).index_seed(r) == old(self).index_seed(r),
            forall|r: nat| #[trigger] final(self).sign_seed(r) == old(self).sign_seed(r),
            (old(self).spec_width() != other.spec_width() || old(self).spec_depth()
                != other.spec_depth()) ==> (r matches Err(SketchError::IncompatibleSketches(_))
                && *final(self) == *old(self)),
            (old(self).spec_width() == other.spec_width() && old(self).spec_depth()
                == other.spec_depth()) ==> (r is Ok
                && final(self).spec_total_update_magnitude() == old(
                self,
            ).spec_total_update_magnitude().saturating_add(other.spec_total_update_magnitude())
                && final(self).table().len() == old(self).table().len() && forall|j: int|
                0 <= j < old(self).table().len() ==> final(self).table()[j] == clamp_i64(
                    old(self).table()[j] + other.table()[j],
                )),
    {
        if self.width != other.width || self.depth != other.depth {
            return Err(SketchError::IncompatibleSketches("width/depth must match for merge"));
        }
        assert(self.index_seeds@ =~= other.index_seeds@);
        assert(self.sign_seeds@ =~= other.sign_seeds@);
        if !same_u64s(self.index_seeds.as_slice(), other.index_seeds.as_slice()) || !same_u64s(
            self.sign_seeds.as_slice(),
            other.sign_seeds.as_slice(),
        ) {
            return Err(SketchError::IncompatibleSketches("hash seeds must match for merge"));
        }
        let n = self.counters.len();
        let mut i: usize = 0;
        while i < n
            invariant
                n == self.counters@.len(),
                n == other.counters@.len(),
                self.width == old(self).width,
                self.depth == old(self).depth,
                self.index_seeds == old(self).index_seeds,
                self.sign_seeds == old(self).sign_seeds,
                self.total_update_magnitude == old(self).total_update_magnitude,
                self.wf(),
                i <= n,
                forall|t: int|
                    0 <= t < i ==> self.counters@[t] == clamp_i64(
                        old(self).counters@[t] + other.counters@[t],
                    ),
                forall|t: int| i <= t < n ==> self.counters@[t] == old(self).counters@[t],
            decreases n - i,
        {
            let c = saturating_add_i64(self.counters[i], other.counters[i]);
            self.counters.set(i, c);
            i = i + 1;
        }
        self.total_update_magnitude = self.total_update_magnitude.saturating_add(
            other.total_update_magnitude,
        );
        Ok(())
    }
}

/// Merging sums the counters cell by cell: wherever the two counters add up
/// within the range of `i64`, the merged counter is exactly their sum, so an
/// item's per-row counters are the sums of its counters in the two sketches.
pub proof fn lemma_merge_sums_counters(
    left: CountSketch,
    right: CountSketch,
    merged: CountSketch,
    key: Seq<u8>,
    row: nat,
)
    requires
        left.wf(),
        right.wf(),
        merged.wf(),
        left.spec_width() == right.spec_width(),
        left.spec_depth() == right.spec_depth(),
        merged.spec_width() == left.spec_width(),
        merged.spec_depth() == left.spec_depth(),
        merged.table().len() == left.table().len(),
        forall|j: int|
            0 <= j < left.table().len() ==> merged.table()[j] == clamp_i64(
                left.table()[j] + right.table()[j],
            ),
        row < left.spec_depth(),
        i64::MIN <= left.table()[left.cell_of(key, row) as int] + right.table()[right.cell_of(
            key,
            row,
        ) as int] <= i64::MAX,
    ensures
        merged.table()[merged.cell_of(key, row) as int] == left.table()[left.cell_of(key, row) as int]
            + right.table()[right.cell_of(key, row) as int],
{
    assert(left.index_seed(row) == right.index_seed(row));
    assert(merged.index_seed(row) == left.index_seed(row));
    lemma_cell_in_row(left.spec_width(), left.spec_depth(), row, seeded_hash(key, left.index_seed(row)));
}

} // verus!
