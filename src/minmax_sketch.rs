//! Count-Min style frequency sketch with conservative update and min/max views.
use crate::counter_table::{cell, cell_index, lemma_cell_in_row};
use crate::hashing::{derive_seeds, family_seed, same_u64s, seeded_hash, seeded_hash64, SketchKey};
use crate::SketchError;
use vstd::prelude::*;

verus! {

pub const ROW_SEED_BASE: u64 = 0xA076_1D64_78BD_642F;

/// Approximate frequency sketch with min/max counter views.
#[derive(Debug, Clone)]
pub struct MinMaxSketch {
    width: usize,
    depth: usize,
    counters: Vec<u64>,
    seeds: Vec<u64>,
    total_count: u64,
}

impl MinMaxSketch {
    pub closed spec fn spec_width(&self) -> nat {
        self.width as nat
    }

    pub closed spec fn spec_depth(&self) -> nat {
        self.depth as nat
    }

    pub closed spec fn spec_total_count(&self) -> u64 {
        self.total_count
    }

    /// The counter table, row-major.
    pub closed spec fn table(&self) -> Seq<u64> {
        self.counters@
    }

    /// The seed of each row.
    pub closed spec fn row_seeds(&self) -> Seq<u64> {
        self.seeds@
    }

    /// Validity: the shape and seed family that every sketch keeps.
    pub open spec fn wf(&self) -> bool {
        &&& self.spec_width() > 0
        &&& self.spec_depth() > 0
        &&& self.spec_width() * self.spec_depth() <= usize::MAX
        &&& self.table().len() == self.spec_width() * self.spec_depth()
        &&& self.row_seeds().len() == self.spec_depth()
        &&& forall|r: int|
            0 <= r < self.spec_depth() ==> #[trigger] self.row_seeds()[r] == family_seed(ROW_SEED_BASE, r as nat)
        &&& self.inner_wf()
    }

    pub closed spec fn inner_wf(&self) -> bool {
        &&& self.width > 0
        &&& self.depth > 0
        &&& self.width * self.depth <= usize::MAX
        &&& self.counters@.len() == self.width * self.depth
        &&& self.seeds@.len() == self.depth
        &&& forall|i: int| 0 <= i < self.depth ==> self.seeds@[i] == family_seed(ROW_SEED_BASE, i as nat)
    }

    /// The cell that an item with encoding `key` selects in row `row`.
    pub open spec fn cell_of(&self, key: Seq<u8>, row: nat) -> nat {
        cell(self.spec_width(), row, seeded_hash(key, self.row_seeds()[row as int]))
    }

    /// The counter of row `row` for `key`.
    pub open spec fn counter_of(&self, key: Seq<u8>, row: nat) -> u64 {
        self.table()[self.cell_of(key, row) as int]
    }

    /// Minimum of the item's counters over the first `n` rows (`u64::MAX` for none).
    pub open spec fn min_rows(&self, key: Seq<u8>, n: nat) -> u64
        decreases n,
    {
        if n == 0 {
            u64::MAX
        } else {
            let m = self.min_rows(key, (n - 1) as nat);
            let c = self.counter_of(key, (n - 1) as nat);
            if c < m {
                c
            } else {
                m
            }
        }
    }

    /// Maximum of the item's counters over the first `n` rows (0 for none).
    pub open spec fn max_rows(&self, key: Seq<u8>, n: nat) -> u64
        decreases n,
    {
        if n == 0 {
            0
        } else {
            let m = self.max_rows(key, (n - 1) as nat);
            let c = self.counter_of(key, (n - 1) as nat);
            if c > m {
                c
            } else {
                m
            }
        }
    }

    /// The point estimate: the minimum counter over all rows.
    pub open spec fn estimate_of(&self, key: Seq<u8>) -> u64 {
        self.min_rows(key, self.spec_depth())
    }

    /// The loose estimate: the maximum counter over all rows.
    pub open spec fn max_estimate_of(&self, key: Seq<u8>) -> u64 {
        self.max_rows(key, self.spec_depth())
    }

    /// The table after conservatively raising the item's cells in the first
    /// `n` rows to at least `target`.
    pub open spec fn raised(&self, key: Seq<u8>, target: u64, n: nat) -> Seq<u64> {
        Seq::new(
            self.table().len(),
            |j: int|
                if j / (self.spec_width() as int) < n && j == self.cell_of(
                    key,
                    (j / (self.spec_width() as int)) as nat,
                ) && self.table()[j] < target {
                    target
                } else {
                    self.table()[j]
                },
        )
    }

    /// Builds a sketch from explicit dimensions.
    pub fn with_dimensions(width: usize, depth: usize) -> (r: Result<Self, SketchError>)
        ensures
            width == 0 || depth == 0 || width * depth > usize::MAX ==> (r matches Err(
                SketchError::InvalidParameter(_),
            )),
            width > 0 && depth > 0 && width * depth <= usize::MAX ==> (r matches Ok(s) && s.wf()
                && s.spec_width() == width && s.spec_depth() == depth && s.spec_total_count() == 0
                && forall|j: int| 0 <= j < s.table().len() ==> s.table()[j] == 0),
    {
        if width == 0 {
            return Err(SketchError::InvalidParameter("width must be greater than zero"));
        }
        if depth == 0 {
            return Err(SketchError::InvalidParameter("depth must be greater than zero"));
        }
        let table_len = match width.checked_mul(depth) {
            Some(n) => n,
            None => {
                return Err(SketchError::InvalidParameter("width * depth overflows usize"));
            },
        };
        let seeds = derive_seeds(depth, ROW_SEED_BASE);
        Ok(MinMaxSketch { width, depth, counters: vec![0u64; table_len], seeds, total_count: 0 })
    }

    /// Returns the number of columns per hash row.
    pub fn width(&self) -> (r: usize)
        ensures
            r == self.spec_width(),
    {
        self.width
    }

    /// Returns the number of hash rows.
    pub fn depth(&self) -> (r: usize)
        ensures
            r == self.spec_depth(),
    {
        self.depth
    }

    /// Returns the total inserted count (saturating).
    pub fn total_count(&self) -> (r: u64)
        ensures
            r == self.spec_total_count(),
    {
        self.total_count
    }

    /// Returns `true` when no positive count has been inserted.
    pub fn is_empty(&self) -> (r: bool)
        ensures
            r == (self.spec_total_count() == 0),
    {
        self.total_count == 0
    }

    fn counter_index<T: SketchKey + ?Sized>(&self, row: usize, item: &T) -> (r: usize)
        requires
            self.wf(),
            row < self.spec_depth(),
        ensures
            r == self.cell_of(item.key(), row as nat),
            r < self.table().len(),
    {
        let h = seeded_hash64(item, self.seeds[row]);
        cell_index(self.width, self.depth, row, h)
    }

    /// Returns the tightest estimate for an item count: the minimum counter
    /// across all rows.
    pub fn estimate<T: SketchKey + ?Sized>(&self, item: &T) -> (r: u64)
        requires
            self.wf(),
        ensures
            r == self.estimate_of(item.key()),
    {
        let mut min_counter = u64::MAX;
        let mut row: usize = 0;
        while row < self.depth
            invariant
                self.wf(),
                row <= self.spec_depth(),
                min_counter == self.min_rows(item.key(), row as nat),
            decreases self.spec_depth() - row,
        {
            let idx = self.counter_index(row, item);
            let c = self.counters[idx];
            if c < min_counter {
                min_counter = c;
            }
            row = row + 1;
        }
        min_counter
    }

    /// Returns the loosest estimate for an item count: the maximum counter
    /// across all rows.
    pub fn max_estimate<T: SketchKey + ?Sized>(&self, item: &T) -> (r: u64)
        requires
            self.wf(),
        ensures
            r == self.max_estimate_of(item.key()),
    {
        let mut max_counter = 0u64;
        let mut row: usize = 0;
        while row < self.depth
            invariant
                self.wf(),
                row <= self.spec_depth(),
                max_counter == self.max_rows(item.key(), row as nat),
            decreases self.spec_depth() - row,
        {
            let idx = self.counter_index(row, item);
            let c = self.counters[idx];
            if c > max_counter {
                max_counter = c;
            }
            row = row + 1;
        }
        max_counter
    }

    /// Returns `(min_estimate, max_estimate)` for an item.
    pub fn estimate_interval<T: SketchKey + ?Sized>(&self, item: &T) -> (r: (u64, u64))
        requires
            self.wf(),
        ensures
            r.0 == self.estimate_of(item.key()),
            r.1 == self.max_estimate_of(item.key()),
            r.0 <= r.1,
    {
        proof {
            self.lemma_min_le_max(item.key(), self.spec_depth());
        }
        (self.estimate(item), self.max_estimate(item))
    }

    proof fn lemma_min_le_max(&self, key: Seq<u8>, n: nat)
        requires
            n > 0,
        ensures
            self.min_rows(key, n) <= self.max_rows(key, n),
        decreases n,
    {
        if n > 1 {
            self.lemma_min_le_max(key, (n - 1) as nat);
        }
    }

    /// Adds `count` occurrences of an item with conservative update: every
    /// row's counter is raised to at least `estimate + count` (saturating).
    pub fn add<T: SketchKey + ?Sized>(&mut self, item: &T, count: u64)
        requires
            old(self).wf(),
        ensures
            final(self).wf(),
            final(self).spec_width() == old(self).spec_width(),
            final(self).spec_depth() == old(self).spec_depth(),
            final(self).row_seeds() == old(self).row_seeds(),
            count == 0 ==> *final(self) == *old(self),
            count > 0 ==> final(self).table() == old(self).raised(
                item.key(),
                old(self).estimate_of(item.key()).saturating_add(count),
                old(self).spec_depth(),
            ),
            count > 0 ==> final(self).spec_total_count() == old(
                self,
            ).spec_total_count().saturating_add(count),
    {
        if count == 0 {
            return;
        }
        let ghost key = item.key();
        let min_counter = self.estimate(item);
        let target = min_counter.saturating_add(count);
        let mut row: usize = 0;
        while row < self.depth
            invariant
                self.wf(),
                key == item.key(),
                self.width == old(self).width,
                self.depth == old(self).depth,
                self.seeds == old(self).seeds,
                self.total_count == old(self).total_count,
                row <= self.spec_depth(),
                self.table() == old(self).raised(key, target, row as nat),
            decreases self.spec_depth() - row,
        {
            let idx = self.counter_index(row, item);
            proof {
                lemma_cell_in_row(
                    self.spec_width(),
                    self.spec_depth(),
                    row as nat,
                    seeded_hash(key, self.row_seeds()[row as int]),
                );
            }
            if self.counters[idx] < target {
                self.counters.set(idx, target);
            }
            proof {
                assert forall|j: int| 0 <= j < self.table().len() implies self.table()[j] == old(
                    self,
                ).raised(key, target, (row + 1) as nat)[j] by {
                    if j == idx as int {
                        assert(j / (self.spec_width() as int) == row);
                    } else {
                        assert(self.table()[j] == old(self).raised(key, target, row as nat)[j]);
                    }
                }
                assert(self.table() =~= old(self).raised(key, target, (row + 1) as nat));
            }
            row = row + 1;
        }
        self.total_count = self.total_count.saturating_add(count);
    }

    /// Adds exactly one occurrence of an item.
    pub fn increment<T: SketchKey + ?Sized>(&mut self, item: &T)
        requires
            old(self).wf(),
        ensures
            final(self).wf(),
            final(self).spec_width() == old(self).spec_width(),
            final(self).spec_depth() == old(self).spec_depth(),
            final(self).row_seeds() == old(self).row_seeds(),
            final(self).table() == old(self).raised(
                item.key(),
                old(self).estimate_of(item.key()).saturating_add(1),
                old(self).spec_depth(),
            ),
            final(self).spec_total_count() == old(self).spec_total_count().saturating_add(1),
    {
        self.add(item, 1);
    }

    /// Resets all counters and total count to zero.
    pub fn clear(&mut self)
        requires
            old(self).wf(),
        ensures
            final(self).wf(),
            final(self).spec_width() == old(self).spec_width(),
            final(self).spec_depth() == old(self).spec_depth(),
            final(self).row_seeds() == old(self).row_seeds(),
            final(self).spec_total_count() == 0,
            final(self).table().len() == old(self).table().len(),
            forall|j: int| 0 <= j < final(self).table().len() ==> final(self).table()[j] == 0,
    {
        let n = self.counters.len();
        let mut i: usize = 0;
        while i < n
            invariant
                n == self.counters@.len(),
                self.width == old(self).width,
                self.depth == old(self).depth,
                self.seeds == old(self).seeds,
                self.wf(),
                i <= n,
                forall|t: int| 0 <= t < i ==> self.counters@[t] == 0u64,
            decreases n - i,
        {
            self.counters.set(i, 0);
            i = i + 1;
        }
        self.total_count = 0;
    }

    /// Merges another sketch into this one by element-wise saturating addition.
    pub fn merge(&mut self, other: &Self) -> (r: Result<(), SketchError>)
        requires
            old(self).wf(),
            other.wf(),
        ensures
            final(self).wf(),
            final(self).spec_width() == old(self).spec_width(),
            final(self).spec_depth() == old(self).spec_depth(),
            final(self).row_seeds() == old(self).row_seeds(),
            (old(self).spec_width() != other.spec_width() || old(self).spec_depth()
                != other.spec_depth()) ==> (r matches Err(SketchError::IncompatibleSketches(_))
                && *final(self) == *old(self)),
            (old(self).spec_width() == other.spec_width() && old(self).spec_depth()
                == other.spec_depth()) ==> (r is Ok && final(self).spec_total_count() == old(
                self,
            ).spec_total_count().saturating_add(other.spec_total_count()) && final(self).table().len()
                == old(self).table().len() && forall|j: int|
                0 <= j < old(self).table().len() ==> final(self).table()[j] == old(
                    self,
                ).table()[j].saturating_add(other.table()[j])),
    {
        if self.width != other.width || self.depth != other.depth {
            return Err(SketchError::IncompatibleSketches("width/depth must match for merge"));
        }
        assert(self.seeds@ =~= other.seeds@);
        if !same_u64s(self.seeds.as_slice(), other.seeds.as_slice()) {
            return Err(SketchError::IncompatibleSketches("hash seeds must match for merge"));
        }
        let n = self.counters.len();
        let mut i: usize = 0;
        while i < n
            invariant
                n == self.counters@.len(),
                n == other.counters@.len(),
                self.width == old(self).width,
                self.depth == old(self).depth,
                self.seeds == old(self).seeds,
                self.total_count == old(self).total_count,
                self.wf(),
                i <= n,
                forall|t: int|
                    0 <= t < i ==> self.counters@[t] == old(self).counters@[t].saturating_add(
                        other.counters@[t],
                    ),
                forall|t: int| i <= t < n ==> self.counters@[t] == old(self).counters@[t],
            decreases n - i,
        {
            let c = self.counters[i].saturating_add(other.counters[i]);
            self.counters.set(i, c);
            i = i + 1;
        }
        self.total_count = self.total_count.saturating_add(other.total_count);
        Ok(())
    }
}

/// Every cell of `after` is at least the matching cell of `before`, which
/// raises each item's row minimum; on the raised item's own cells, the new
/// counter is the maximum of the old one and `target`.
proof fn lemma_raised_rows(
    before: MinMaxSketch,
    after: MinMaxSketch,
    key: Seq<u8>,
    target: u64,
    probe_key: Seq<u8>,
    n: nat,
)
    requires
        before.wf(),
        after.wf(),
        after.spec_width() == before.spec_width(),
        after.spec_depth() == before.spec_depth(),
        after.row_seeds() == before.row_seeds(),
        after.table() == before.raised(key, target, before.spec_depth()),
        n <= before.spec_depth(),
    ensures
        after.min_rows(probe_key, n) >= before.min_rows(probe_key, n),
        after.min_rows(key, n) == (if before.min_rows(key, n) < target {
            target
        } else {
            before.min_rows(key, n)
        }),
    decreases n,
{
    if n > 0 {
        let r = (n - 1) as nat;
        lemma_raised_rows(before, after, key, target, probe_key, r);
        lemma_cell_in_row(
            before.spec_width(),
            before.spec_depth(),
            r,
            seeded_hash(key, before.row_seeds()[r as int]),
        );
        lemma_cell_in_row(
            before.spec_width(),
            before.spec_depth(),
            r,
            seeded_hash(probe_key, before.row_seeds()[r as int]),
        );
        let j = before.cell_of(key, r) as int;
        assert(j / (before.spec_width() as int) == r);
        assert(after.counter_of(key, r) == (if before.counter_of(key, r) < target {
            target
        } else {
            before.counter_of(key, r)
        }));
        assert(after.counter_of(probe_key, r) >= before.counter_of(probe_key, r));
    }
}

/// Conservative update never under-counts: adding `count` occurrences of an
/// item raises its estimate by exactly `count` (saturating at `u64::MAX`),
/// and no item's estimate ever drops. So an estimate that was at least an
/// item's true count stays at least its true count after any add.
pub proof fn lemma_estimate_never_below_true_count(
    before: MinMaxSketch,
    after: MinMaxSketch,
    key: Seq<u8>,
    count: u64,
    probe_key: Seq<u8>,
    true_count: u64,
)
    requires
        before.wf(),
        after.wf(),
        after.spec_width() == before.spec_width(),
        after.spec_depth() == before.spec_depth(),
        after.row_seeds() == before.row_seeds(),
        after.table() == before.raised(
            key,
            before.estimate_of(key).saturating_add(count),
            before.spec_depth(),
        ),
        before.estimate_of(probe_key) >= true_count,
    ensures
        after.estimate_of(key) == before.estimate_of(key).saturating_add(count),
        after.estimate_of(probe_key) >= (if probe_key == key {
            true_count.saturating_add(count)
        } else {
            true_count
        }),
{
    let target = before.estimate_of(key).saturating_add(count);
    lemma_raised_rows(before, after, key, target, probe_key, before.spec_depth());
}

} // verus!
