//! Space-Saving sketch for approximate heavy hitters.
//!
//! At most `capacity` counters are kept. A new item arriving at a full sketch
//! takes over the counter with the smallest count, inheriting that count as
//! its error bound.
use crate::hashing::{same_bytes, TrackedItem};
use crate::order::{last_score, min_len, top_indices};
use crate::SketchError;
use vstd::prelude::*;

verus! {

/// One tracked counter as seen by contracts: `(key, count, error)`.
pub type Row = (Seq<u8>, u64, u64);

/// The keys of items handed out by `top_k`, in order.
pub open spec fn reported_keys<T: TrackedItem>(r: Seq<(T, u64, u64)>) -> Seq<Seq<u8>> {
    r.map_values(|x: (T, u64, u64)| x.0.key())
}

/// Sum of the counts of all rows.
pub open spec fn row_sum(rows: Seq<Row>) -> nat
    decreases rows.len(),
{
    if rows.len() == 0 {
        0
    } else {
        (row_sum(rows.drop_last()) + rows.last().1) as nat
    }
}

/// `x`, saturated at `u64::MAX`.
pub open spec fn clamp_u64(x: int) -> u64 {
    if x > u64::MAX {
        u64::MAX
    } else {
        x as u64
    }
}

proof fn lemma_row_sum_update(s: Seq<Row>, i: int, v: Row)
    requires
        0 <= i < s.len(),
    ensures
        row_sum(s.update(i, v)) == row_sum(s) - s[i].1 + v.1,
        row_sum(s) >= s[i].1,
    decreases s.len(),
{
    if i == s.len() - 1 {
        assert(s.update(i, v).drop_last() =~= s.drop_last());
    } else {
        lemma_row_sum_update(s.drop_last(), i, v);
        assert(s.update(i, v).drop_last() =~= s.drop_last().update(i, v));
    }
}

proof fn lemma_row_sum_push(s: Seq<Row>, v: Row)
    ensures
        row_sum(s.push(v)) == row_sum(s) + v.1,
{
    assert(s.push(v).drop_last() =~= s);
}

/// Whether some row holds `key`.
pub open spec fn tracks(rows: Seq<Row>, key: Seq<u8>) -> bool {
    exists|i: int| 0 <= i < rows.len() && #[trigger] rows[i].0 == key
}

/// First position of a smallest count among the first `n` rows.
pub open spec fn min_position(rows: Seq<Row>, n: nat) -> int
    decreases n,
{
    if n <= 1 {
        0
    } else {
        let m = min_position(rows, (n - 1) as nat);
        if rows[n - 1].1 < rows[m].1 {
            n - 1
        } else {
            m
        }
    }
}

/// The rows after adding `count > 0` occurrences of `key` to a sketch of
/// capacity `cap`: a tracked key's count grows; an untracked key gets a new
/// counter while there is room, and otherwise takes over the first
/// smallest counter, whose count becomes its error.
pub open spec fn rows_after_add(rows: Seq<Row>, cap: nat, key: Seq<u8>, count: u64) -> Seq<Row> {
    if count == 0 {
        rows
    } else if tracks(rows, key) {
        let i = choose|i: int| 0 <= i < rows.len() && #[trigger] rows[i].0 == key;
        rows.update(i, (key, rows[i].1.saturating_add(count), rows[i].2))
    } else if rows.len() < cap {
        rows.push((key, count, 0))
    } else {
        let v = min_position(rows, rows.len());
        rows.update(v, (key, rows[v].1.saturating_add(count), rows[v].1))
    }
}

/// The rows after adding each `(key, count)` pair in order.
pub open spec fn rows_after_all(rows: Seq<Row>, cap: nat, adds: Seq<Row>) -> Seq<Row>
    decreases adds.len(),
{
    if adds.len() == 0 {
        rows
    } else {
        let last = adds.last();
        rows_after_add(rows_after_all(rows, cap, adds.drop_last()), cap, last.0, last.1)
    }
}

proof fn lemma_min_position(rows: Seq<Row>, n: nat)
    requires
        0 < n <= rows.len(),
    ensures
        0 <= min_position(rows, n) < n,
        forall|t: int| 0 <= t < n ==> rows[min_position(rows, n)].1 <= #[trigger] rows[t].1,
    decreases n,
{
    if n > 1 {
        lemma_min_position(rows, (n - 1) as nat);
    }
}

/// One tracked counter.
#[derive(Debug, Clone)]
pub struct Counter<T> {
    item: T,
    key: Vec<u8>,
    count: u64,
    error: u64,
}

/// Approximate top-k tracker using the Space-Saving algorithm.
#[derive(Debug, Clone)]
pub struct SpaceSaving<T> {
    capacity: usize,
    counters: Vec<Counter<T>>,
    total_count: u64,
}

impl<T: TrackedItem> SpaceSaving<T> {
    pub closed spec fn spec_capacity(&self) -> nat {
        self.capacity as nat
    }

    pub closed spec fn spec_total_count(&self) -> u64 {
        self.total_count
    }

    /// The tracked counters, as `(key, count, error)`.
    pub closed spec fn rows(&self) -> Seq<Row> {
        self.counters@.map_values(|c: Counter<T>| (c.key@, c.count, c.error))
    }

    /// Validity: a positive capacity that the counters never exceed, distinct
    /// keys, errors no larger than counts, and a total equal to the sum of the
    /// counts (saturating at `u64::MAX`).
    pub open spec fn wf(&self) -> bool {
        &&& self.spec_capacity() > 0
        &&& self.rows().len() <= self.spec_capacity()
        &&& forall|i: int, j: int|
            0 <= i < j < self.rows().len() ==> #[trigger] self.rows()[i].0 != #[trigger] self.rows()[j].0
        &&& forall|i: int| 0 <= i < self.rows().len() ==> #[trigger] self.rows()[i].2 <= self.rows()[i].1
        &&& self.spec_total_count() == clamp_u64(row_sum(self.rows()) as int)
        &&& self.inner_wf()
    }

    pub closed spec fn inner_wf(&self) -> bool {
        &&& self.capacity > 0
        &&& self.counters@.len() <= self.capacity
        &&& forall|i: int| 0 <= i < self.counters@.len() ==> #[trigger] self.counters@[i].key@ == self.counters@[i].item.key()
        &&& forall|i: int, j: int|
            0 <= i < j < self.counters@.len() ==> #[trigger] self.counters@[i].key@ != #[trigger] self.counters@[j].key@
    }

    /// The count and error tracked for `key`, if any.
    pub open spec fn entry_of(&self, key: Seq<u8>) -> Option<(u64, u64)> {
        if tracks(self.rows(), key) {
            let i = choose|i: int| 0 <= i < self.rows().len() && #[trigger] self.rows()[i].0 == key;
            Some((self.rows()[i].1, self.rows()[i].2))
        } else {
            None
        }
    }

    /// Creates a sketch with the given number of tracked counters.
    pub fn new(capacity: usize) -> (r: Result<Self, SketchError>)
        ensures
            capacity == 0 ==> (r matches Err(SketchError::InvalidParameter(_))),
            capacity > 0 ==> (r matches Ok(s) && s.wf() && s.spec_capacity() == capacity
                && s.rows().len() == 0 && s.spec_total_count() == 0),
    {
        if capacity == 0 {
            return Err(SketchError::InvalidParameter("capacity must be greater than zero"));
        }
        Ok(SpaceSaving { capacity, counters: Vec::new(), total_count: 0 })
    }

    /// Returns the maximum number of tracked counters.
    pub fn capacity(&self) -> (r: usize)
        ensures
            r == self.spec_capacity(),
    {
        self.capacity
    }

    /// Returns the number of items currently tracked.
    pub fn tracked_items(&self) -> (r: usize)
        ensures
            r == self.rows().len(),
    {
        self.counters.len()
    }

    /// Returns the total inserted weight (saturating).
    pub fn total_count(&self) -> (r: u64)
        ensures
            r == self.spec_total_count(),
    {
        self.total_count
    }

    /// Returns `true` when no items have been inserted.
    pub fn is_empty(&self) -> (r: bool)
        ensures
            r == (self.spec_total_count() == 0),
    {
        self.total_count == 0
    }

    fn position(&self, key: &Vec<u8>) -> (r: Option<usize>)
        requires
            self.wf(),
        ensures
            r matches Some(i) ==> i < self.rows().len() && self.rows()[i as int].0 == key@,
            r is None ==> !tracks(self.rows(), key@),
    {
        let mut i: usize = 0;
        while i < self.counters.len()
            invariant
                i <= self.counters@.len(),
                forall|t: int| 0 <= t < i ==> self.counters@[t].key@ != key@,
            decreases self.counters@.len() - i,
        {
            if same_bytes(self.counters[i].key.as_slice(), key.as_slice()) {
                return Some(i);
            }
            i = i + 1;
        }
        proof {
            if tracks(self.rows(), key@) {
                let t = choose|t: int| 0 <= t < self.rows().len() && #[trigger] self.rows()[t].0 == key@;
                assert(self.counters@[t].key@ == key@);
            }
        }
        None
    }

    proof fn lemma_position_unique(&self, i: int, key: Seq<u8>)
        requires
            self.wf(),
            0 <= i < self.rows().len(),
            self.rows()[i].0 == key,
        ensures
            tracks(self.rows(), key),
            (choose|j: int| 0 <= j < self.rows().len() && #[trigger] self.rows()[j].0 == key) == i,
    {
        let j = choose|j: int| 0 <= j < self.rows().len() && #[trigger] self.rows()[j].0 == key;
        if j != i {
            if j < i {
                assert(self.counters@[j].key@ != self.counters@[i].key@);
            } else {
                assert(self.counters@[i].key@ != self.counters@[j].key@);
            }
        }
    }

    /// Inserts one occurrence of `item`.
    pub fn insert(&mut self, item: T)
        requires
            old(self).wf(),
        ensures
            final(self).wf(),
            final(self).spec_capacity() == old(self).spec_capacity(),
            final(self).rows() == rows_after_add(old(self).rows(), old(self).spec_capacity(), item.key(), 1),
            final(self).spec_total_count() == old(self).spec_total_count().saturating_add(1),
    {
        self.add(item, 1);
    }

    /// Inserts `count` occurrences of `item`.
    pub fn add(&mut self, item: T, count: u64)
        requires
            old(self).wf(),
        ensures
            final(self).wf(),
            final(self).spec_capacity() == old(self).spec_capacity(),
            final(self).rows() == rows_after_add(old(self).rows(), old(self).spec_capacity(), item.key(), count),
            final(self).spec_total_count() == old(self).spec_total_count().saturating_add(count),
    {
        if count == 0 {
            return;
        }
        let key = item.key_bytes();
        match self.position(&key) {
            Some(i) => {
                proof {
                    self.lemma_position_unique(i as int, key@);
                }
                let c = self.counters[i].count.saturating_add(count);
                let e = self.counters[i].error;
                let it = self.counters[i].item.duplicate();
                self.counters.set(i, Counter { item: it, key, count: c, error: e });
                proof {
                    assert(self.rows() =~= old(self).rows().update(i as int, (key@, c, e)));
                    lemma_row_sum_update(old(self).rows(), i as int, (key@, c, e));
                    assert forall|a: int, b: int| 0 <= a < b < self.counters@.len() implies #[trigger] self.counters@[a].key@ != #[trigger] self.counters@[b].key@ by {
                        assert(old(self).counters@[a].key@ != old(self).counters@[b].key@);
                    }
                }
            },
            None => {
                if self.counters.len() < self.capacity {
                    self.counters.push(Counter { item, key, count, error: 0 });
                    proof {
                        assert(self.rows() =~= old(self).rows().push((key@, count, 0u64)));
                        lemma_row_sum_push(old(self).rows(), (key@, count, 0u64));
                        assert forall|a: int, b: int| 0 <= a < b < self.counters@.len() implies #[trigger] self.counters@[a].key@ != #[trigger] self.counters@[b].key@ by {
                            if b == self.counters@.len() - 1 {
                                assert(old(self).rows()[a].0 == old(self).counters@[a].key@);
                            } else {
                                assert(old(self).counters@[a].key@ != old(self).counters@[b].key@);
                            }
                        }
                    }
                } else {
                    let n = self.counters.len();
                    let mut v: usize = 0;
                    let mut t: usize = 1;
                    while t < n
                        invariant
                            self.wf(),
                            *self == *old(self),
                            n == self.rows().len(),
                            n > 0,
                            1 <= t <= n,
                            v == min_position(self.rows(), t as nat),
                            v < t,
                        decreases n - t,
                    {
                        assert(self.rows()[t as int].1 == self.counters@[t as int].count);
                        assert(self.rows()[v as int].1 == self.counters@[v as int].count);
                        if self.counters[t].count < self.counters[v].count {
                            v = t;
                        }
                        t = t + 1;
                    }
                    proof {
                        lemma_min_position(self.rows(), n as nat);
                    }
                    let m = self.counters[v].count;
                    self.counters.set(v, Counter { item, key, count: m.saturating_add(count), error: m });
                    proof {
                        assert(self.rows() =~= old(self).rows().update(v as int, (key@, m.saturating_add(count), m)));
                        lemma_row_sum_update(old(self).rows(), v as int, (key@, m.saturating_add(count), m));
                        assert forall|a: int, b: int| 0 <= a < b < self.counters@.len() implies #[trigger] self.counters@[a].key@ != #[trigger] self.counters@[b].key@ by {
                            if a == v {
                                assert(old(self).rows()[b].0 == old(self).counters@[b].key@);
                            } else if b == v {
                                assert(old(self).rows()[a].0 == old(self).counters@[a].key@);
                            } else {
                                assert(old(self).counters@[a].key@ != old(self).counters@[b].key@);
                            }
                        }
                    }
                }
            },
        }
        self.total_count = self.total_count.saturating_add(count);
        proof {
            assert forall|j: int| 0 <= j < self.rows().len() implies #[trigger] self.rows()[j].2 <= self.rows()[j].1 by {
                if j < old(self).rows().len() {
                    assert(old(self).rows()[j].2 <= old(self).rows()[j].1);
                }
            }
            assert forall|a: int, b: int| 0 <= a < b < self.rows().len() implies #[trigger] self.rows()[a].0 != #[trigger] self.rows()[b].0 by {
                assert(self.counters@[a].key@ != self.counters@[b].key@);
            }
        }
    }

    /// Returns the estimated count for `item` if it is currently tracked.
    pub fn estimate(&self, item: &T) -> (r: Option<u64>)
        requires
            self.wf(),
        ensures
            r == (match self.entry_of(item.key()) {
                Some(e) => Some(e.0),
                None => None,
            }),
    {
        match self.estimate_with_error(item) {
            Some(e) => Some(e.0),
            None => None,
        }
    }

    /// Returns `(estimate, max_error)` for `item` if currently tracked.
    pub fn estimate_with_error(&self, item: &T) -> (r: Option<(u64, u64)>)
        requires
            self.wf(),
        ensures
            r == self.entry_of(item.key()),
    {
        let key = item.key_bytes();
        match self.position(&key) {
            Some(i) => {
                proof {
                    self.lemma_position_unique(i as int, key@);
                }
                Some((self.counters[i].count, self.counters[i].error))
            },
            None => None,
        }
    }

    /// Returns the conservative lower bound `count - error` for `item` if
    /// currently tracked.
    pub fn lower_bound(&self, item: &T) -> (r: Option<u64>)
        requires
            self.wf(),
        ensures
            r == (match self.entry_of(item.key()) {
                Some(e) => Some(e.0.saturating_sub(e.1)),
                None => None,
            }),
    {
        match self.estimate_with_error(item) {
            Some(e) => Some(e.0.saturating_sub(e.1)),
            None => None,
        }
    }

    /// Returns up to `k` tracked items as `(item, estimate, max_error)`,
    /// sorted by estimate descending.
    pub fn top_k(&self, k: usize) -> (r: Vec<(T, u64, u64)>)
        requires
            self.wf(),
        ensures
            r@.len() == min_len(k as nat, self.rows().len()),
            forall|a: int, b: int| 0 <= a < b < r@.len() ==> r@[a].1 >= r@[b].1,
            forall|a: int, b: int| 0 <= a < b < r@.len() ==> r@[a].0.key() != r@[b].0.key(),
            forall|t: int| 0 <= t < r@.len() ==> self.rows().contains(
                (#[trigger] r@[t].0.key(), r@[t].1, r@[t].2),
            ),
            k > 0 ==> forall|i: int|
                0 <= i < self.rows().len() ==> reported_keys(r@).contains(self.rows()[i].0)
                    || #[trigger] self.rows()[i].1 <= r@.last().1,
    {
        let mut counts: Vec<u64> = Vec::new();
        let mut i: usize = 0;
        while i < self.counters.len()
            invariant
                i <= self.counters@.len(),
                counts@.len() == i,
                forall|t: int| 0 <= t < i ==> counts@[t] == self.counters@[t].count,
            decreases self.counters@.len() - i,
        {
            counts.push(self.counters[i].count);
            i = i + 1;
        }
        let top = top_indices(&counts, k);
        let mut out: Vec<(T, u64, u64)> = Vec::new();
        let mut t: usize = 0;
        while t < top.len()
            invariant
                self.wf(),
                t <= top@.len(),
                out@.len() == t,
                counts@.len() == self.counters@.len(),
                forall|u: int| 0 <= u < counts@.len() ==> counts@[u] == self.counters@[u].count,
                forall|u: int| 0 <= u < top@.len() ==> top@[u] < counts@.len(),
                forall|u: int|
                    0 <= u < t ==> (#[trigger] out@[u]).0.key() == self.counters@[top@[u] as int].key@
                        && out@[u].1 == self.counters@[top@[u] as int].count
                        && out@[u].2 == self.counters@[top@[u] as int].error,
            decreases top@.len() - t,
        {
            let c = &self.counters[top[t]];
            out.push((c.item.duplicate(), c.count, c.error));
            t = t + 1;
        }
        proof {
            assert forall|a: int, b: int| 0 <= a < b < out@.len() implies out@[a].1 >= out@[b].1 by {
                assert(counts@[top@[a] as int] >= counts@[top@[b] as int]);
            }
            assert forall|a: int, b: int| 0 <= a < b < out@.len() implies out@[a].0.key() != out@[b].0.key() by {
                let pa = top@[a] as int;
                let pb = top@[b] as int;
                assert(pa != pb);
                if pa < pb {
                    assert(self.counters@[pa].key@ != self.counters@[pb].key@);
                } else {
                    assert(self.counters@[pb].key@ != self.counters@[pa].key@);
                }
            }
            if k > 0 {
                assert forall|i: int|
                    0 <= i < self.rows().len() implies reported_keys(out@).contains(self.rows()[i].0)
                        || #[trigger] self.rows()[i].1 <= out@.last().1 by {
                    let j = i as usize;
                    assert(counts@[j as int] == self.rows()[i].1);
                    if top@.contains(j) {
                        let t = choose|t: int| 0 <= t < top@.len() && top@[t] == j;
                        assert(reported_keys(out@)[t] == self.rows()[i].0);
                    } else {
                        assert(counts@[j as int] <= last_score(counts@, top@));
                        assert(out@.last().1 == self.counters@[top@.last() as int].count);
                    }
                }
            }
            assert forall|u: int| 0 <= u < out@.len() implies self.rows().contains(
                (#[trigger] out@[u].0.key(), out@[u].1, out@[u].2),
            ) by {
                let p = top@[u] as int;
                assert(self.rows()[p] == (out@[u].0.key(), out@[u].1, out@[u].2));
            }
        }
        out
    }

    /// Clears tracked counters and total count.
    pub fn clear(&mut self)
        requires
            old(self).wf(),
        ensures
            final(self).wf(),
            final(self).spec_capacity() == old(self).spec_capacity(),
            final(self).rows().len() == 0,
            final(self).spec_total_count() == 0,
    {
        self.counters = Vec::new();
        self.total_count = 0;
    }

    /// Merges another sketch by replaying its tracked counts, in order,
    /// through `add`.
    pub fn merge(&mut self, other: &Self) -> (r: Result<(), SketchError>)
        requires
            old(self).wf(),
            other.wf(),
        ensures
            final(self).wf(),
            final(self).spec_capacity() == old(self).spec_capacity(),
            old(self).spec_capacity() != other.spec_capacity() ==> (r matches Err(
                SketchError::IncompatibleSketches(_),
            ) && *final(self) == *old(self)),
            old(self).spec_capacity() == other.spec_capacity() ==> (r is Ok && final(self).rows()
                == rows_after_all(old(self).rows(), old(self).spec_capacity(), other.rows())
                && final(self).spec_total_count() == clamp_u64(
                old(self).spec_total_count() + row_sum(other.rows()),
            )),
    {
        if self.capacity != other.capacity {
            return Err(SketchError::IncompatibleSketches("capacity must match for merge"));
        }
        let mut i: usize = 0;
        assert(other.rows().subrange(0, 0) =~= Seq::<Row>::empty());
        while i < other.counters.len()
            invariant
                self.wf(),
                other.wf(),
                self.spec_capacity() == old(self).spec_capacity(),
                i <= other.counters@.len(),
                self.rows() == rows_after_all(old(self).rows(), old(self).spec_capacity(), other.rows().subrange(0, i as int)),
                self.spec_total_count() == clamp_u64(old(self).spec_total_count() + row_sum(other.rows().subrange(0, i as int))),
            decreases other.counters@.len() - i,
        {
            let c = &other.counters[i];
            let item = c.item.duplicate();
            let count = c.count;
            proof {
                assert(other.rows().subrange(0, i as int + 1).drop_last() =~= other.rows().subrange(0, i as int));
                assert(other.rows()[i as int].0 == item.key());
                assert(other.rows()[i as int].1 == count);
            }
            self.add(item, count);
            i = i + 1;
        }
        assert(other.rows().subrange(0, other.rows().len() as int) =~= other.rows());
        Ok(())
    }
}

/// Total weight added for `key` by a stream of `(key, count)` additions.
pub open spec fn true_count(stream: Seq<(Seq<u8>, u64)>, key: Seq<u8>) -> nat
    decreases stream.len(),
{
    if stream.len() == 0 {
        0
    } else {
        true_count(stream.drop_last(), key) + if stream.last().0 == key {
            stream.last().1 as nat
        } else {
            0nat
        }
    }
}

/// The Space-Saving guarantee for the rows of a sketch of capacity `cap`
/// that has seen `stream`: keys are distinct; every tracked key satisfies
/// `count - error <= true count <= count`; and a key that is not tracked
/// but has been seen is missing only because the sketch is full, with a
/// true count no larger than any tracked count.
pub open spec fn bounds_hold(rows: Seq<Row>, cap: nat, stream: Seq<(Seq<u8>, u64)>) -> bool {
    &&& rows.len() <= cap
    &&& forall|i: int, j: int| 0 <= i < j < rows.len() ==> #[trigger] rows[i].0 != #[trigger] rows[j].0
    &&& forall|i: int|
        0 <= i < rows.len() ==> #[trigger] rows[i].2 <= rows[i].1 && rows[i].1 - rows[i].2
            <= true_count(stream, rows[i].0) <= rows[i].1
    &&& forall|key: Seq<u8>|
        !tracks(rows, key) && #[trigger] true_count(stream, key) > 0 ==> rows.len() == cap && forall|i: int|
            0 <= i < rows.len() ==> true_count(stream, key) <= #[trigger] rows[i].1
}

/// Space-Saving's error bounds survive every addition that does not
/// saturate a counter: for each tracked item `count - error <= true count
/// <= count`.
pub proof fn lemma_bounds_preserved(
    rows: Seq<Row>,
    cap: nat,
    stream: Seq<(Seq<u8>, u64)>,
    key: Seq<u8>,
    count: u64,
)
    requires
        cap > 0,
        bounds_hold(rows, cap, stream),
        forall|i: int| 0 <= i < rows.len() ==> #[trigger] rows[i].1 + count <= u64::MAX,
    ensures
        bounds_hold(rows_after_add(rows, cap, key, count), cap, stream.push((key, count))),
{
    let next = stream.push((key, count));
    let after = rows_after_add(rows, cap, key, count);
    assert(next.drop_last() =~= stream);
    assert forall|k: Seq<u8>| #[trigger] true_count(next, k) == true_count(stream, k) + (if k == key {
        count as nat
    } else {
        0nat
    }) by {
        assert(next.drop_last() =~= stream);
    }
    if count == 0 {
        return;
    }
    if tracks(rows, key) {
        let i = choose|i: int| 0 <= i < rows.len() && #[trigger] rows[i].0 == key;
        assert(after == rows.update(i, (key, (rows[i].1 + count) as u64, rows[i].2)));
        assert forall|a: int, b: int| 0 <= a < b < after.len() implies #[trigger] after[a].0 != #[trigger] after[b].0 by {
            assert(rows[a].0 != rows[b].0);
        }
        assert forall|j: int| 0 <= j < after.len() implies #[trigger] after[j].2 <= after[j].1 && after[j].1
            - after[j].2 <= true_count(next, after[j].0) <= after[j].1 by {
            if j != i {
                assert(rows[j].0 != rows[i].0 || j == i);
                if j < i {
                    assert(rows[j].0 != rows[i].0);
                } else {
                    assert(rows[i].0 != rows[j].0);
                }
            }
        }
        assert forall|k: Seq<u8>| !tracks(after, k) && #[trigger] true_count(next, k) > 0 implies after.len() == cap
            && forall|j: int| 0 <= j < after.len() ==> true_count(next, k) <= #[trigger] after[j].1 by {
            assert(k != key) by {
                if k == key {
                    assert(after[i].0 == k);
                }
            }
            assert(!tracks(rows, k)) by {
                if tracks(rows, k) {
                    let j = choose|j: int| 0 <= j < rows.len() && #[trigger] rows[j].0 == k;
                    assert(after[j].0 == k);
                }
            }
            assert forall|j: int| 0 <= j < after.len() implies true_count(next, k) <= #[trigger] after[j].1 by {
                assert(true_count(stream, k) <= rows[j].1);
            }
        }
    } else if rows.len() < cap {
        assert(after == rows.push((key, count, 0u64)));
        assert(true_count(stream, key) == 0);
        assert forall|a: int, b: int| 0 <= a < b < after.len() implies #[trigger] after[a].0 != #[trigger] after[b].0 by {
            if b == rows.len() {
                assert(rows[a].0 != key);
            } else {
                assert(rows[a].0 != rows[b].0);
            }
        }
        assert forall|j: int| 0 <= j < after.len() implies #[trigger] after[j].2 <= after[j].1 && after[j].1
            - after[j].2 <= true_count(next, after[j].0) <= after[j].1 by {
            if j < rows.len() {
                assert(rows[j].0 != key);
            }
        }
        assert forall|k: Seq<u8>| !tracks(after, k) && #[trigger] true_count(next, k) > 0 implies after.len() == cap
            && forall|j: int| 0 <= j < after.len() ==> true_count(next, k) <= #[trigger] after[j].1 by {
            assert(k != key) by {
                if k == key {
                    assert(after[rows.len() as int].0 == k);
                }
            }
            assert(!tracks(rows, k)) by {
                if tracks(rows, k) {
                    let j = choose|j: int| 0 <= j < rows.len() && #[trigger] rows[j].0 == k;
                    assert(after[j].0 == k);
                }
            }
        }
    } else {
        let v = min_position(rows, rows.len());
        lemma_min_position(rows, rows.len());
        let m = rows[v].1;
        assert(after == rows.update(v, (key, (m + count) as u64, m)));
        assert(true_count(stream, key) <= m) by {
            if true_count(stream, key) > 0 {
                assert(true_count(stream, key) <= rows[v].1);
            }
        }
        assert forall|a: int, b: int| 0 <= a < b < after.len() implies #[trigger] after[a].0 != #[trigger] after[b].0 by {
            if a == v {
                assert(rows[b].0 != key);
            } else if b == v {
                assert(rows[a].0 != key);
            } else {
                assert(rows[a].0 != rows[b].0);
            }
        }
        assert forall|j: int| 0 <= j < after.len() implies #[trigger] after[j].2 <= after[j].1 && after[j].1
            - after[j].2 <= true_count(next, after[j].0) <= after[j].1 by {
            if j != v {
                assert(rows[j].0 != key);
            }
        }
        assert forall|k: Seq<u8>| !tracks(after, k) && #[trigger] true_count(next, k) > 0 implies after.len() == cap
            && forall|j: int| 0 <= j < after.len() ==> true_count(next, k) <= #[trigger] after[j].1 by {
            assert(k != key) by {
                if k == key {
                    assert(after[v].0 == k);
                }
            }
            assert(true_count(stream, k) <= m) by {
                if k == rows[v].0 {
                    assert(rows[v].1 - rows[v].2 <= true_count(stream, rows[v].0) <= rows[v].1);
                } else {
                    assert(!tracks(rows, k)) by {
                        if tracks(rows, k) {
                            let j = choose|j: int| 0 <= j < rows.len() && #[trigger] rows[j].0 == k;
                            assert(j != v);
                            assert(after[j].0 == k);
                        }
                    }
                    assert(true_count(stream, k) <= rows[v].1);
                }
            }
            assert forall|j: int| 0 <= j < after.len() implies true_count(next, k) <= #[trigger] after[j].1 by {
                assert(rows[v].1 <= rows[j].1);
            }
        }
    }
}

/// A fresh sketch satisfies the Space-Saving bounds for the empty stream.
pub proof fn lemma_bounds_start(cap: nat)
    ensures
        bounds_hold(Seq::empty(), cap, Seq::empty()),
{
}

} // verus!
