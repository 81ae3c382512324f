//! Sorting and medians of signed counters.
use vstd::multiset::Multiset;
use vstd::prelude::*;
use vstd::relations::{sorted_by, total_ordering};
use vstd::seq_lib::{lemma_multiset_commutative, lemma_sorted_unique};

verus! {

/// The usual order on `i64`.
pub open spec fn i64_leq() -> spec_fn(i64, i64) -> bool {
    |a: i64, b: i64| a <= b
}

/// The ascending sort of a sequence.
pub open spec fn sorted_i64(s: Seq<i64>) -> Seq<i64> {
    s.sort_by(i64_leq())
}

/// `(a + b) / 2` with the division truncated toward zero.
pub open spec fn mean_toward_zero(a: i64, b: i64) -> i64 {
    let s = a as int + b as int;
    if s >= 0 {
        (s / 2) as i64
    } else {
        (-((-s) / 2)) as i64
    }
}

/// The median of a sorted sequence: the middle element, or the mean of the
/// two middle elements (truncated toward zero) for an even length.
pub open spec fn median_of_sorted(s: Seq<i64>) -> i64
    recommends
        s.len() > 0,
{
    let mid = s.len() / 2;
    if s.len() % 2 == 1 {
        s[mid as int]
    } else {
        mean_toward_zero(s[mid - 1], s[mid as int])
    }
}

/// The median of a sequence of signed values.
pub open spec fn median(s: Seq<i64>) -> i64 {
    median_of_sorted(sorted_i64(s))
}

proof fn lemma_i64_leq_total()
    ensures
        total_ordering(i64_leq()),
{
}

/// Sorts a vector ascending.
pub fn sort_i64(v: &Vec<i64>) -> (r: Vec<i64>)
    ensures
        r@ == sorted_i64(v@),
        r@.len() == v@.len(),
{
    let mut out: Vec<i64> = Vec::new();
    let mut i: usize = 0;
    assert(out@ =~= v@.subrange(0, 0));
    while i < v.len()
        invariant
            i <= v@.len(),
            sorted_by(out@, i64_leq()),
            out@.to_multiset() == v@.subrange(0, i as int).to_multiset(),
        decreases v@.len() - i,
    {
        let x = v[i];
        let mut p: usize = 0;
        while p < out.len() && out[p] <= x
            invariant
                p <= out@.len(),
                forall|t: int| 0 <= t < p ==> out@[t] <= x,
            decreases out@.len() - p,
        {
            p = p + 1;
        }
        let ghost before = out@;
        out.insert(p, x);
        proof {
            assert(before =~= before.subrange(0, p as int) + before.subrange(
                p as int,
                before.len() as int,
            ));
            assert(out@ =~= before.subrange(0, p as int) + (seq![x] + before.subrange(
                p as int,
                before.len() as int,
            )));
            lemma_multiset_commutative(before.subrange(0, p as int), before.subrange(p as int, before.len() as int));
            lemma_multiset_commutative(seq![x], before.subrange(p as int, before.len() as int));
            lemma_multiset_commutative(
                before.subrange(0, p as int),
                seq![x] + before.subrange(p as int, before.len() as int),
            );
            assert(seq![x].to_multiset() =~= Multiset::empty().insert(x)) by {
                assert(seq![x] =~= Seq::<i64>::empty().push(x));
                Seq::<i64>::empty().to_multiset_ensures();
            }
            assert(out@.to_multiset() =~= before.to_multiset().insert(x));
            assert(v@.subrange(0, i as int + 1) =~= v@.subrange(0, i as int).push(x));
            v@.subrange(0, i as int).to_multiset_ensures();
            assert forall|a: int, b: int| 0 <= a < b < out@.len() implies #[trigger] (i64_leq())(
                out@[a],
                out@[b],
            ) by {
                if p < before.len() {
                    assert(before[p as int] > x);
                }
                if a < p && b > p {
                    assert(out@[a] <= x);
                    assert(x <= before[p as int] || p >= before.len());
                } else if a < p && b == p {
                } else if a == p {
                    assert((i64_leq())(before[p as int], before[b - 1]));
                } else if b < p {
                    assert((i64_leq())(before[a], before[b]));
                } else {
                    assert((i64_leq())(before[a - 1], before[b - 1]));
                }
            }
        }
        i = i + 1;
    }
    proof {
        assert(v@.subrange(0, v@.len() as int) =~= v@);
        lemma_i64_leq_total();
        v@.lemma_sort_by_ensures(i64_leq());
        lemma_sorted_unique(out@, sorted_i64(v@), i64_leq());
        out@.to_multiset_ensures();
        v@.to_multiset_ensures();
    }
    out
}

/// The smaller of two lengths.
pub open spec fn min_len(a: nat, b: nat) -> nat {
    if a <= b {
        a
    } else {
        b
    }
}

/// The score of the last kept position.
pub open spec fn last_score(scores: Seq<u64>, top: Seq<usize>) -> u64 {
    scores[top.last() as int]
}

proof fn lemma_top_step(
    scores: Seq<u64>,
    before: Seq<usize>,
    inserted: Seq<usize>,
    top: Seq<usize>,
    p: int,
    i: int,
    k: nat,
)
    requires
        k > 0,
        0 <= i < scores.len(),
        i < usize::MAX,
        0 <= p <= before.len(),
        before.len() == min_len(k, i as nat),
        forall|t: int| 0 <= t < before.len() ==> before[t] < i,
        forall|a: int, b: int| 0 <= a < b < before.len() ==> before[a] != before[b],
        forall|a: int, b: int|
            0 <= a < b < before.len() ==> scores[before[a] as int] >= scores[before[b] as int],
        forall|j: usize| (j as int) < i ==> before.contains(j) || #[trigger] scores[j as int] <= last_score(scores, before),
        before.len() < k ==> forall|j: usize| (j as int) < i ==> #[trigger] before.contains(j),
        forall|t: int| 0 <= t < p ==> scores[before[t] as int] >= scores[i],
        p < before.len() ==> scores[before[p] as int] < scores[i],
        inserted == before.insert(p, i as usize),
        top == (if inserted.len() > k {
            inserted.drop_last()
        } else {
            inserted
        }),
    ensures
        top.len() == min_len(k, (i + 1) as nat),
        forall|t: int| 0 <= t < top.len() ==> top[t] < i + 1,
        forall|a: int, b: int| 0 <= a < b < top.len() ==> top[a] != top[b],
        forall|a: int, b: int|
            0 <= a < b < top.len() ==> scores[top[a] as int] >= scores[top[b] as int],
        forall|j: usize| (j as int) < i + 1 ==> top.contains(j) || #[trigger] scores[j as int] <= last_score(scores, top),
        top.len() < k ==> forall|j: usize| (j as int) < i + 1 ==> #[trigger] top.contains(j),
{
    let x = scores[i];
    assert(inserted =~= before.subrange(0, p).push(i as usize) + before.subrange(p, before.len() as int));
    assert(inserted.len() == before.len() + 1);
    assert forall|t: int| 0 <= t < p implies #[trigger] inserted[t] == before[t] by {}
    assert(inserted[p] == i as usize);
    assert forall|t: int| p < t < inserted.len() implies #[trigger] inserted[t] == before[t - 1] by {}
    assert forall|a: int, b: int| 0 <= a < b < inserted.len() implies scores[inserted[a] as int]
        >= scores[inserted[b] as int] by {
        if a < p && b > p {
            assert(scores[before[a] as int] >= x);
            if p < before.len() {
                assert(scores[before[b - 1] as int] <= scores[before[p] as int] || b - 1 == p);
            }
        } else if a == p {
            if b - 1 > p {
                assert(scores[before[p] as int] >= scores[before[b - 1] as int]);
            }
        }
    }
    assert forall|a: int, b: int| 0 <= a < b < inserted.len() implies inserted[a] != inserted[b] by {
        if a == p {
            assert(before[b - 1] < i);
        } else if b == p {
            assert(before[a] < i);
        }
    }
    assert forall|t: int| 0 <= t < top.len() implies top[t] < i + 1 by {
        assert(top[t] == inserted[t]);
        if t < p {
            assert(before[t] < i);
        } else if t > p {
            assert(before[t - 1] < i);
        }
    }
    if before.len() < k {
        assert forall|j: usize| (j as int) < i + 1 implies #[trigger] inserted.contains(j) by {
            if (j as int) == i {
                assert(inserted[p] == j);
            } else {
                assert(before.contains(j));
                let t = choose|t: int| 0 <= t < before.len() && before[t] == j;
                let t2 = if t < p { t } else { t + 1 };
                assert(inserted[t2] == j);
            }
        }
    }
    if inserted.len() <= k {
        assert(top == inserted);
        assert forall|j: usize| (j as int) < i + 1 implies top.contains(j) || #[trigger] scores[j as int]
            <= last_score(scores, top) by {
            if (j as int) != i && !before.contains(j) {
                assert(before.len() < k);
            }
            assert(inserted.contains(j)) by {
                if (j as int) == i {
                    assert(inserted[p] == j);
                } else {
                    let t = choose|t: int| 0 <= t < before.len() && before[t] == j;
                    let t2 = if t < p { t } else { t + 1 };
                    assert(inserted[t2] == j);
                }
            }
        }
    } else {
        assert(top =~= inserted.drop_last());
        assert(before.len() == k);
        let dropped = inserted.last();
        assert(scores[top.last() as int] >= scores[dropped as int]);
        assert(last_score(scores, top) >= last_score(scores, before)) by {
            if p < before.len() {
                assert(dropped == before.last());
            } else {
                assert(top =~= before);
            }
        }
        assert forall|j: usize| (j as int) < i + 1 implies top.contains(j) || #[trigger] scores[j as int]
            <= last_score(scores, top) by {
            if !top.contains(j) {
                if (j as int) == i {
                    if p < top.len() {
                        assert(top[p] == j);
                    }
                    assert(p == before.len());
                    assert(dropped == j);
                } else if before.contains(j) {
                    let t = choose|t: int| 0 <= t < before.len() && before[t] == j;
                    let t2 = if t < p { t } else { t + 1 };
                    assert(inserted[t2] == j);
                    if t2 < top.len() {
                        assert(top[t2] == j);
                    }
                    assert(dropped == j);
                } else {
                    assert(scores[j as int] <= last_score(scores, before));
                }
            }
        }
    }
}

/// Positions of the `k` largest scores, best first: the result is sorted by
/// score non-increasing (ties in position order), holds distinct positions,
/// has `min(k, n)` of them, and every position left out scores no higher
/// than the last one kept.
pub fn top_indices(scores: &Vec<u64>, k: usize) -> (r: Vec<usize>)
    ensures
        r@.len() == min_len(k as nat, scores@.len()),
        forall|t: int| 0 <= t < r@.len() ==> r@[t] < scores@.len(),
        forall|a: int, b: int| 0 <= a < b < r@.len() ==> r@[a] != r@[b],
        forall|a: int, b: int|
            0 <= a < b < r@.len() ==> scores@[r@[a] as int] >= scores@[r@[b] as int],
        k > 0 ==> forall|j: usize|
            (j as int) < scores@.len() ==> r@.contains(j) || #[trigger] scores@[j as int] <= last_score(
                scores@,
                r@,
            ),
{
    let mut top: Vec<usize> = Vec::new();
    if k == 0 {
        return top;
    }
    let n = scores.len();
    let mut i: usize = 0;
    while i < n
        invariant
            k > 0,
            n == scores@.len(),
            i <= n,
            top@.len() == min_len(k as nat, i as nat),
            forall|t: int| 0 <= t < top@.len() ==> top@[t] < i,
            forall|a: int, b: int| 0 <= a < b < top@.len() ==> top@[a] != top@[b],
            forall|a: int, b: int|
                0 <= a < b < top@.len() ==> scores@[top@[a] as int] >= scores@[top@[b] as int],
            forall|j: usize| (j as int) < i ==> top@.contains(j) || #[trigger] scores@[j as int] <= last_score(scores@, top@),
            top@.len() < k ==> forall|j: usize| (j as int) < i ==> #[trigger] top@.contains(j),
        decreases n - i,
    {
        let x = scores[i];
        let mut p: usize = 0;
        let ghost before = top@;
        while p < top.len() && scores[top[p]] >= x
            invariant
                top@ == before,
                k > 0,
                i < n,
                x == scores@[i as int],
                top@.len() == min_len(k as nat, i as nat),
                forall|t: int| 0 <= t < top@.len() ==> top@[t] < i,
                forall|a: int, b: int| 0 <= a < b < top@.len() ==> top@[a] != top@[b],
                forall|a: int, b: int|
                    0 <= a < b < top@.len() ==> scores@[top@[a] as int] >= scores@[top@[b] as int],
                    p <= top@.len(),
                n == scores@.len(),
                forall|t: int| 0 <= t < top@.len() ==> top@[t] < n,
                forall|t: int| 0 <= t < p ==> scores@[top@[t] as int] >= x,
            decreases top@.len() - p,
        {
            p = p + 1;
        }
        top.insert(p, i);
        let ghost inserted = top@;
        if top.len() > k {
            top.pop();
        }
        proof {
            lemma_top_step(scores@, before, inserted, top@, p as int, i as int, k as nat);
        }
        i = i + 1;
    }
    top
}

} // verus!
