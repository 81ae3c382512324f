//! MinHash sketch for approximate Jaccard similarity.
use crate::hashing::{derive_seeds, family_seed, same_u64s, seeded_hash, seeded_hash64, SketchKey};
use crate::SketchError;
use vstd::prelude::*;

verus! {

pub const SEED_BASE: u64 = 0xBF58_476D_1CE4_E5B9;

/// Number of positions `i < n` where `a` and `b` agree.
pub open spec fn matching(a: Seq<u64>, b: Seq<u64>, n: nat) -> nat
    decreases n,
{
    if n == 0 {
        0
    } else {
        matching(a, b, (n - 1) as nat) + if a[n - 1] == b[n - 1] {
            1nat
        } else {
            0nat
        }
    }
}

/// The smaller of two values.
pub open spec fn min_u64(a: u64, b: u64) -> u64 {
    if a <= b {
        a
    } else {
        b
    }
}

/// MinHash signature sketch for estimating set similarity.
#[derive(Debug, Clone)]
pub struct MinHash {
    seeds: Vec<u64>,
    signature: Vec<u64>,
    observed_any: bool,
}

impl MinHash {
    /// The signature: one running minimum per seed.
    pub closed spec fn sig(&self) -> Seq<u64> {
        self.signature@
    }

    /// The hash seeds, one per signature position.
    pub closed spec fn seed_family(&self) -> Seq<u64> {
        self.seeds@
    }

    /// Whether any item has been observed.
    pub closed spec fn observed(&self) -> bool {
        self.observed_any
    }

    /// Validity: a non-empty signature and the seed family fixed by its size.
    pub open spec fn wf(&self) -> bool {
        &&& self.sig().len() > 0
        &&& self.seed_family().len() == self.sig().len()
        &&& forall|i: int|
            0 <= i < self.seed_family().len() ==> #[trigger] self.seed_family()[i] == family_seed(SEED_BASE, i as nat)
        &&& self.inner_wf()
    }

    pub closed spec fn inner_wf(&self) -> bool {
        &&& self.signature@.len() > 0
        &&& self.seeds@.len() == self.signature@.len()
        &&& forall|i: int|
            0 <= i < self.seeds@.len() ==> self.seeds@[i] == family_seed(SEED_BASE, i as nat)
    }

    /// The signature after observing an item with encoding `key`.
    pub open spec fn sig_after(&self, key: Seq<u8>) -> Seq<u64> {
        Seq::new(
            self.sig().len(),
            |i: int| min_u64(self.sig()[i], seeded_hash(key, self.seed_family()[i])),
        )
    }

    /// The similarity as a fraction `(numerator, denominator)`: `1/1` for two
    /// never-updated sketches, `0/1` when exactly one side was never updated,
    /// otherwise the number of equal signature positions over their count.
    pub open spec fn jaccard_of(&self, other: &MinHash) -> (usize, usize) {
        if !self.observed() && !other.observed() {
            (1, 1)
        } else if !self.observed() || !other.observed() {
            (0, 1)
        } else {
            (
                matching(self.sig(), other.sig(), self.sig().len()) as usize,
                self.sig().len() as usize,
            )
        }
    }

    /// Creates a MinHash sketch with `num_hashes` signature components.
    pub fn new(num_hashes: usize) -> (r: Result<Self, SketchError>)
        ensures
            num_hashes == 0 ==> (r matches Err(SketchError::InvalidParameter(_))),
            num_hashes > 0 ==> (r matches Ok(s) && s.wf() && !s.observed() && s.sig()
                == Seq::new(num_hashes as nat, |i: int| u64::MAX)),
    {
        if num_hashes == 0 {
            return Err(SketchError::InvalidParameter("num_hashes must be greater than zero"));
        }
        let seeds = derive_seeds(num_hashes, SEED_BASE);
        let s = MinHash { seeds, signature: vec![u64::MAX; num_hashes], observed_any: false };
        assert(s.sig() =~= Seq::new(num_hashes as nat, |i: int| u64::MAX));
        Ok(s)
    }

    /// Returns the number of signature components.
    pub fn num_hashes(&self) -> (r: usize)
        ensures
            r == self.sig().len(),
    {
        self.signature.len()
    }

    /// Returns `true` when no item has been observed yet.
    pub fn is_empty(&self) -> (r: bool)
        ensures
            r == !self.observed(),
    {
        !self.observed_any
    }

    /// Returns a read-only view of the signature vector.
    pub fn signature(&self) -> (r: &[u64])
        ensures
            r@ == self.sig(),
    {
        self.signature.as_slice()
    }

    /// Adds one item: each position keeps the minimum of its seeded hashes.
    pub fn add<T: SketchKey + ?Sized>(&mut self, item: &T)
        requires
            old(self).wf(),
        ensures
            final(self).wf(),
            final(self).seed_family() == old(self).seed_family(),
            final(self).observed(),
            final(self).sig() == old(self).sig_after(item.key()),
    {
        let n = self.signature.len();
        let ghost target = old(self).sig_after(item.key());
        let mut i: usize = 0;
        while i < n
            invariant
                n == self.signature@.len(),
                target == old(self).sig_after(item.key()),
                n == old(self).signature@.len(),
                self.seeds == old(self).seeds,
                self.wf(),
                i <= n,
                forall|t: int| 0 <= t < i ==> self.signature@[t] == target[t],
                forall|t: int| i <= t < n ==> self.signature@[t] == old(self).signature@[t],
            decreases n - i,
        {
            let hashed = seeded_hash64(item, self.seeds[i]);
            assert(target[i as int] == min_u64(old(self).signature@[i as int], hashed));
            if hashed < self.signature[i] {
                self.signature.set(i, hashed);
            }
            i = i + 1;
        }
        self.observed_any = true;
        assert(self.sig() =~= old(self).sig_after(item.key()));
    }

    /// The similarity estimate as an exact fraction `(matches, positions)`;
    /// the estimate is its quotient.
    pub fn jaccard_fraction(&self, other: &Self) -> (r: Result<(usize, usize), SketchError>)
        requires
            self.wf(),
            other.wf(),
        ensures
            self.seed_family() != other.seed_family() ==> (r matches Err(
                SketchError::IncompatibleSketches(_),
            )),
            self.seed_family() == other.seed_family() ==> r == Ok::<(usize, usize), SketchError>(
                self.jaccard_of(other),
            ),
    {
        if !same_u64s(self.seeds.as_slice(), other.seeds.as_slice()) {
            return Err(SketchError::IncompatibleSketches("num_hashes/hash seeds must match"));
        }
        if !self.observed_any && !other.observed_any {
            return Ok((1, 1));
        }
        if !self.observed_any || !other.observed_any {
            return Ok((0, 1));
        }
        let n = self.signature.len();
        let mut matches: usize = 0;
        let mut i: usize = 0;
        while i < n
            invariant
                n == self.signature@.len(),
                n == other.signature@.len(),
                i <= n,
                matches == matching(self.sig(), other.sig(), i as nat),
                matches <= i,
            decreases n - i,
        {
            if self.signature[i] == other.signature[i] {
                matches = matches + 1;
            }
            i = i + 1;
        }
        Ok((matches, n))
    }

    /// Merges another sketch in-place by taking element-wise minima.
    pub fn merge(&mut self, other: &Self) -> (r: Result<(), SketchError>)
        requires
            old(self).wf(),
            other.wf(),
        ensures
            final(self).wf(),
            final(self).seed_family() == old(self).seed_family(),
            old(self).seed_family() != other.seed_family() ==> (r matches Err(
                SketchError::IncompatibleSketches(_),
            ) && *final(self) == *old(self)),
            old(self).seed_family() == other.seed_family() ==> (r is Ok && final(self).observed()
                == (old(self).observed() || other.observed()) && final(self).sig() == Seq::new(
                old(self).sig().len(),
                |i: int| min_u64(old(self).sig()[i], other.sig()[i]),
            )),
    {
        if !same_u64s(self.seeds.as_slice(), other.seeds.as_slice()) {
            return Err(
                SketchError::IncompatibleSketches("num_hashes/hash seeds must match for merge"),
            );
        }
        let n = self.signature.len();
        let mut i: usize = 0;
        while i < n
            invariant
                n == self.signature@.len(),
                n == other.signature@.len(),
                self.seeds == old(self).seeds,
                self.observed_any == old(self).observed_any,
                self.wf(),
                i <= n,
                forall|t: int|
                    0 <= t < i ==> self.signature@[t] == min_u64(
                        old(self).signature@[t],
                        other.signature@[t],
                    ),
                forall|t: int| i <= t < n ==> self.signature@[t] == old(self).signature@[t],
            decreases n - i,
        {
            let o = other.signature[i];
            if o < self.signature[i] {
                self.signature.set(i, o);
            }
            i = i + 1;
        }
        self.observed_any = self.observed_any || other.observed_any;
        assert(self.sig() =~= Seq::new(
            old(self).sig().len(),
            |i: int| min_u64(old(self).sig()[i], other.sig()[i]),
        ));
        Ok(())
    }

    /// Resets the sketch to the empty state.
    pub fn clear(&mut self)
        requires
            old(self).wf(),
        ensures
            final(self).wf(),
            final(self).seed_family() == old(self).seed_family(),
            !final(self).observed(),
            final(self).sig() == Seq::new(old(self).sig().len(), |i: int| u64::MAX),
    {
        let n = self.signature.len();
        let mut i: usize = 0;
        while i < n
            invariant
                n == self.signature@.len(),
                self.seeds == old(self).seeds,
                self.wf(),
                i <= n,
                forall|t: int| 0 <= t < i ==> self.signature@[t] == u64::MAX,
            decreases n - i,
        {
            self.signature.set(i, u64::MAX);
            i = i + 1;
        }
        self.observed_any = false;
        assert(self.sig() =~= Seq::new(old(self).sig().len(), |i: int| u64::MAX));
    }
}

proof fn lemma_matching_self(a: Seq<u64>, n: nat)
    ensures
        matching(a, a, n) == n,
    decreases n,
{
    if n > 0 {
        lemma_matching_self(a, (n - 1) as nat);
    }
}

/// Two sketches of the same seed family that saw the same stream have equal
/// signatures, so their similarity is exactly one; a never-updated sketch
/// against an updated one scores exactly zero, and two never-updated
/// sketches score exactly one.
pub proof fn lemma_similarity_extremes(a: MinHash, b: MinHash)
    requires
        a.wf(),
        b.wf(),
        a.seed_family() == b.seed_family(),
    ensures
        a.observed() && b.observed() && a.sig() == b.sig() ==> a.jaccard_of(&b).0 == a.jaccard_of(
            &b,
        ).1,
        a.observed() != b.observed() ==> a.jaccard_of(&b) == (0usize, 1usize),
        !a.observed() && !b.observed() ==> a.jaccard_of(&b) == (1usize, 1usize),
{
    lemma_matching_self(a.sig(), a.sig().len());
}

/// Observing the same items in the same order from the same state gives the
/// same signature.
pub proof fn lemma_same_stream_same_signature(a: MinHash, b: MinHash, key: Seq<u8>)
    requires
        a.sig() == b.sig(),
        a.seed_family() == b.seed_family(),
    ensures
        a.sig_after(key) == b.sig_after(key),
{
}

} // verus!
