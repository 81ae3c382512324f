//! Reservoir sampling (Algorithm R) for uniform fixed-size samples of a stream.
//!
//! Replacement indexes come from an internal SplitMix64 stream with a fixed
//! seed, so the same input stream always yields the same sample.
use crate::hashing::{splitmix, splitmix64};
use crate::SketchError;
use vstd::prelude::*;

verus! {

pub const RNG_SEED: u64 = 0x94D0_49BB_1331_11EB;

pub const RNG_STEP: u64 = 0x9E37_79B9_7F4A_7C15;

/// The next state of the internal random stream.
pub open spec fn next_state(s: u64) -> u64 {
    splitmix(s.wrapping_add(RNG_STEP))
}

/// Observable state of a reservoir: samples, items seen, random-stream state.
pub struct ReservoirState<T> {
    pub samples: Seq<T>,
    pub seen: u64,
    pub rng: u64,
}

/// The state after offering one item to a reservoir of capacity `cap`: under
/// capacity the item is appended; otherwise a draw `j` in `[0, seen)` replaces
/// slot `j` when `j < cap`.
pub open spec fn offered<T>(s: ReservoirState<T>, cap: nat, item: T) -> ReservoirState<T> {
    let seen = s.seen.saturating_add(1);
    if s.samples.len() < cap {
        ReservoirState { samples: s.samples.push(item), seen, rng: s.rng }
    } else {
        let rng = next_state(s.rng);
        let j = rng % seen;
        if (j as nat) < cap {
            ReservoirState { samples: s.samples.update(j as int, item), seen, rng }
        } else {
            ReservoirState { samples: s.samples, seen, rng }
        }
    }
}

/// The state after offering each of `items` in order.
pub open spec fn offered_all<T>(s: ReservoirState<T>, cap: nat, items: Seq<T>) -> ReservoirState<T>
    decreases items.len(),
{
    if items.len() == 0 {
        s
    } else {
        offered(offered_all(s, cap, items.drop_last()), cap, items.last())
    }
}

/// Fixed-size uniform reservoir sample over a stream.
#[derive(Debug, Clone)]
pub struct ReservoirSampling<T> {
    capacity: usize,
    samples: Vec<T>,
    seen: u64,
    rng_state: u64,
}

impl<T> ReservoirSampling<T> {
    pub closed spec fn spec_capacity(&self) -> nat {
        self.capacity as nat
    }

    pub closed spec fn state(&self) -> ReservoirState<T> {
        ReservoirState { samples: self.samples@, seen: self.seen, rng: self.rng_state }
    }

    /// Validity: a positive capacity that the sample never exceeds.
    pub open spec fn wf(&self) -> bool {
        &&& self.spec_capacity() > 0
        &&& self.state().samples.len() <= self.spec_capacity()
        &&& self.inner_wf()
    }

    pub closed spec fn inner_wf(&self) -> bool {
        &&& self.capacity > 0
        &&& self.samples@.len() <= self.capacity
    }

    /// Creates a reservoir with the given sample size.
    pub fn new(capacity: usize) -> (r: Result<Self, SketchError>)
        ensures
            capacity == 0 ==> (r matches Err(SketchError::InvalidParameter(_))),
            capacity > 0 ==> (r matches Ok(x) && x.wf() && x.spec_capacity() == capacity
                && x.state() == (ReservoirState::<T> { samples: Seq::empty(), seen: 0, rng: RNG_SEED })),
    {
        if capacity == 0 {
            return Err(SketchError::InvalidParameter("capacity must be greater than zero"));
        }
        let x = ReservoirSampling { capacity, samples: Vec::new(), seen: 0, rng_state: RNG_SEED };
        assert(x.state().samples =~= Seq::<T>::empty());
        Ok(x)
    }

    /// Returns the configured sample capacity.
    pub fn capacity(&self) -> (r: usize)
        ensures
            r == self.spec_capacity(),
    {
        self.capacity
    }

    /// Returns the current number of sampled items.
    pub fn len(&self) -> (r: usize)
        ensures
            r == self.state().samples.len(),
    {
        self.samples.len()
    }

    /// Returns `true` when no item has been seen yet.
    pub fn is_empty(&self) -> (r: bool)
        ensures
            r == (self.state().seen == 0),
    {
        self.seen == 0
    }

    /// Returns the total number of items seen from the stream (saturating).
    pub fn seen(&self) -> (r: u64)
        ensures
            r == self.state().seen,
    {
        self.seen
    }

    /// Returns the sampled items.
    pub fn samples(&self) -> (r: &[T])
        ensures
            r@ == self.state().samples,
    {
        self.samples.as_slice()
    }

    fn next_u64(&mut self) -> (r: u64)
        ensures
            r == next_state(old(self).rng_state),
            final(self).rng_state == r,
            final(self).capacity == old(self).capacity,
            final(self).samples == old(self).samples,
            final(self).seen == old(self).seen,
    {
        self.rng_state = splitmix64(self.rng_state.wrapping_add(RNG_STEP));
        self.rng_state
    }

    /// Adds one item from the stream.
    pub fn add(&mut self, item: T)
        requires
            old(self).wf(),
        ensures
            final(self).wf(),
            final(self).spec_capacity() == old(self).spec_capacity(),
            final(self).state() == offered(old(self).state(), old(self).spec_capacity(), item),
    {
        self.seen = self.seen.saturating_add(1);
        if self.samples.len() < self.capacity {
            self.samples.push(item);
            return;
        }
        let j = self.next_u64() % self.seen;
        if j < self.capacity as u64 {
            self.samples.set(j as usize, item);
        }
    }

    /// Adds all items, in order.
    pub fn extend(&mut self, items: Vec<T>)
        requires
            old(self).wf(),
        ensures
            final(self).wf(),
            final(self).spec_capacity() == old(self).spec_capacity(),
            final(self).state() == offered_all(old(self).state(), old(self).spec_capacity(), items@),
    {
        let mut items = items;
        let ghost all = items@;
        let mut reversed: Vec<T> = Vec::new();
        while items.len() > 0
            invariant
                all == items@ + reversed@.reverse(),
            decreases items@.len(),
        {
            let x = items.pop().unwrap();
            proof {
                assert(reversed@.push(x).reverse() =~= seq![x] + reversed@.reverse());
            }
            reversed.push(x);
            assert(all =~= items@ + reversed@.reverse());
        }
        assert(all =~= reversed@.reverse());
        while reversed.len() > 0
            invariant
                self.wf(),
                self.spec_capacity() == old(self).spec_capacity(),
                all == self.fed_prefix(all, reversed@) + reversed@.reverse(),
                self.state() == offered_all(old(self).state(), old(self).spec_capacity(), self.fed_prefix(all, reversed@)),
            decreases reversed@.len(),
        {
            let ghost before = reversed@;
            let x = reversed.pop().unwrap();
            proof {
                let fed = self.fed_prefix(all, before);
                assert(before.reverse() =~= seq![x] + reversed@.reverse());
                let fed2 = self.fed_prefix(all, reversed@);
                assert(fed2 =~= fed.push(x));
                assert(fed2.drop_last() =~= fed);
            }
            self.add(x);
        }
        proof {
            assert(self.fed_prefix(all, reversed@) =~= all);
        }
    }

    /// The items of `all` that come before the still-pending `rest` (held reversed).
    pub open spec fn fed_prefix(&self, all: Seq<T>, rest: Seq<T>) -> Seq<T> {
        all.subrange(0, all.len() - rest.len())
    }

    /// Removes all sampled items and resets the stream counter.
    pub fn clear(&mut self)
        requires
            old(self).wf(),
        ensures
            final(self).wf(),
            final(self).spec_capacity() == old(self).spec_capacity(),
            final(self).state().samples.len() == 0,
            final(self).state().seen == 0,
            final(self).state().rng == old(self).state().rng,
    {
        self.samples.clear();
        self.seen = 0;
    }

    /// Consumes the sampler and returns the sample buffer.
    pub fn into_samples(self) -> (r: Vec<T>)
        ensures
            r@ == self.state().samples,
    {
        self.samples
    }
}

/// The sample never exceeds the capacity, every offered item counts once
/// toward `seen` (saturating), and while under capacity every item is kept
/// in arrival order.
pub proof fn lemma_offered_bounds<T>(s: ReservoirState<T>, cap: nat, item: T)
    requires
        s.samples.len() <= cap,
        cap > 0,
    ensures
        offered(s, cap, item).samples.len() <= cap,
        offered(s, cap, item).seen == s.seen.saturating_add(1),
        s.samples.len() < cap ==> offered(s, cap, item).samples == s.samples.push(item),
{
}

/// Streams shorter than the capacity are kept whole, in arrival order, and
/// `seen` counts them.
pub proof fn lemma_short_stream_kept<T>(s: ReservoirState<T>, cap: nat, items: Seq<T>)
    requires
        s.samples.len() + items.len() <= cap,
        s.seen + items.len() <= u64::MAX,
    ensures
        offered_all(s, cap, items).samples == s.samples + items,
        offered_all(s, cap, items).seen == s.seen + items.len(),
    decreases items.len(),
{
    if items.len() == 0 {
        assert(s.samples + items =~= s.samples);
    } else {
        lemma_short_stream_kept(s, cap, items.drop_last());
        assert(s.samples + items =~= (s.samples + items.drop_last()).push(items.last()));
    }
}

/// Sampling is deterministic: the same stream offered to reservoirs in the
/// same state leaves them in the same state.
pub proof fn lemma_same_stream_same_sample<T>(
    a: ReservoirState<T>,
    b: ReservoirState<T>,
    cap: nat,
    items: Seq<T>,
)
    requires
        a == b,
    ensures
        offered_all(a, cap, items) == offered_all(b, cap, items),
{
}

} // verus!
