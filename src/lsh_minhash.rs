//! MinHash banding LSH index for approximate nearest-neighbour candidate search.
//!
//! A signature of `num_hashes` components is split into `bands` groups of
//! `rows_per_band` components; each group is hashed as a whole under its own
//! seed. Every indexed id keeps its signature and its band hashes, so the
//! band -> band hash -> ids table is read off the entries, and a query finds
//! every id that collides with it in at least one band.
//!
//! Entries are kept in a vector in insertion order rather than in hash
//! tables keyed by band hash: a hash set's iteration order is unspecified,
//! so keeping the entries in order is what lets `query_candidates` promise
//! exactly which ids come back and in what order, and lets the top-k query
//! break ties by that order.
use crate::hashing::{derive_seeds, family_seed, seeded_hash, seeded_hash_bytes, u64_bytes};
use crate::minhash::{matching, MinHash};
use crate::order::{last_score, min_len, top_indices};
use crate::SketchError;
use vstd::prelude::*;

verus! {

pub const BAND_SEED_BASE: u64 = 0xA076_1D64_78BD_642F;

/// The bytes of `len` signature components starting at `start`.
pub open spec fn band_bytes(sig: Seq<u64>, start: nat, len: nat) -> Seq<u8>
    decreases len,
{
    if len == 0 {
        Seq::empty()
    } else {
        band_bytes(sig, start, (len - 1) as nat) + u64_bytes(sig[start + len - 1])
    }
}

/// The hash of band `band` of a signature.
pub open spec fn band_hash_of(sig: Seq<u64>, band: nat, rows: nat) -> u64 {
    seeded_hash(band_bytes(sig, band * rows, rows), family_seed(BAND_SEED_BASE, band))
}

/// Whether two signatures collide in at least one of the first `bands` bands.
pub open spec fn collides(a: Seq<u64>, b: Seq<u64>, bands: nat, rows: nat) -> bool {
    exists|band: nat| band < bands && #[trigger] band_hash_of(a, band, rows) == band_hash_of(b, band, rows)
}

/// One indexed signature.
#[derive(Debug, Clone)]
pub struct LshEntry {
    id: u64,
    signature: Vec<u64>,
    observed: bool,
    band_hashes: Vec<u64>,
}

impl LshEntry {
    pub closed spec fn spec_id(&self) -> u64 {
        self.id
    }

    pub closed spec fn sig(&self) -> Seq<u64> {
        self.signature@
    }

    pub closed spec fn observed(&self) -> bool {
        self.observed
    }

    pub closed spec fn hashes(&self) -> Seq<u64> {
        self.band_hashes@
    }
}

/// Similarity of a stored signature to a query, scaled to `n` positions:
/// `n` when neither was ever updated, 0 when exactly one was, otherwise the
/// number of equal positions.
pub open spec fn scaled_similarity(sig: Seq<u64>, observed: bool, q: MinHash, n: nat) -> nat {
    if !observed && !q.observed() {
        n
    } else if !observed || !q.observed() {
        0
    } else {
        matching(sig, q.sig(), n)
    }
}

/// The ids handed out by a top-k query, in order.
pub open spec fn returned_ids(v: Seq<(u64, u64)>) -> Seq<u64> {
    v.map_values(|x: (u64, u64)| x.0)
}

/// Ids of the first `n` entries that collide with signature `q`, in entry order.
pub open spec fn candidates_in(entries: Seq<LshEntry>, q: Seq<u64>, bands: nat, rows: nat, n: nat) -> Seq<u64>
    decreases n,
{
    if n == 0 {
        Seq::empty()
    } else {
        let prev = candidates_in(entries, q, bands, rows, (n - 1) as nat);
        if collides(entries[n - 1].sig(), q, bands, rows) {
            prev.push(entries[n - 1].spec_id())
        } else {
            prev
        }
    }
}

/// Locality-sensitive hashing index built on MinHash signatures.
#[derive(Debug, Clone)]
pub struct MinHashLshIndex {
    num_hashes: usize,
    bands: usize,
    rows_per_band: usize,
    band_seeds: Vec<u64>,
    entries: Vec<LshEntry>,
}

fn push_u64_bytes(out: &mut Vec<u8>, x: u64)
    ensures
        final(out)@ == old(out)@ + u64_bytes(x),
{
    out.push(x as u8);
    out.push((x >> 8u64) as u8);
    out.push((x >> 16u64) as u8);
    out.push((x >> 24u64) as u8);
    out.push((x >> 32u64) as u8);
    out.push((x >> 40u64) as u8);
    out.push((x >> 48u64) as u8);
    out.push((x >> 56u64) as u8);
    assert(out@ =~= old(out)@ + u64_bytes(x));
}

fn copy_u64s(s: &[u64]) -> (r: Vec<u64>)
    ensures
        r@ == s@,
{
    let mut out: Vec<u64> = Vec::new();
    let mut i: usize = 0;
    while i < s.len()
        invariant
            i <= s@.len(),
            out@ == s@.subrange(0, i as int),
        decreases s@.len() - i,
    {
        out.push(s[i]);
        i = i + 1;
        assert(out@ =~= s@.subrange(0, i as int));
    }
    assert(s@.subrange(0, s@.len() as int) =~= s@);
    out
}

impl MinHashLshIndex {
    pub closed spec fn spec_num_hashes(&self) -> nat {
        self.num_hashes as nat
    }

    pub closed spec fn spec_bands(&self) -> nat {
        self.bands as nat
    }

    pub closed spec fn spec_rows_per_band(&self) -> nat {
        self.rows_per_band as nat
    }

    /// The indexed entries, in insertion order.
    pub closed spec fn items(&self) -> Seq<LshEntry> {
        self.entries@
    }

    /// The indexed ids, in insertion order.
    pub open spec fn ids(&self) -> Seq<u64> {
        self.items().map_values(|e: LshEntry| e.spec_id())
    }

    /// Validity: a signature width split evenly into bands, distinct ids,
    /// and stored signatures of that width.
    pub open spec fn wf(&self) -> bool {
        &&& self.spec_num_hashes() > 0
        &&& self.spec_bands() > 0
        &&& self.spec_rows_per_band() > 0
        &&& self.spec_bands() * self.spec_rows_per_band() == self.spec_num_hashes()
        &&& forall|i: int, j: int|
            0 <= i < j < self.items().len() ==> #[trigger] self.items()[i].spec_id() != #[trigger] self.items()[j].spec_id()
        &&& forall|i: int| 0 <= i < self.items().len() ==> #[trigger] self.items()[i].sig().len() == self.spec_num_hashes()
        &&& self.inner_wf()
    }

    pub closed spec fn inner_wf(&self) -> bool {
        &&& self.num_hashes > 0
        &&& self.bands > 0
        &&& self.rows_per_band > 0
        &&& self.bands * self.rows_per_band == self.num_hashes
        &&& self.band_seeds@.len() == self.bands
        &&& forall|b: int| 0 <= b < self.bands ==> self.band_seeds@[b] == family_seed(BAND_SEED_BASE, b as nat)
        &&& forall|i: int| 0 <= i < self.entries@.len() ==> self.entry_wf(#[trigger] self.entries@[i])
        &&& forall|i: int, j: int|
            0 <= i < j < self.entries@.len() ==> #[trigger] self.entries@[i].id != #[trigger] self.entries@[j].id
    }

    pub closed spec fn entry_wf(&self, e: LshEntry) -> bool {
        &&& e.signature@.len() == self.num_hashes
        &&& e.band_hashes@.len() == self.bands
        &&& forall|b: int| 0 <= b < self.bands ==> e.band_hashes@[b] == band_hash_of(e.signature@, b as nat, self.rows_per_band as nat)
    }

    /// The `(id, scaled similarity)` pairs of the entries that collide with the query.
    pub open spec fn scored_candidates_of(&self, q: MinHash) -> Set<(u64, u64)> {
        Set::new(
            |x: (u64, u64)|
                exists|j: int|
                    0 <= j < self.items().len() && collides(
                        self.items()[j].sig(),
                        q.sig(),
                        self.spec_bands(),
                        self.spec_rows_per_band(),
                    ) && x == (#[trigger] self.items()[j].spec_id(), scaled_similarity(
                        self.items()[j].sig(),
                        self.items()[j].observed(),
                        q,
                        self.spec_num_hashes(),
                    ) as u64),
        )
    }

    /// Position of the entry holding `id`, if one does.
    pub open spec fn index_of(&self, id: u64) -> int {
        choose|i: int| 0 <= i < self.items().len() && #[trigger] self.items()[i].spec_id() == id
    }

    proof fn lemma_index_of(&self, i: int)
        requires
            self.wf(),
            0 <= i < self.items().len(),
        ensures
            self.index_of(self.items()[i].spec_id()) == i,
    {
        let id = self.items()[i].spec_id();
        let j = self.index_of(id);
        if j != i {
            if j < i {
                assert(self.items()[j].spec_id() != self.items()[i].spec_id());
            } else {
                assert(self.items()[i].spec_id() != self.items()[j].spec_id());
            }
        }
    }

    /// The ids that share at least one band with signature `q`, in entry order.
    pub open spec fn candidates(&self, q: Seq<u64>) -> Seq<u64> {
        candidates_in(self.items(), q, self.spec_bands(), self.spec_rows_per_band(), self.items().len())
    }

    /// Creates an index for signatures of `num_hashes` components split into
    /// `bands` bands; `num_hashes` must be divisible by `bands`.
    pub fn new(num_hashes: usize, bands: usize) -> (r: Result<Self, SketchError>)
        ensures
            (num_hashes == 0 || bands == 0 || num_hashes % bands != 0) ==> (r matches Err(
                SketchError::InvalidParameter(_),
            )),
            (num_hashes > 0 && bands > 0 && num_hashes % bands == 0) ==> (r matches Ok(x) && x.wf()
                && x.spec_num_hashes() == num_hashes && x.spec_bands() == bands
                && x.spec_rows_per_band() == num_hashes / bands && x.items().len() == 0),
    {
        if num_hashes == 0 {
            return Err(SketchError::InvalidParameter("num_hashes must be greater than zero"));
        }
        if bands == 0 {
            return Err(SketchError::InvalidParameter("bands must be greater than zero"));
        }
        if num_hashes % bands != 0 {
            return Err(SketchError::InvalidParameter("num_hashes must be divisible by bands"));
        }
        let rows_per_band = num_hashes / bands;
        proof {
            vstd::arithmetic::div_mod::lemma_fundamental_div_mod(num_hashes as int, bands as int);
            assert(bands * rows_per_band == num_hashes) by (nonlinear_arith)
                requires
                    num_hashes == bands * (num_hashes / bands) + num_hashes % bands,
                    num_hashes % bands == 0,
                    rows_per_band == num_hashes / bands,
            ;
            assert(rows_per_band > 0) by (nonlinear_arith)
                requires
                    bands * rows_per_band == num_hashes,
                    num_hashes > 0,
            ;
        }
        let band_seeds = derive_seeds(bands, BAND_SEED_BASE);
        Ok(MinHashLshIndex { num_hashes, bands, rows_per_band, band_seeds, entries: Vec::new() })
    }

    /// Returns the MinHash signature width configured for this index.
    pub fn num_hashes(&self) -> (r: usize)
        ensures
            r == self.spec_num_hashes(),
    {
        self.num_hashes
    }

    /// Returns the configured number of bands.
    pub fn bands(&self) -> (r: usize)
        ensures
            r == self.spec_bands(),
    {
        self.bands
    }

    /// Returns the number of rows per band.
    pub fn rows_per_band(&self) -> (r: usize)
        ensures
            r == self.spec_rows_per_band(),
    {
        self.rows_per_band
    }

    /// Returns the number of indexed items.
    pub fn len(&self) -> (r: usize)
        ensures
            r == self.items().len(),
    {
        self.entries.len()
    }

    /// Returns `true` when no items are indexed.
    pub fn is_empty(&self) -> (r: bool)
        ensures
            r == (self.items().len() == 0),
    {
        self.entries.len() == 0
    }

    fn position(&self, id: u64) -> (r: Option<usize>)
        ensures
            r matches Some(i) ==> i < self.items().len() && self.items()[i as int].spec_id() == id,
            r is None ==> !self.ids().contains(id),
    {
        let mut i: usize = 0;
        while i < self.entries.len()
            invariant
                i <= self.entries@.len(),
                forall|t: int| 0 <= t < i ==> self.entries@[t].id != id,
            decreases self.entries@.len() - i,
        {
            if self.entries[i].id == id {
                return Some(i);
            }
            i = i + 1;
        }
        proof {
            if self.ids().contains(id) {
                let t = choose|t: int| 0 <= t < self.ids().len() && self.ids()[t] == id;
                assert(self.entries@[t].id == id);
            }
        }
        None
    }

    /// Returns `true` when an id is currently indexed.
    pub fn contains_id(&self, id: &u64) -> (r: bool)
        ensures
            r == self.ids().contains(*id),
    {
        match self.position(*id) {
            Some(i) => {
                assert(self.ids()[i as int] == *id);
                true
            },
            None => false,
        }
    }

    /// The hash of one band of a signature.
    fn band_hash(&self, signature: &[u64], band: usize) -> (r: u64)
        requires
            self.wf(),
            signature@.len() == self.spec_num_hashes(),
            band < self.spec_bands(),
        ensures
            r == band_hash_of(signature@, band as nat, self.spec_rows_per_band()),
    {
        proof {
            assert(band * self.rows_per_band + self.rows_per_band <= self.num_hashes) by (nonlinear_arith)
                requires
                    band < self.bands,
                    self.bands * self.rows_per_band == self.num_hashes,
            ;
        }
        let start = band * self.rows_per_band;
        let mut bytes: Vec<u8> = Vec::new();
        let mut t: usize = 0;
        while t < self.rows_per_band
            invariant
                self.wf(),
                signature@.len() == self.spec_num_hashes(),
                start + self.rows_per_band <= signature@.len(),
                t <= self.rows_per_band,
                bytes@ == band_bytes(signature@, start as nat, t as nat),
            decreases self.rows_per_band - t,
        {
            push_u64_bytes(&mut bytes, signature[start + t]);
            t = t + 1;
        }
        seeded_hash_bytes(bytes.as_slice(), self.band_seeds[band])
    }

    fn band_hashes(&self, signature: &[u64]) -> (r: Vec<u64>)
        requires
            self.wf(),
            signature@.len() == self.spec_num_hashes(),
        ensures
            r@.len() == self.spec_bands(),
            forall|b: int| 0 <= b < self.spec_bands() ==> r@[b] == band_hash_of(signature@, b as nat, self.spec_rows_per_band()),
    {
        let mut out: Vec<u64> = Vec::new();
        let mut b: usize = 0;
        while b < self.bands
            invariant
                self.wf(),
                signature@.len() == self.spec_num_hashes(),
                b <= self.bands,
                out@.len() == b,
                forall|t: int| 0 <= t < b ==> out@[t] == band_hash_of(signature@, t as nat, self.spec_rows_per_band()),
            decreases self.bands - b,
        {
            out.push(self.band_hash(signature, b));
            b = b + 1;
        }
        out
    }

    /// Removes one indexed id; returns `true` if it was indexed.
    pub fn remove(&mut self, id: &u64) -> (r: bool)
        requires
            old(self).wf(),
        ensures
            final(self).wf(),
            final(self).spec_num_hashes() == old(self).spec_num_hashes(),
            final(self).spec_bands() == old(self).spec_bands(),
            final(self).spec_rows_per_band() == old(self).spec_rows_per_band(),
            r == old(self).ids().contains(*id),
            !final(self).ids().contains(*id),
            !r ==> final(self).items() == old(self).items(),
            r ==> 0 <= old(self).index_of(*id) < old(self).items().len()
                && old(self).items()[old(self).index_of(*id)].spec_id() == *id
                && final(self).items() == old(self).items().remove(old(self).index_of(*id)),
    {
        match self.position(*id) {
            None => false,
            Some(i) => {
                assert(old(self).ids()[i as int] == *id);
                proof {
                    old(self).lemma_index_of(i as int);
                }
                self.entries.remove(i);
                proof {
                    assert forall|t: int| 0 <= t < self.entries@.len() implies self.entries@[t].id != *id by {
                        if t < i {
                            assert(old(self).entries@[t].id != old(self).entries@[i as int].id);
                        } else {
                            assert(old(self).entries@[t + 1].id != old(self).entries@[i as int].id);
                        }
                    }
                    if self.ids().contains(*id) {
                        let t = choose|t: int| 0 <= t < self.ids().len() && self.ids()[t] == *id;
                        assert(self.entries@[t].id == *id);
                    }
                    assert forall|a: int, b: int| 0 <= a < b < self.entries@.len() implies #[trigger] self.entries@[a].id != #[trigger] self.entries@[b].id by {
                        let a0 = if a < i { a } else { a + 1 };
                        let b0 = if b < i { b } else { b + 1 };
                        assert(old(self).entries@[a0].id != old(self).entries@[b0].id);
                    }
                    assert forall|t: int| 0 <= t < self.entries@.len() implies self.entry_wf(#[trigger] self.entries@[t]) by {
                        let t0 = if t < i { t } else { t + 1 };
                        assert(old(self).entry_wf(old(self).entries@[t0]));
                    }
                }
                true
            },
        }
    }

    /// Inserts (or replaces) the signature indexed under `id`.
    pub fn insert(&mut self, id: u64, signature: &MinHash) -> (r: Result<(), SketchError>)
        requires
            old(self).wf(),
            signature.wf(),
        ensures
            final(self).wf(),
            final(self).spec_num_hashes() == old(self).spec_num_hashes(),
            final(self).spec_bands() == old(self).spec_bands(),
            final(self).spec_rows_per_band() == old(self).spec_rows_per_band(),
            signature.sig().len() != old(self).spec_num_hashes() ==> (r matches Err(
                SketchError::IncompatibleSketches(_),
            ) && *final(self) == *old(self)),
            signature.sig().len() == old(self).spec_num_hashes() ==> (r is Ok
                && final(self).ids().contains(id)
                && final(self).items().last().spec_id() == id
                && final(self).items().last().sig() == signature.sig()
                && final(self).items().last().observed() == signature.observed()
                && final(self).items().drop_last() == (if old(self).ids().contains(id) {
                    old(self).items().remove(old(self).index_of(id))
                } else {
                    old(self).items()
                })
                && forall|other: u64| other != id ==> (final(self).ids().contains(other) == old(self).ids().contains(other))),
    {
        if signature.num_hashes() != self.num_hashes {
            return Err(
                SketchError::IncompatibleSketches("signature num_hashes must match index num_hashes"),
            );
        }
        let ghost before = self.items();
        self.remove(&id);
        let ghost mid = self.items();
        assert(old(self).items() == before);
        assert(mid == (if old(self).ids().contains(id) {
            old(self).items().remove(old(self).index_of(id))
        } else {
            old(self).items()
        }));
        let sig = copy_u64s(signature.signature());
        let hashes = self.band_hashes(sig.as_slice());
        let entry = LshEntry { id, signature: sig, observed: !signature.is_empty(), band_hashes: hashes };
        self.entries.push(entry);
        proof {
            assert(self.entries@.last().id == id);
            assert(self.items().drop_last() =~= mid);
            assert(self.ids().contains(id)) by {
                assert(self.ids()[self.ids().len() - 1] == id);
            }
            assert forall|a: int, b: int| 0 <= a < b < self.entries@.len() implies #[trigger] self.entries@[a].id != #[trigger] self.entries@[b].id by {
                if b == self.entries@.len() - 1 {
                    assert(mid[a].spec_id() == self.ids()[a]);
                    if mid[a].spec_id() == id {
                        assert(self.ids().contains(id));
                        assert(mid.map_values(|e: LshEntry| e.spec_id())[a] == id);
                    }
                }
            }
            assert forall|t: int| 0 <= t < self.entries@.len() implies self.entry_wf(#[trigger] self.entries@[t]) by {
                if t < mid.len() {
                    assert(mid[t] == self.entries@[t]);
                }
            }
            assert forall|other: u64| other != id implies (self.ids().contains(other) == old(self).ids().contains(other)) by {
                if self.ids().contains(other) {
                    let t = choose|t: int| 0 <= t < self.ids().len() && self.ids()[t] == other;
                    assert(self.entries@[t].id == other);
                    assert(t < mid.len());
                    assert(mid[t].spec_id() == other);
                    if mid == before {
                        assert(old(self).ids()[t] == other);
                    } else {
                        let i = old(self).index_of(id);
                        let t0 = if t < i { t } else { t + 1 };
                        assert(before[t0].spec_id() == other);
                        assert(old(self).ids()[t0] == other);
                    }
                }
                if old(self).ids().contains(other) {
                    let t = choose|t: int| 0 <= t < old(self).ids().len() && old(self).ids()[t] == other;
                    assert(before[t].spec_id() == other);
                    if mid == before {
                        assert(self.entries@[t].id == other);
                        assert(self.ids()[t] == other);
                    } else {
                        let i = old(self).index_of(id);
                        let t2 = if t < i { t } else { t - 1 };
                        assert(t != i);
                        assert(mid[t2].spec_id() == other);
                        assert(self.entries@[t2].id == other);
                        assert(self.ids()[t2] == other);
                    }
                }
            }
        }
        Ok(())
    }

    /// Returns the ids that share at least one band with the query.
    pub fn query_candidates(&self, query: &MinHash) -> (r: Result<Vec<u64>, SketchError>)
        requires
            self.wf(),
            query.wf(),
        ensures
            query.sig().len() != self.spec_num_hashes() ==> (r matches Err(
                SketchError::IncompatibleSketches(_),
            )),
            query.sig().len() == self.spec_num_hashes() ==> (r matches Ok(v) && v@ == self.candidates(query.sig())),
    {
        if query.num_hashes() != self.num_hashes {
            return Err(
                SketchError::IncompatibleSketches("signature num_hashes must match index num_hashes"),
            );
        }
        let qh = self.band_hashes(query.signature());
        let mut out: Vec<u64> = Vec::new();
        let mut i: usize = 0;
        while i < self.entries.len()
            invariant
                self.wf(),
                query.sig().len() == self.spec_num_hashes(),
                qh@.len() == self.spec_bands(),
                forall|b: int| 0 <= b < self.spec_bands() ==> qh@[b] == band_hash_of(query.sig(), b as nat, self.spec_rows_per_band()),
                i <= self.entries@.len(),
                out@ == candidates_in(self.items(), query.sig(), self.spec_bands(), self.spec_rows_per_band(), i as nat),
            decreases self.entries@.len() - i,
        {
            if self.entry_collides(i, &qh, query) {
                out.push(self.entries[i].id);
            }
            i = i + 1;
        }
        Ok(out)
    }

    /// Whether entry `i` shares a band hash with the query's band hashes `qh`.
    fn entry_collides(&self, i: usize, qh: &Vec<u64>, query: &MinHash) -> (r: bool)
        requires
            self.wf(),
            i < self.items().len(),
            query.sig().len() == self.spec_num_hashes(),
            qh@.len() == self.spec_bands(),
            forall|b: int| 0 <= b < self.spec_bands() ==> qh@[b] == band_hash_of(query.sig(), b as nat, self.spec_rows_per_band()),
        ensures
            r == collides(self.items()[i as int].sig(), query.sig(), self.spec_bands(), self.spec_rows_per_band()),
    {
        let e = &self.entries[i];
        assert(self.entry_wf(self.entries@[i as int]));
        let mut hit = false;
        let mut b: usize = 0;
        while b < self.bands
            invariant
                self.wf(),
                self.entry_wf(*e),
                qh@.len() == self.spec_bands(),
                forall|t: int| 0 <= t < self.spec_bands() ==> qh@[t] == band_hash_of(query.sig(), t as nat, self.spec_rows_per_band()),
                b <= self.bands,
                hit == exists|t: nat| t < b && #[trigger] band_hash_of(e.sig(), t, self.spec_rows_per_band()) == band_hash_of(query.sig(), t, self.spec_rows_per_band()),
            decreases self.bands - b,
        {
            if e.band_hashes[b] == qh[b] {
                hit = true;
            }
            proof {
                if e.band_hashes@[b as int] == qh@[b as int] {
                    assert(band_hash_of(e.sig(), b as nat, self.spec_rows_per_band()) == band_hash_of(query.sig(), b as nat, self.spec_rows_per_band()));
                }
            }
            b = b + 1;
            proof {
                if !hit {
                    assert forall|t: nat| t < b implies #[trigger] band_hash_of(e.sig(), t, self.spec_rows_per_band()) != band_hash_of(query.sig(), t, self.spec_rows_per_band()) by {
                        if t < b - 1 {
                        } else {
                            assert(e.band_hashes@[t as int] != qh@[t as int]);
                        }
                    }
                }
            }
        }
        hit
    }

    /// Similarity of entry `i` to the query, scaled to `num_hashes` positions.
    fn entry_similarity(&self, i: usize, query: &MinHash) -> (r: usize)
        requires
            self.wf(),
            query.wf(),
            i < self.items().len(),
            query.sig().len() == self.spec_num_hashes(),
        ensures
            r == scaled_similarity(self.items()[i as int].sig(), self.items()[i as int].observed(), *query, self.spec_num_hashes()),
            r <= self.spec_num_hashes(),
    {
        let e = &self.entries[i];
        assert(self.entry_wf(self.entries@[i as int]));
        let q = query.signature();
        let n = self.num_hashes;
        if !e.observed && query.is_empty() {
            return n;
        }
        if !e.observed || query.is_empty() {
            return 0;
        }
        let mut matches: usize = 0;
        let mut t: usize = 0;
        while t < n
            invariant
                n == self.spec_num_hashes(),
                e.signature@.len() == n,
                q@.len() == n,
                q@ == query.sig(),
                t <= n,
                matches == matching(e.sig(), q@, t as nat),
                matches <= t,
            decreases n - t,
        {
            if e.signature[t] == q[t] {
                matches = matches + 1;
            }
            t = t + 1;
        }
        matches
    }

    /// Positions (in entry order) of the entries that collide with the query,
    /// and the scaled similarity of each.
    fn scored_candidates(&self, query: &MinHash) -> (r: (Vec<usize>, Vec<u64>))
        requires
            self.wf(),
            query.wf(),
            query.sig().len() == self.spec_num_hashes(),
        ensures
            r.0@.len() == r.1@.len(),
            r.0@.len() == self.candidates(query.sig()).len(),
            forall|t: int| 0 <= t < r.0@.len() ==> #[trigger] r.0@[t] < self.items().len(),
            forall|a: int, b: int| 0 <= a < b < r.0@.len() ==> r.0@[a] < r.0@[b],
            forall|t: int| 0 <= t < r.0@.len() ==> collides(self.items()[r.0@[t] as int].sig(), query.sig(), self.spec_bands(), self.spec_rows_per_band()),
            forall|t: int| 0 <= t < r.0@.len() ==> r.1@[t] == scaled_similarity(self.items()[r.0@[t] as int].sig(), self.items()[r.0@[t] as int].observed(), *query, self.spec_num_hashes()),
            forall|j: int| 0 <= j < self.items().len() && collides(#[trigger] self.items()[j].sig(), query.sig(), self.spec_bands(), self.spec_rows_per_band()) ==> r.0@.contains(j as usize),
            r.0@.len() <= self.items().len() <= usize::MAX,
    {
        let qh = self.band_hashes(query.signature());
        let mut positions: Vec<usize> = Vec::new();
        let mut scores: Vec<u64> = Vec::new();
        let mut i: usize = 0;
        while i < self.entries.len()
            invariant
                self.wf(),
                query.wf(),
                query.sig().len() == self.spec_num_hashes(),
                qh@.len() == self.spec_bands(),
                forall|b: int| 0 <= b < self.spec_bands() ==> qh@[b] == band_hash_of(query.sig(), b as nat, self.spec_rows_per_band()),
                i <= self.entries@.len(),
                positions@.len() == scores@.len(),
                positions@.len() == candidates_in(self.items(), query.sig(), self.spec_bands(), self.spec_rows_per_band(), i as nat).len(),
                forall|t: int| 0 <= t < positions@.len() ==> #[trigger] positions@[t] < i,
                forall|a: int, b: int| 0 <= a < b < positions@.len() ==> positions@[a] < positions@[b],
                forall|t: int| 0 <= t < positions@.len() ==> collides(self.items()[positions@[t] as int].sig(), query.sig(), self.spec_bands(), self.spec_rows_per_band()),
                forall|t: int| 0 <= t < positions@.len() ==> scores@[t] == scaled_similarity(self.items()[positions@[t] as int].sig(), self.items()[positions@[t] as int].observed(), *query, self.spec_num_hashes()),
                forall|j: int| 0 <= j < i && collides(#[trigger] self.items()[j].sig(), query.sig(), self.spec_bands(), self.spec_rows_per_band()) ==> positions@.contains(j as usize),
                positions@.len() <= i,
            decreases self.entries@.len() - i,
        {
            if self.entry_collides(i, &qh, query) {
                let sc = self.entry_similarity(i, query);
                let ghost before = positions@;
                positions.push(i);
                scores.push(sc as u64);
                proof {
                    assert(positions@[positions@.len() - 1] == i);
                    assert forall|j: int| 0 <= j < i + 1 && collides(#[trigger] self.items()[j].sig(), query.sig(), self.spec_bands(), self.spec_rows_per_band()) implies positions@.contains(j as usize) by {
                        if j < i {
                            let t = choose|t: int| 0 <= t < before.len() && before[t] == j as usize;
                            assert(positions@[t] == j as usize);
                        }
                    }
                }
            }
            i = i + 1;
        }
        (positions, scores)
    }

    proof fn lemma_left_out_candidates(
        &self,
        query: MinHash,
        k: usize,
        positions: Seq<usize>,
        scores: Seq<u64>,
        top: Seq<usize>,
        out: Seq<(u64, u64)>,
    )
        requires
            self.wf(),
            self.items().len() <= usize::MAX,
            positions.len() <= usize::MAX,
            positions.len() == scores.len(),
            forall|u: int| 0 <= u < positions.len() ==> #[trigger] positions[u] < self.items().len(),
            forall|j: int| 0 <= j < self.items().len() && collides(#[trigger] self.items()[j].sig(), query.sig(), self.spec_bands(), self.spec_rows_per_band()) ==> positions.contains(j as usize),
            forall|u: int| 0 <= u < positions.len() ==> scores[u] == scaled_similarity(self.items()[positions[u] as int].sig(), self.items()[positions[u] as int].observed(), query, self.spec_num_hashes()),
            top.len() == min_len(k as nat, scores.len()),
            forall|u: int| 0 <= u < top.len() ==> top[u] < scores.len(),
            k > 0 ==> forall|j: usize|
                (j as int) < scores.len() ==> top.contains(j) || #[trigger] scores[j as int] <= last_score(scores, top),
            out.len() == top.len(),
            forall|u: int| 0 <= u < out.len() ==> #[trigger] out[u] == (self.items()[positions[top[u] as int] as int].spec_id(), scores[top[u] as int]),
        ensures
            k > 0 ==> forall|j: int| 0 <= j < self.items().len() && collides(self.items()[j].sig(), query.sig(), self.spec_bands(), self.spec_rows_per_band())
                ==> returned_ids(out).contains(self.items()[j].spec_id())
                    || #[trigger] scaled_similarity(self.items()[j].sig(), self.items()[j].observed(), query, self.spec_num_hashes()) <= out.last().1,
    {
        if k > 0 {
            assert forall|j: int| 0 <= j < self.items().len() && collides(self.items()[j].sig(), query.sig(), self.spec_bands(), self.spec_rows_per_band())
                implies returned_ids(out).contains(self.items()[j].spec_id())
                    || #[trigger] scaled_similarity(self.items()[j].sig(), self.items()[j].observed(), query, self.spec_num_hashes()) <= out.last().1 by {
                assert(positions.contains(j as usize));
                let u = choose|u: int| 0 <= u < positions.len() && positions[u] == j as usize;
                let uu = u as usize;
                assert(positions[u] as int == j);
                assert(scores[u] == scaled_similarity(self.items()[j].sig(), self.items()[j].observed(), query, self.spec_num_hashes()));
                if top.contains(uu) {
                    let t = choose|t: int| 0 <= t < top.len() && top[t] == uu;
                    assert(out[t] == (self.items()[positions[top[t] as int] as int].spec_id(), scores[top[t] as int]));
                    assert(top[t] as int == u);
                    assert(returned_ids(out)[t] == out[t].0);
                    assert(returned_ids(out)[t] == self.items()[j].spec_id());
                } else {
                    assert(scores[uu as int] <= last_score(scores, top));
                    assert(out[out.len() - 1] == (self.items()[positions[top[top.len() - 1] as int] as int].spec_id(), scores[top[top.len() - 1] as int]));
                }
            }
        }
    }

    /// The `k` best candidates for the query, best first, each with its
    /// similarity scaled to `num_hashes` positions (the estimate is that
    /// number over `num_hashes`).
    #[verifier::rlimit(60)]
    pub fn query_top_k_scaled(&self, query: &MinHash, k: usize) -> (r: Result<Vec<(u64, u64)>, SketchError>)
        requires
            self.wf(),
            query.wf(),
        ensures
            query.sig().len() != self.spec_num_hashes() ==> (r matches Err(
                SketchError::IncompatibleSketches(_),
            )),
            query.sig().len() == self.spec_num_hashes() ==> (r matches Ok(v)
                && v@.len() == min_len(k as nat, self.candidates(query.sig()).len())
                && (forall|a: int, b: int| 0 <= a < b < v@.len() ==> v@[a].1 >= v@[b].1)
                && (forall|a: int, b: int| 0 <= a < b < v@.len() ==> v@[a].0 != v@[b].0)
                && (forall|t: int| 0 <= t < v@.len() ==> self.scored_candidates_of(*query).contains(#[trigger] v@[t]))
                && (k > 0 ==> forall|j: int| 0 <= j < self.items().len() && collides(self.items()[j].sig(), query.sig(), self.spec_bands(), self.spec_rows_per_band())
                    ==> returned_ids(v@).contains(self.items()[j].spec_id())
                        || #[trigger] scaled_similarity(self.items()[j].sig(), self.items()[j].observed(), *query, self.spec_num_hashes()) <= v@.last().1)),
    {
        if query.num_hashes() != self.num_hashes {
            return Err(
                SketchError::IncompatibleSketches("signature num_hashes must match index num_hashes"),
            );
        }
        let (positions, scores) = self.scored_candidates(query);
        let top = top_indices(&scores, k);
        let mut out: Vec<(u64, u64)> = Vec::new();
        let mut t: usize = 0;
        while t < top.len()
            invariant
                self.wf(),
                t <= top@.len(),
                out@.len() == t,
                positions@.len() == scores@.len(),
                forall|u: int| 0 <= u < positions@.len() ==> #[trigger] positions@[u] < self.items().len(),
                forall|a: int, b: int| 0 <= a < b < positions@.len() ==> positions@[a] < positions@[b],
                forall|u: int| 0 <= u < top@.len() ==> top@[u] < scores@.len(),
                forall|a: int, b: int| 0 <= a < b < top@.len() ==> top@[a] != top@[b],
                forall|a: int, b: int| 0 <= a < b < top@.len() ==> scores@[top@[a] as int] >= scores@[top@[b] as int],
                forall|u: int| 0 <= u < positions@.len() ==> collides(self.items()[positions@[u] as int].sig(), query.sig(), self.spec_bands(), self.spec_rows_per_band()),
                forall|u: int| 0 <= u < positions@.len() ==> scores@[u] == scaled_similarity(self.items()[positions@[u] as int].sig(), self.items()[positions@[u] as int].observed(), *query, self.spec_num_hashes()),
                forall|u: int| 0 <= u < t ==> #[trigger] out@[u] == (self.items()[positions@[top@[u] as int] as int].spec_id(), scores@[top@[u] as int]),
            decreases top@.len() - t,
        {
            let pos = positions[top[t]];
            out.push((self.entries[pos].id, scores[top[t]]));
            t = t + 1;
        }
        proof {
            assert(out@.len() == min_len(k as nat, self.candidates(query.sig()).len()));
            assert forall|a: int, b: int| 0 <= a < b < out@.len() implies out@[a].1 >= out@[b].1 by {
                assert(out@[a].1 == scores@[top@[a] as int]);
                assert(out@[b].1 == scores@[top@[b] as int]);
            }
            assert forall|a: int, b: int| 0 <= a < b < out@.len() implies out@[a].0 != out@[b].0 by {
                let pa = positions@[top@[a] as int] as int;
                let pb = positions@[top@[b] as int] as int;
                if top@[a] < top@[b] {
                    assert(pa < pb);
                } else {
                    assert(pb < pa);
                }
                assert(self.entries@[pa].id != self.entries@[pb].id);
            }
            self.lemma_left_out_candidates(*query, k, positions@, scores@, top@, out@);
            assert forall|u: int| 0 <= u < out@.len() implies self.scored_candidates_of(*query).contains(#[trigger] out@[u]) by {
                let j = positions@[top@[u] as int] as int;
                assert(out@[u] == (self.items()[j].spec_id(), scores@[top@[u] as int]));
            }
        }
        Ok(out)
    }

    /// Clears all index state.
    pub fn clear(&mut self)
        requires
            old(self).wf(),
        ensures
            final(self).wf(),
            final(self).spec_num_hashes() == old(self).spec_num_hashes(),
            final(self).spec_bands() == old(self).spec_bands(),
            final(self).spec_rows_per_band() == old(self).spec_rows_per_band(),
            final(self).items().len() == 0,
    {
        self.entries = Vec::new();
    }
}

proof fn lemma_candidates_in_contains(
    entries: Seq<LshEntry>,
    q: Seq<u64>,
    bands: nat,
    rows: nat,
    n: nat,
    j: int,
)
    requires
        0 <= j < n <= entries.len(),
        collides(entries[j].sig(), q, bands, rows),
    ensures
        candidates_in(entries, q, bands, rows, n).contains(entries[j].spec_id()),
    decreases n,
{
    let c = candidates_in(entries, q, bands, rows, n);
    if j == n - 1 {
        assert(c.last() == entries[j].spec_id());
        assert(c[c.len() - 1] == entries[j].spec_id());
    } else {
        lemma_candidates_in_contains(entries, q, bands, rows, (n - 1) as nat, j);
        let prev = candidates_in(entries, q, bands, rows, (n - 1) as nat);
        let t = choose|t: int| 0 <= t < prev.len() && prev[t] == entries[j].spec_id();
        assert(c[t] == entries[j].spec_id());
    }
}

proof fn lemma_first_band_collides(a: Seq<u64>, b: Seq<u64>, bands: nat, rows: nat)
    requires
        bands > 0,
        band_hash_of(a, 0, rows) == band_hash_of(b, 0, rows),
    ensures
        collides(a, b, bands, rows),
{
    assert(band_hash_of(a, 0nat, rows) == band_hash_of(b, 0nat, rows));
}

/// An indexed signature is always found by a query with the same signature:
/// every band hashes alike, so they collide in the first band.
pub proof fn lemma_identical_signature_is_candidate(index: MinHashLshIndex, j: int)
    requires
        index.wf(),
        0 <= j < index.items().len(),
    ensures
        index.candidates(index.items()[j].sig()).contains(index.items()[j].spec_id()),
{
    let q = index.items()[j].sig();
    assert(index.spec_bands() > 0);
    assert(band_hash_of(q, 0nat, index.spec_rows_per_band()) == band_hash_of(q, 0nat, index.spec_rows_per_band()));
    lemma_first_band_collides(q, q, index.spec_bands(), index.spec_rows_per_band());
    lemma_candidates_in_contains(
        index.items(),
        q,
        index.spec_bands(),
        index.spec_rows_per_band(),
        index.items().len(),
        j,
    );
}

} // verus!
