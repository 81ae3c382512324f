//! Deterministic seeded hashing and the SplitMix64 mixer shared by all sketches.
//!
//! An item is hashed through its canonical byte encoding ([`SketchKey`]): the
//! seed's little-endian bytes and then the item's bytes are written into a
//! fresh `DefaultHasher`, so equal items always hash identically.
use std::collections::hash_map::DefaultHasher;
use std::hash::Hasher;
use vstd::prelude::*;
use vstd::std_specs::hash::DefaultHasherAdditionalSpecFns;
use vstd::string::StringSliceAdditionalSpecFns;

verus! {

/// Little-endian bytes of a 64-bit value.
pub open spec fn u64_bytes(x: u64) -> Seq<u8> {
    seq![
        x as u8,
        (x >> 8u64) as u8,
        (x >> 16u64) as u8,
        (x >> 24u64) as u8,
        (x >> 32u64) as u8,
        (x >> 40u64) as u8,
        (x >> 48u64) as u8,
        (x >> 56u64) as u8,
    ]
}

pub fn u64_to_bytes(x: u64) -> (r: Vec<u8>)
    ensures
        r@ == u64_bytes(x),
{
    vec![
        x as u8,
        (x >> 8u64) as u8,
        (x >> 16u64) as u8,
        (x >> 24u64) as u8,
        (x >> 32u64) as u8,
        (x >> 40u64) as u8,
        (x >> 48u64) as u8,
        (x >> 56u64) as u8,
    ]
}

/// The hash of a byte string under a seed.
pub open spec fn seeded_hash(key: Seq<u8>, seed: u64) -> u64 {
    DefaultHasher::spec_finish(seq![u64_bytes(seed), key])
}

/// Hashes raw bytes under a seed.
pub fn seeded_hash_bytes(bytes: &[u8], seed: u64) -> (r: u64)
    ensures
        r == seeded_hash(bytes@, seed),
{
    let mut hasher = DefaultHasher::new();
    let seed_bytes = u64_to_bytes(seed);
    hasher.write(seed_bytes.as_slice());
    hasher.write(bytes);
    assert(hasher@ =~= seq![u64_bytes(seed), bytes@]);
    hasher.finish()
}

/// An item that a sketch can hash: it has a canonical byte encoding.
pub trait SketchKey {
    /// The canonical encoding of the item.
    spec fn key(&self) -> Seq<u8>;

    fn key_bytes(&self) -> (r: Vec<u8>)
        ensures
            r@ == self.key(),
    ;
}

impl SketchKey for u64 {
    open spec fn key(&self) -> Seq<u8> {
        u64_bytes(*self)
    }

    fn key_bytes(&self) -> (r: Vec<u8>) {
        u64_to_bytes(*self)
    }
}

impl SketchKey for u32 {
    open spec fn key(&self) -> Seq<u8> {
        u64_bytes(*self as u64)
    }

    fn key_bytes(&self) -> (r: Vec<u8>) {
        u64_to_bytes(*self as u64)
    }
}

impl SketchKey for u16 {
    open spec fn key(&self) -> Seq<u8> {
        u64_bytes(*self as u64)
    }

    fn key_bytes(&self) -> (r: Vec<u8>) {
        u64_to_bytes(*self as u64)
    }
}

impl SketchKey for usize {
    open spec fn key(&self) -> Seq<u8> {
        u64_bytes(*self as u64)
    }

    fn key_bytes(&self) -> (r: Vec<u8>) {
        u64_to_bytes(*self as u64)
    }
}

impl SketchKey for i64 {
    open spec fn key(&self) -> Seq<u8> {
        u64_bytes(*self as u64)
    }

    fn key_bytes(&self) -> (r: Vec<u8>) {
        u64_to_bytes(*self as u64)
    }
}

impl SketchKey for i32 {
    open spec fn key(&self) -> Seq<u8> {
        u64_bytes(*self as u64)
    }

    fn key_bytes(&self) -> (r: Vec<u8>) {
        u64_to_bytes(*self as u64)
    }
}

/// Copies a byte slice into a vector.
pub fn bytes_to_vec(bytes: &[u8]) -> (r: Vec<u8>)
    ensures
        r@ == bytes@,
{
    let mut out: Vec<u8> = Vec::new();
    let mut i: usize = 0;
    while i < bytes.len()
        invariant
            i <= bytes@.len(),
            out@ == bytes@.subrange(0, i as int),
        decreases bytes@.len() - i,
    {
        out.push(bytes[i]);
        i = i + 1;
        assert(out@ =~= bytes@.subrange(0, i as int));
    }
    assert(bytes@.subrange(0, bytes@.len() as int) =~= bytes@);
    out
}

impl SketchKey for str {
    open spec fn key(&self) -> Seq<u8> {
        self.spec_bytes()
    }

    fn key_bytes(&self) -> (r: Vec<u8>) {
        bytes_to_vec(self.as_bytes())
    }
}

impl<'a> SketchKey for &'a str {
    open spec fn key(&self) -> Seq<u8> {
        (**self).spec_bytes()
    }

    fn key_bytes(&self) -> (r: Vec<u8>) {
        bytes_to_vec((*self).as_bytes())
    }
}

impl SketchKey for String {
    open spec fn key(&self) -> Seq<u8> {
        vstd::utf8::encode_utf8(self@)
    }

    fn key_bytes(&self) -> (r: Vec<u8>) {
        bytes_to_vec(self.as_str().as_bytes())
    }
}

impl SketchKey for u8 {
    open spec fn key(&self) -> Seq<u8> {
        u64_bytes(*self as u64)
    }

    fn key_bytes(&self) -> (r: Vec<u8>) {
        u64_to_bytes(*self as u64)
    }
}

/// An item that a sketch can keep a copy of.
pub trait TrackedItem: SketchKey + Sized {
    /// A copy of the item, with the same encoding.
    fn duplicate(&self) -> (r: Self)
        ensures
            r.key() == self.key(),
    ;
}

impl TrackedItem for u64 {
    fn duplicate(&self) -> (r: Self) {
        *self
    }
}

impl TrackedItem for u32 {
    fn duplicate(&self) -> (r: Self) {
        *self
    }
}

impl TrackedItem for usize {
    fn duplicate(&self) -> (r: Self) {
        *self
    }
}

impl TrackedItem for i64 {
    fn duplicate(&self) -> (r: Self) {
        *self
    }
}

impl TrackedItem for i32 {
    fn duplicate(&self) -> (r: Self) {
        *self
    }
}

impl<'a> TrackedItem for &'a str {
    fn duplicate(&self) -> (r: Self) {
        *self
    }
}

impl TrackedItem for String {
    fn duplicate(&self) -> (r: Self) {
        self.clone()
    }
}

/// Compares two byte strings for equality.
pub fn same_bytes(a: &[u8], b: &[u8]) -> (r: bool)
    ensures
        r == (a@ == b@),
{
    if a.len() != b.len() {
        return false;
    }
    let mut i: usize = 0;
    while i < a.len()
        invariant
            a@.len() == b@.len(),
            i <= a@.len(),
            forall|t: int| 0 <= t < i ==> a@[t] == b@[t],
        decreases a@.len() - i,
    {
        if a[i] != b[i] {
            return false;
        }
        i = i + 1;
    }
    assert(a@ =~= b@);
    true
}

/// Computes a deterministic 64-bit hash of an item under a seed.
pub fn seeded_hash64<T: SketchKey + ?Sized>(item: &T, seed: u64) -> (r: u64)
    ensures
        r == seeded_hash(item.key(), seed),
{
    let bytes = item.key_bytes();
    seeded_hash_bytes(bytes.as_slice(), seed)
}

/// The SplitMix64 finaliser.
pub open spec fn splitmix(x: u64) -> u64 {
    let a = x.wrapping_add(0x9E37_79B9_7F4A_7C15u64);
    let b = (a ^ (a >> 30u64)).wrapping_mul(0xBF58_476D_1CE4_E5B9u64);
    let c = (b ^ (b >> 27u64)).wrapping_mul(0x94D0_49BB_1331_11EBu64);
    c ^ (c >> 31u64)
}

/// SplitMix64 mixer used for deriving independent row and band seeds.
pub fn splitmix64(x: u64) -> (r: u64)
    ensures
        r == splitmix(x),
{
    let a = x.wrapping_add(0x9E37_79B9_7F4A_7C15u64);
    let b = (a ^ (a >> 30u64)).wrapping_mul(0xBF58_476D_1CE4_E5B9u64);
    let c = (b ^ (b >> 27u64)).wrapping_mul(0x94D0_49BB_1331_11EBu64);
    c ^ (c >> 31u64)
}

/// Seed `i` of a family derived from `base`: `splitmix(i + base)`.
pub open spec fn family_seed(base: u64, i: nat) -> u64 {
    splitmix((i as u64).wrapping_add(base))
}

/// Derives `count` independent-looking seeds by mixing each index into `base`.
pub fn derive_seeds(count: usize, base: u64) -> (r: Vec<u64>)
    ensures
        r@.len() == count,
        forall|i: int| 0 <= i < count ==> r@[i] == family_seed(base, i as nat),
{
    let mut seeds: Vec<u64> = Vec::new();
    let mut i: usize = 0;
    while i < count
        invariant
            i <= count,
            seeds@.len() == i,
            forall|t: int| 0 <= t < i ==> seeds@[t] == family_seed(base, t as nat),
        decreases count - i,
    {
        seeds.push(splitmix64((i as u64).wrapping_add(base)));
        i = i + 1;
    }
    seeds
}

/// Compares two sequences of 64-bit values for equality.
pub fn same_u64s(a: &[u64], b: &[u64]) -> (r: bool)
    ensures
        r == (a@ == b@),
{
    if a.len() != b.len() {
        return false;
    }
    let mut i: usize = 0;
    while i < a.len()
        invariant
            a@.len() == b@.len(),
            i <= a@.len(),
            forall|t: int| 0 <= t < i ==> a@[t] == b@[t],
        decreases a@.len() - i,
    {
        if a[i] != b[i] {
            return false;
        }
        i = i + 1;
    }
    assert(a@ =~= b@);
    true
}

} // verus!
