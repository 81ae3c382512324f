//! HyperLogLog cardinality estimator: register maintenance, merging and the
//! exact integer summary that the floating-point estimator reads.
use crate::hashing::{seeded_hash, seeded_hash64, SketchKey};
use crate::SketchError;
use vstd::prelude::*;
use vstd::std_specs::bits::{axiom_u64_leading_zeros, u64_leading_zeros};

verus! {

pub const MIN_PRECISION: u8 = 4;

pub const MAX_PRECISION: u8 = 18;

pub const HASH_SEED: u64 = 0xD6E8_FD93_5E7A_4A6D;

/// Number of registers, `2^p`.
pub open spec fn register_total(p: nat) -> nat {
    (1u64 << (p as u64)) as nat
}

/// Register addressed by a hash: its top `p` bits.
pub open spec fn register_index(h: u64, p: nat) -> nat {
    (h >> ((64 - p) as u64)) as nat
}

/// Rank of a hash: the 1-based position of the first set bit after the top
/// `p` bits, capped at `64 - p + 1`.
pub open spec fn rank_of(h: u64, p: nat) -> u8 {
    let r = u64_leading_zeros(h << (p as u64)) + 1;
    if r > 65 - p {
        (65 - p) as u8
    } else {
        r as u8
    }
}

/// Registers after observing an item with encoding `key`.
pub open spec fn add_key(regs: Seq<u8>, p: nat, key: Seq<u8>) -> Seq<u8> {
    let h = seeded_hash(key, HASH_SEED);
    let i = register_index(h, p) as int;
    let r = rank_of(h, p);
    if r > regs[i] {
        regs.update(i, r)
    } else {
        regs
    }
}

/// All-zero registers of a sketch with precision `p`.
pub open spec fn empty_registers(p: nat) -> Seq<u8> {
    Seq::new(register_total(p), |i: int| 0u8)
}

/// Registers of a fresh sketch of precision `p` after observing `keys` in order.
pub open spec fn registers_of(keys: Seq<Seq<u8>>, p: nat) -> Seq<u8>
    decreases keys.len(),
{
    if keys.len() == 0 {
        empty_registers(p)
    } else {
        add_key(registers_of(keys.drop_last(), p), p, keys.last())
    }
}

/// Register-wise maximum.
pub open spec fn max_registers(a: Seq<u8>, b: Seq<u8>) -> Seq<u8> {
    Seq::new(a.len(), |i: int| if a[i] >= b[i] { a[i] } else { b[i] })
}

/// `sum_{i < n} 2^(61 - regs[i])`: the harmonic sum `sum 2^-reg` scaled by `2^61`.
pub open spec fn scaled_harmonic_sum(regs: Seq<u8>, n: nat) -> nat
    decreases n,
{
    if n == 0 {
        0
    } else {
        scaled_harmonic_sum(regs, (n - 1) as nat) + vstd::arithmetic::power2::pow2(
            (61 - regs[n - 1]) as nat,
        )
    }
}

/// Number of zero registers among the first `n`.
pub open spec fn zero_count(regs: Seq<u8>, n: nat) -> nat
    decreases n,
{
    if n == 0 {
        0
    } else {
        zero_count(regs, (n - 1) as nat) + if regs[n - 1] == 0 {
            1nat
        } else {
            0nat
        }
    }
}

proof fn lemma_index_bound(h: u64, p: u64)
    requires
        4 <= p <= 18,
    ensures
        (h >> ((64 - p) as u64)) < (1u64 << p),
        (1u64 << p) <= 262144,
        (1u64 << p) >= 16,
{
    assert((h >> ((64 - p) as u64)) < (1u64 << p)) by (bit_vector)
        requires
            4 <= p <= 18,
    ;
    assert((1u64 << p) <= 262144 && (1u64 << p) >= 16) by (bit_vector)
        requires
            4 <= p <= 18,
    ;
}

/// Approximate distinct counter using HyperLogLog registers.
#[derive(Debug, Clone)]
pub struct HyperLogLog {
    precision: u8,
    registers: Vec<u8>,
}

impl HyperLogLog {
    pub closed spec fn spec_precision(&self) -> nat {
        self.precision as nat
    }

    /// The registers.
    pub closed spec fn registers(&self) -> Seq<u8> {
        self.registers@
    }

    /// Validity: a precision in `[4, 18]`, `2^precision` registers, each a
    /// rank of at most 61.
    pub open spec fn wf(&self) -> bool {
        &&& MIN_PRECISION <= self.spec_precision() <= MAX_PRECISION
        &&& self.registers().len() == register_total(self.spec_precision())
        &&& forall|i: int| 0 <= i < self.registers().len() ==> #[trigger] self.registers()[i] <= 61
        &&& self.inner_wf()
    }

    pub closed spec fn inner_wf(&self) -> bool {
        &&& MIN_PRECISION <= self.precision <= MAX_PRECISION
        &&& self.registers@.len() == register_total(self.precision as nat)
        &&& forall|i: int| 0 <= i < self.registers@.len() ==> self.registers@[i] <= 61
    }

    /// Creates a HyperLogLog with `2^precision` registers; precision must lie
    /// in `[4, 18]`.
    pub fn new(precision: u8) -> (r: Result<Self, SketchError>)
        ensures
            (precision < MIN_PRECISION || precision > MAX_PRECISION) ==> (r matches Err(
                SketchError::InvalidParameter(_),
            )),
            MIN_PRECISION <= precision <= MAX_PRECISION ==> (r matches Ok(s) && s.wf()
                && s.spec_precision() == precision && s.registers() == empty_registers(
                precision as nat,
            )),
    {
        if precision < MIN_PRECISION || precision > MAX_PRECISION {
            return Err(
                SketchError::InvalidParameter("precision must be in the inclusive range [4, 18]"),
            );
        }
        proof {
            lemma_index_bound(0, precision as u64);
        }
        let register_count = (1u64 << (precision as u64)) as usize;
        let s = HyperLogLog { precision, registers: vec![0u8; register_count] };
        assert(s.registers() =~= empty_registers(precision as nat));
        Ok(s)
    }

    /// Returns the configured precision.
    pub fn precision(&self) -> (r: u8)
        ensures
            r == self.spec_precision(),
    {
        self.precision
    }

    /// Returns the number of registers (`2^precision`).
    pub fn register_count(&self) -> (r: usize)
        ensures
            r == self.registers().len(),
    {
        self.registers.len()
    }

    /// Returns `true` if no item has been observed yet.
    pub fn is_empty(&self) -> (r: bool)
        ensures
            r == (forall|i: int| 0 <= i < self.registers().len() ==> self.registers()[i] == 0),
    {
        let mut i: usize = 0;
        while i < self.registers.len()
            invariant
                i <= self.registers@.len(),
                forall|t: int| 0 <= t < i ==> self.registers@[t] == 0,
            decreases self.registers@.len() - i,
        {
            if self.registers[i] != 0 {
                assert(self.registers()[i as int] != 0);
                return false;
            }
            i = i + 1;
        }
        true
    }

    /// Adds one item: its register keeps the maximum rank seen.
    pub fn add<T: SketchKey + ?Sized>(&mut self, item: &T)
        requires
            old(self).wf(),
        ensures
            final(self).wf(),
            final(self).spec_precision() == old(self).spec_precision(),
            final(self).registers() == add_key(
                old(self).registers(),
                old(self).spec_precision(),
                item.key(),
            ),
    {
        let hash = seeded_hash64(item, HASH_SEED);
        let p = self.precision as u64;
        proof {
            lemma_index_bound(hash, p);
            axiom_u64_leading_zeros(hash << p);
        }
        let index = (hash >> (64 - p)) as usize;
        let lz = (hash << p).leading_zeros();
        let rank: u8 = if lz as u64 + 1 > 65 - p {
            (65 - p) as u8
        } else {
            (lz + 1) as u8
        };
        assert(rank == rank_of(hash, p as nat));
        if rank > self.registers[index] {
            self.registers.set(index, rank);
        }
    }

    /// Resets all registers to zero.
    pub fn clear(&mut self)
        requires
            old(self).wf(),
        ensures
            final(self).wf(),
            final(self).spec_precision() == old(self).spec_precision(),
            final(self).registers() == empty_registers(old(self).spec_precision()),
    {
        let n = self.registers.len();
        let mut i: usize = 0;
        while i < n
            invariant
                n == self.registers@.len(),
                self.precision == old(self).precision,
                self.wf(),
                i <= n,
                forall|t: int| 0 <= t < i ==> self.registers@[t] == 0u8,
            decreases n - i,
        {
            self.registers.set(i, 0);
            i = i + 1;
        }
        assert(self.registers() =~= empty_registers(self.spec_precision()));
    }

    /// Merges another sketch into this one by register-wise maximum.
    pub fn merge(&mut self, other: &Self) -> (r: Result<(), SketchError>)
        requires
            old(self).wf(),
            other.wf(),
        ensures
            final(self).wf(),
            final(self).spec_precision() == old(self).spec_precision(),
            old(self).spec_precision() != other.spec_precision() ==> (r matches Err(
                SketchError::IncompatibleSketches(_),
            ) && *final(self) == *old(self)),
            old(self).spec_precision() == other.spec_precision() ==> (r is Ok
                && final(self).registers() == max_registers(old(self).registers(), other.registers())),
    {
        if self.precision != other.precision {
            return Err(SketchError::IncompatibleSketches("precision must match for merge"));
        }
        let n = self.registers.len();
        let mut i: usize = 0;
        while i < n
            invariant
                n == self.registers@.len(),
                n == other.registers@.len(),
                other.wf(),
                self.precision == old(self).precision,
                self.wf(),
                i <= n,
                forall|t: int|
                    0 <= t < i ==> self.registers@[t] == (if old(self).registers@[t]
                        >= other.registers@[t] {
                        old(self).registers@[t]
                    } else {
                        other.registers@[t]
                    }),
                forall|t: int| i <= t < n ==> self.registers@[t] == old(self).registers@[t],
            decreases n - i,
        {
            let o = other.registers[i];
            assert(o <= 61);
            if o > self.registers[i] {
                self.registers.set(i, o);
            }
            i = i + 1;
        }
        assert(self.registers() =~= max_registers(old(self).registers(), other.registers()));
        Ok(())
    }

    /// The exact inputs of the cardinality estimator: the harmonic sum
    /// `sum 2^-reg` scaled by `2^61`, and the number of zero registers.
    pub fn register_summary(&self) -> (r: (u128, usize))
        requires
            self.wf(),
        ensures
            r.0 == scaled_harmonic_sum(self.registers(), self.registers().len()),
            r.1 == zero_count(self.registers(), self.registers().len()),
    {
        let n = self.registers.len();
        let mut sum: u128 = 0;
        let mut zeros: usize = 0;
        let mut i: usize = 0;
        proof {
            lemma_index_bound(0, self.precision as u64);
        }
        while i < n
            invariant
                n == self.registers@.len(),
                n <= 262144,
                self.wf(),
                i <= n,
                sum == scaled_harmonic_sum(self.registers(), i as nat),
                sum <= i * 0x2000_0000_0000_0000,
                zeros == zero_count(self.registers(), i as nat),
                zeros <= i,
            decreases n - i,
        {
            let reg = self.registers[i];
            let shift = 61 - reg as u64;
            proof {
                vstd::arithmetic::power2::lemma_pow2_strictly_increases(shift as nat, 62);
                vstd::arithmetic::power2::lemma2_to64_rest();
                if shift < 61 {
                    vstd::arithmetic::power2::lemma_pow2_strictly_increases(shift as nat, 61);
                }
                vstd::bits::lemma_u64_shl_is_mul(1u64, shift);
            }
            sum = sum + (1u64 << shift) as u128;
            if reg == 0 {
                zeros = zeros + 1;
            }
            i = i + 1;
        }
        (sum, zeros)
    }
}

proof fn lemma_max_add_commutes(a: Seq<u8>, b: Seq<u8>, p: nat, key: Seq<u8>)
    requires
        a.len() == b.len(),
        register_index(seeded_hash(key, HASH_SEED), p) < b.len(),
    ensures
        max_registers(a, add_key(b, p, key)) == add_key(max_registers(a, b), p, key),
{
    assert(max_registers(a, add_key(b, p, key)) =~= add_key(max_registers(a, b), p, key));
}

/// Merging reproduces the union stream: the register-wise maximum of a
/// sketch built over `left` and one built over `right` (same precision)
/// equals the sketch built over `left` followed by `right`.
pub proof fn lemma_merge_matches_union_stream(left: Seq<Seq<u8>>, right: Seq<Seq<u8>>, p: nat)
    requires
        MIN_PRECISION <= p <= MAX_PRECISION,
    ensures
        max_registers(registers_of(left, p), registers_of(right, p)) == registers_of(
            left + right,
            p,
        ),
    decreases right.len(),
{
    lemma_registers_len(left, p);
    if right.len() == 0 {
        assert(left + right =~= left);
        assert(max_registers(registers_of(left, p), registers_of(right, p)) =~= registers_of(
            left,
            p,
        ));
    } else {
        let rest = right.drop_last();
        let k = right.last();
        lemma_merge_matches_union_stream(left, rest, p);
        lemma_registers_len(rest, p);
        lemma_index_bound(seeded_hash(k, HASH_SEED), p as u64);
        lemma_max_add_commutes(registers_of(left, p), registers_of(rest, p), p, k);
        assert((left + right).drop_last() =~= left + rest);
        assert((left + right).last() == k);
    }
}

/// Observing items never changes the number of registers.
pub proof fn lemma_registers_len(keys: Seq<Seq<u8>>, p: nat)
    requires
        MIN_PRECISION <= p <= MAX_PRECISION,
    ensures
        registers_of(keys, p).len() == register_total(p),
    decreases keys.len(),
{
    if keys.len() > 0 {
        lemma_registers_len(keys.drop_last(), p);
        lemma_index_bound(seeded_hash(keys.last(), HASH_SEED), p as u64);
    }
}

} // verus!
