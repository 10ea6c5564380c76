//! Scheme parameters: the ring modulus, the two supported ring
//! dimensions, and the exponents behind the twiddle tables of the
//! number-theoretic transform.

use vstd::prelude::*;
use vstd::arithmetic::power::pow;
use vstd::arithmetic::power2::pow2;

verus! {

/// The prime modulus q of the signature ring.
pub const MODULUS: u32 = 12289;

/// (q - 1) / 2: coefficients at or above this value represent
/// negative numbers in the centered representation.
pub const MODULUS_MINUS_1_OVER_TWO: u32 = 6144;

/// The largest multiple of q that fits in 16 bits (5 * q); a 16-bit
/// sample below this threshold reduces to a uniform value mod q.
pub const MODULUS_THRESHOLD: u32 = 61445;

/// The largest multiple of q that fits in 32 bits; a 32-bit sample
/// below this threshold reduces to a uniform value mod q.
pub const U32_SAMPLE_THRESHOLD: u32 = 4294956344;

/// The generator of the twiddle tables: a primitive 2048-th root of
/// unity mod q, so that raising it to the 1024 gives q - 1.
pub const TWIDDLE_BASE: u32 = 7;

/// The inverse of `TWIDDLE_BASE` mod q.
pub const TWIDDLE_BASE_INV: u32 = 8778;

/// The supported ring dimensions.
#[derive(Clone, Copy, Debug, PartialEq, Eq, Structural)]
pub enum ParamSet {
    /// N = 512.
    Falcon512,
    /// N = 1024.
    Falcon1024,
}

impl ParamSet {
    /// The ring dimension N.
    pub open spec fn n_spec(self) -> nat {
        match self {
            ParamSet::Falcon512 => 512,
            ParamSet::Falcon1024 => 1024,
        }
    }

    /// log2 of the ring dimension.
    pub open spec fn log_n_spec(self) -> nat {
        match self {
            ParamSet::Falcon512 => 9,
            ParamSet::Falcon1024 => 10,
        }
    }

    /// The inverse of N mod q.
    pub open spec fn one_over_n_spec(self) -> nat {
        match self {
            ParamSet::Falcon512 => 12265,
            ParamSet::Falcon1024 => 12277,
        }
    }

    /// The squared-l2-norm bound on a valid (signature, remainder)
    /// pair.
    pub open spec fn sig_l2_bound_spec(self) -> nat {
        match self {
            ParamSet::Falcon512 => 34034726,
            ParamSet::Falcon1024 => 70265242,
        }
    }

    /// The byte length of an encoded public key.
    pub open spec fn pk_len_spec(self) -> nat {
        match self {
            ParamSet::Falcon512 => 897,
            ParamSet::Falcon1024 => 1793,
        }
    }

    /// The ring dimension N.
    pub fn n(self) -> (r: usize)
        ensures
            r == self.n_spec(),
    {
        match self {
            ParamSet::Falcon512 => 512,
            ParamSet::Falcon1024 => 1024,
        }
    }

    /// log2 of the ring dimension.
    pub fn log_n(self) -> (r: usize)
        ensures
            r == self.log_n_spec(),
    {
        match self {
            ParamSet::Falcon512 => 9,
            ParamSet::Falcon1024 => 10,
        }
    }

    /// The inverse of N mod q, as proved by `lemma_one_over_n`.
    pub fn one_over_n(self) -> (r: u32)
        ensures
            r == self.one_over_n_spec(),
    {
        match self {
            ParamSet::Falcon512 => 12265,
            ParamSet::Falcon1024 => 12277,
        }
    }

    /// The squared-l2-norm bound on a valid signature.
    pub fn sig_l2_bound(self) -> (r: u32)
        ensures
            r == self.sig_l2_bound_spec(),
    {
        match self {
            ParamSet::Falcon512 => 34034726,
            ParamSet::Falcon1024 => 70265242,
        }
    }

    /// The byte length of an encoded public key.
    pub fn pk_len(self) -> (r: usize)
        ensures
            r == self.pk_len_spec(),
    {
        match self {
            ParamSet::Falcon512 => 897,
            ParamSet::Falcon1024 => 1793,
        }
    }
}

/// N times its claimed inverse is 1 mod q, for both dimensions.
pub proof fn lemma_one_over_n(p: ParamSet)
    ensures
        (p.n_spec() * p.one_over_n_spec()) % (MODULUS as nat) == 1,
{
    if p is Falcon512 {
        assert((512 * 12265nat) % 12289nat == 1);
    } else {
        assert((1024 * 12277nat) % 12289nat == 1);
    }
}

/// The bit-reversal of the lowest `bits` bits of `x`: the low bit
/// moves to the top of the reversed width.
pub open spec fn bitrev(x: nat, bits: nat) -> nat
    decreases bits,
{
    if bits == 0 {
        0
    } else {
        bitrev(x / 2, (bits - 1) as nat) + (x % 2) * pow2((bits - 1) as nat)
    }
}

/// The forward twiddle at index `x`: `TWIDDLE_BASE` raised to the
/// 10-bit reversal of `x`, mod q.  For N = 512 only the first 512
/// entries are used; their reversed exponents are even, which makes
/// them the powers of the square of the base, a primitive 1024-th
/// root of unity.
pub open spec fn fwd_twiddle(x: nat) -> nat {
    (pow(TWIDDLE_BASE as int, bitrev(x, 10)) % (MODULUS as int)) as nat
}

/// The inverse twiddle at index `x`.
pub open spec fn inv_twiddle(x: nat) -> nat {
    (pow(TWIDDLE_BASE_INV as int, bitrev(x, 10)) % (MODULUS as int)) as nat
}

/// A bit-reversal stays below 2^bits.
pub proof fn lemma_bitrev_bound(x: nat, bits: nat)
    ensures
        bitrev(x, bits) < pow2(bits),
    decreases bits,
{
    vstd::arithmetic::power2::lemma_pow2_pos(bits);
    if bits > 0 {
        lemma_bitrev_bound(x / 2, (bits - 1) as nat);
        vstd::arithmetic::power2::lemma_pow2_unfold(bits);
        vstd::arithmetic::mul::lemma_mul_basics(pow2((bits - 1) as nat) as int);
        if x % 2 == 0 {
            assert((x % 2) * pow2((bits - 1) as nat) == 0);
        } else {
            assert((x % 2) * pow2((bits - 1) as nat) == pow2((bits - 1) as nat));
        }
    }
}

/// `base^e mod q` by repeated multiplication.
fn pow_mod_q(base: u32, e: u32) -> (r: u32)
    requires
        base < MODULUS,
    ensures
        r == pow(base as int, e as nat) % (MODULUS as int),
        r < MODULUS,
{
    let mut acc: u32 = 1;
    let mut i: u32 = 0;
    proof {
        vstd::arithmetic::power::lemma_pow0(base as int);
    }
    while i < e
        invariant
            base < MODULUS,
            i <= e,
            acc < MODULUS,
            acc == pow(base as int, i as nat) % (MODULUS as int),
        decreases e - i,
    {
        proof {
            lemma_pow_mod_step(base as int, i as nat, acc as int);
            assert(acc * base < 12289 * 12289) by (nonlinear_arith)
                requires
                    acc < 12289,
                    base < 12289,
            ;
        }
        acc = (acc * base) % MODULUS;
        i = i + 1;
    }
    acc
}

/// Multiplying a partial power mod q by the base again gives the next
/// power mod q.
proof fn lemma_pow_mod_step(base: int, i: nat, acc: int)
    requires
        0 <= base,
        acc == pow(base, i) % (MODULUS as int),
    ensures
        (acc * base) % (MODULUS as int) == pow(base, (i + 1) as nat) % (MODULUS as int),
{
    let q = MODULUS as int;
    vstd::arithmetic::power::lemma_pow_adds(base, i, 1);
    vstd::arithmetic::power::lemma_pow1(base);
    assert(pow(base, (i + 1) as nat) == pow(base, i) * base);
    vstd::arithmetic::div_mod::lemma_mul_mod_noop_left(pow(base, i), base, q);
}

/// The 10-bit reversal of `x`, computed by the same recursion as the
/// specification.
fn bitrev10(x: usize, bits: usize) -> (r: usize)
    requires
        bits <= 10,
    ensures
        r == bitrev(x as nat, bits as nat),
        r < pow2(bits as nat),
    decreases bits,
{
    proof {
        vstd::arithmetic::power2::lemma2_to64();
    }
    if bits == 0 {
        0
    } else {
        let sub = bitrev10(x / 2, bits - 1);
        let top: usize = pow2_small(bits - 1);
        proof {
            vstd::arithmetic::power2::lemma_pow2_unfold(bits as nat);
            vstd::arithmetic::power2::lemma_pow2_strictly_increases((bits - 1) as nat, 11);
            vstd::arithmetic::power2::lemma2_to64();
            vstd::arithmetic::mul::lemma_mul_basics(top as int);
            if x % 2 == 0 {
                assert((x % 2) * top == 0);
            } else {
                assert((x % 2) * top == top);
            }
        }
        sub + (x % 2) * top
    }
}

/// `2^e` for small exponents.
fn pow2_small(e: usize) -> (r: usize)
    requires
        e <= 10,
    ensures
        r == pow2(e as nat),
{
    proof {
        vstd::arithmetic::power2::lemma2_to64();
    }
    let mut r: usize = 1;
    let mut i: usize = 0;
    while i < e
        invariant
            i <= e,
            e <= 10,
            r == pow2(i as nat),
            r <= 1024,
        decreases e - i,
    {
        proof {
            vstd::arithmetic::power2::lemma_pow2_unfold((i + 1) as nat);
            vstd::arithmetic::power2::lemma2_to64();
            if i + 1 < e {
                vstd::arithmetic::power2::lemma_pow2_strictly_increases((i + 1) as nat, e as nat);
            }
            vstd::arithmetic::power2::lemma_pow2_strictly_increases(e as nat, 11);
        }
        r = r * 2;
        i = i + 1;
    }
    r
}

/// The forward twiddle table for dimension N: entry `x` holds
/// `fwd_twiddle(x)`.  Entries at index 2^l + i serve stage l of the
/// transform.
pub fn ntt_table(p: ParamSet) -> (r: Vec<u16>)
    ensures
        r@.len() == p.n_spec(),
        forall|x: int| 0 <= x < r@.len() ==> r@[x] == fwd_twiddle(x as nat),
        forall|x: int| 0 <= x < r@.len() ==> r@[x] < MODULUS,
{
    twiddle_table(p, TWIDDLE_BASE)
}

/// The inverse twiddle table for dimension N: entry `x` holds
/// `inv_twiddle(x)`.
pub fn inv_ntt_table(p: ParamSet) -> (r: Vec<u16>)
    ensures
        r@.len() == p.n_spec(),
        forall|x: int| 0 <= x < r@.len() ==> r@[x] == inv_twiddle(x as nat),
        forall|x: int| 0 <= x < r@.len() ==> r@[x] < MODULUS,
{
    twiddle_table(p, TWIDDLE_BASE_INV)
}

/// The table of `base` raised to all 10-bit-reversed indices below N.
fn twiddle_table(p: ParamSet, base: u32) -> (r: Vec<u16>)
    requires
        base < MODULUS,
    ensures
        r@.len() == p.n_spec(),
        forall|x: int|
            0 <= x < r@.len() ==> r@[x] == (pow(base as int, bitrev(x as nat, 10)) % (
            MODULUS as int)) as nat,
        forall|x: int| 0 <= x < r@.len() ==> r@[x] < MODULUS,
{
    let n = p.n();
    let mut r: Vec<u16> = Vec::new();
    let mut x: usize = 0;
    while x < n
        invariant
            base < MODULUS,
            x <= n,
            r@.len() == x,
            forall|k: int|
                0 <= k < x ==> r@[k] == (pow(base as int, bitrev(k as nat, 10)) % (
                MODULUS as int)) as nat,
            forall|k: int| 0 <= k < x ==> r@[k] < MODULUS,
        decreases n - x,
    {
        let e = bitrev10(x, 10);
        proof {
            vstd::arithmetic::power2::lemma2_to64();
        }
        let v = pow_mod_q(base, e as u32);
        r.push(v as u16);
        x = x + 1;
    }
    r
}

} // verus!
