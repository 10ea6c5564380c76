//! Ring elements: polynomials over Z_q[x]/(x^N + 1) with coefficients
//! reduced mod q.

use vstd::prelude::*;
use crate::params::{ParamSet, MODULUS, MODULUS_MINUS_1_OVER_TWO, MODULUS_THRESHOLD, U32_SAMPLE_THRESHOLD};
use crate::transforms::{coeffs_ok, inv_ntt_spec, inv_ntt_u16, ntt_spec, ntt_u16, view16};
use crate::shake::{shake_byte, shake256_prefix};
use crate::rng::chacha_next_u32;

verus! {

/// The pointwise sum of two coefficient sequences mod q.
pub open spec fn poly_add_spec(a: Seq<nat>, b: Seq<nat>) -> Seq<nat> {
    Seq::new(a.len(), |i: int| (a[i] + b[i]) % (MODULUS as nat))
}

/// The pointwise difference of two coefficient sequences mod q.
pub open spec fn poly_sub_spec(a: Seq<nat>, b: Seq<nat>) -> Seq<nat> {
    Seq::new(a.len(), |i: int| ((a[i] + MODULUS - b[i]) as nat) % (MODULUS as nat))
}

/// The pointwise negation of a coefficient sequence mod q.
pub open spec fn poly_neg_spec(a: Seq<nat>) -> Seq<nat> {
    Seq::new(a.len(), |i: int| ((MODULUS - a[i]) as nat) % (MODULUS as nat))
}

/// The first `j` terms of the convolution coefficient `k`: the sum of
/// `a[r] * b[k - r]` over `r < j` where `k - r` lands inside `b`,
/// with each product reduced mod q.
pub open spec fn conv_partial(a: Seq<nat>, b: Seq<nat>, k: int, j: int) -> nat
    decreases j,
{
    if j <= 0 {
        0
    } else {
        conv_partial(a, b, k, j - 1) + if 0 <= k - (j - 1) < b.len() {
            a[j - 1] * b[k - (j - 1)] % (MODULUS as nat)
        } else {
            0
        }
    }
}

/// Convolution coefficient `k` of two coefficient sequences, each
/// product reduced mod q.
pub open spec fn conv_at(a: Seq<nat>, b: Seq<nat>, k: int) -> nat {
    conv_partial(a, b, k, a.len() as int)
}

/// The centered square of a reduced coefficient: coefficients above
/// (q - 1) / 2 stand for negatives.
pub open spec fn centered_sq(x: nat) -> nat {
    if x > MODULUS_MINUS_1_OVER_TWO {
        (MODULUS - x) as nat * ((MODULUS - x) as nat)
    } else {
        x * x
    }
}

/// The sum of centered squares of the first `k` coefficients.
pub open spec fn sq_norm_partial(s: Seq<nat>, k: int) -> nat
    decreases k,
{
    if k <= 0 {
        0
    } else {
        sq_norm_partial(s, k - 1) + centered_sq(s[k - 1])
    }
}

/// The squared l2 norm of a centered coefficient sequence.
pub open spec fn sq_norm(s: Seq<nat>) -> nat {
    sq_norm_partial(s, s.len() as int)
}

/// The accepted 16-bit samples of the hash stream after `draws`
/// two-byte draws: samples below 5q are reduced mod q and kept.
pub open spec fn htp_accepted(data: Seq<u8>, draws: int) -> Seq<nat>
    decreases draws,
{
    if draws <= 0 {
        Seq::<nat>::empty()
    } else {
        let prev = htp_accepted(data, draws - 1);
        let hi = shake_byte(data, 2 * (draws - 1)) as nat;
        let lo = shake_byte(data, 2 * (draws - 1) + 1) as nat;
        let sample = hi * 256 + lo;
        if sample < MODULUS_THRESHOLD {
            prev.push(sample % (MODULUS as nat))
        } else {
            prev
        }
    }
}

/// Whether `s` is the hash-to-point result for absorbed data `d` at
/// dimension `n`: the first `n` accepted samples, reached after some
/// minimal number of draws.
pub open spec fn is_hash_to_point(s: Seq<nat>, d: Seq<u8>, n: nat) -> bool {
    exists|m: int|
        0 <= m && #[trigger] htp_accepted(d, m) == s && s.len() == n && htp_accepted(
            d,
            m - 1,
        ).len() < n
}

/// The number of two-byte draws the executable hash-to-point spends
/// before giving up: sixteen times the dimension, against an
/// acceptance rate of about fifteen in sixteen per draw.
pub open spec fn htp_budget(n: nat) -> int {
    16 * (n as int)
}

/// The deterministic value of the executable hash-to-point: the first
/// `n` accepted samples within the draw budget, zero-padded in the
/// (cryptographically unreachable) case the budget does not yield
/// enough samples.
pub open spec fn htp_padded(d: Seq<u8>, n: nat) -> Seq<nat> {
    let acc = htp_accepted(d, htp_budget(n));
    if acc.len() >= n {
        acc.take(n as int)
    } else {
        acc + Seq::new((n - acc.len()) as nat, |i: int| 0nat)
    }
}

/// A ring element: N coefficients, each in [0, q).
pub struct Polynomial {
    pub coeffs: Vec<u16>,
}

impl Polynomial {
    /// The coefficients as a sequence of integers.
    pub open spec fn view(self) -> Seq<nat> {
        view16(self.coeffs@)
    }

    /// Which parameter set this element belongs to.
    pub open spec fn param_spec(self) -> ParamSet {
        if self.coeffs@.len() == 512 {
            ParamSet::Falcon512
        } else {
            ParamSet::Falcon1024
        }
    }

    /// Well-formedness: a supported length, all coefficients reduced.
    pub open spec fn wf(self) -> bool {
        (self.coeffs@.len() == 512 || self.coeffs@.len() == 1024) && coeffs_ok(
            self.view(),
            self.coeffs@.len() as nat,
        )
    }

    /// Which parameter set this element belongs to.
    pub fn param(&self) -> (p: ParamSet)
        requires
            self.wf(),
        ensures
            p == self.param_spec(),
    {
        if self.coeffs.len() == 512 {
            ParamSet::Falcon512
        } else {
            ParamSet::Falcon1024
        }
    }

    /// The zero element.
    pub fn zero(p: ParamSet) -> (r: Polynomial)
        ensures
            r.wf(),
            r.param_spec() == p,
            r.view() == Seq::new(p.n_spec(), |i: int| 0nat),
    {
        let n = p.n();
        let mut coeffs: Vec<u16> = Vec::new();
        let mut i: usize = 0;
        while i < n
            invariant
                i <= n,
                coeffs@.len() == i,
                forall|k: int| 0 <= k < i ==> coeffs@[k] == 0,
            decreases n - i,
        {
            coeffs.push(0);
            i = i + 1;
        }
        let r = Polynomial { coeffs };
        proof {
            assert(r.view() =~= Seq::new(p.n_spec(), |i: int| 0nat));
        }
        r
    }

    /// The constant polynomial 1.
    pub fn one(p: ParamSet) -> (r: Polynomial)
        ensures
            r.wf(),
            r.param_spec() == p,
            r.view().len() == p.n_spec(),
            r.view()[0] == 1,
            forall|i: int| 1 <= i < r.view().len() ==> r.view()[i] == 0,
    {
        let n = p.n();
        let mut coeffs: Vec<u16> = Vec::new();
        coeffs.push(1);
        let mut i: usize = 1;
        while i < n
            invariant
                1 <= i <= n,
                coeffs@.len() == i,
                coeffs@[0] == 1,
                forall|k: int| 1 <= k < i ==> coeffs@[k] == 0,
            decreases n - i,
        {
            coeffs.push(0);
            i = i + 1;
        }
        Polynomial { coeffs }
    }

    /// Read access to the coefficients.
    pub fn coeff(&self) -> (r: &Vec<u16>)
        ensures
            r@ == self.coeffs@,
    {
        &self.coeffs
    }

    /// The pointwise sum mod q.
    pub fn add(&self, other: &Polynomial) -> (r: Polynomial)
        requires
            self.wf(),
            other.wf(),
            self.coeffs@.len() == other.coeffs@.len(),
        ensures
            r.wf(),
            r.coeffs@.len() == self.coeffs@.len(),
            r.view() == poly_add_spec(self.view(), other.view()),
    {
        let n = self.coeffs.len();
        let mut coeffs: Vec<u16> = Vec::new();
        let mut i: usize = 0;
        while i < n
            invariant
                self.wf(),
                other.wf(),
                n == self.coeffs@.len(),
                n == other.coeffs@.len(),
                i <= n,
                coeffs@.len() == i,
                forall|k: int|
                    0 <= k < i ==> view16(coeffs@)[k] == poly_add_spec(
                        self.view(),
                        other.view(),
                    )[k],
                forall|k: int| 0 <= k < i ==> #[trigger] coeffs@[k] < MODULUS,
            decreases n - i,
        {
            let v = (((self.coeffs[i] as u32) + (other.coeffs[i] as u32)) % MODULUS) as u16;
            let ghost oldc = coeffs@;
            coeffs.push(v);
            proof {
                assert forall|k: int|
                    0 <= k < i + 1 implies view16(coeffs@)[k] == poly_add_spec(
                    self.view(),
                    other.view(),
                )[k] by {
                    if k < i {
                        assert(coeffs@[k] == oldc[k]);
                        assert(view16(oldc)[k] == poly_add_spec(self.view(), other.view())[k]);
                    }
                }
            }
            i = i + 1;
        }
        let r = Polynomial { coeffs };
        proof {
            assert(r.view() =~= poly_add_spec(self.view(), other.view()));
        }
        r
    }

    /// The pointwise difference mod q.
    pub fn sub(&self, other: &Polynomial) -> (r: Polynomial)
        requires
            self.wf(),
            other.wf(),
            self.coeffs@.len() == other.coeffs@.len(),
        ensures
            r.wf(),
            r.coeffs@.len() == self.coeffs@.len(),
            r.view() == poly_sub_spec(self.view(), other.view()),
    {
        let n = self.coeffs.len();
        let mut coeffs: Vec<u16> = Vec::new();
        let mut i: usize = 0;
        while i < n
            invariant
                self.wf(),
                other.wf(),
                n == self.coeffs@.len(),
                n == other.coeffs@.len(),
                i <= n,
                coeffs@.len() == i,
                forall|k: int|
                    0 <= k < i ==> view16(coeffs@)[k] == poly_sub_spec(
                        self.view(),
                        other.view(),
                    )[k],
                forall|k: int| 0 <= k < i ==> #[trigger] coeffs@[k] < MODULUS,
            decreases n - i,
        {
            proof {
                assert(other.view()[i as int] < MODULUS);
            }
            let v = (((self.coeffs[i] as u32) + MODULUS - (other.coeffs[i] as u32)) % MODULUS)
                as u16;
            let ghost oldc = coeffs@;
            coeffs.push(v);
            proof {
                assert forall|k: int|
                    0 <= k < i + 1 implies view16(coeffs@)[k] == poly_sub_spec(
                    self.view(),
                    other.view(),
                )[k] by {
                    if k < i {
                        assert(coeffs@[k] == oldc[k]);
                        assert(view16(oldc)[k] == poly_sub_spec(self.view(), other.view())[k]);
                    }
                }
            }
            i = i + 1;
        }
        let r = Polynomial { coeffs };
        proof {
            assert(r.view() =~= poly_sub_spec(self.view(), other.view()));
        }
        r
    }

    /// The pointwise negation mod q.
    pub fn neg_mod_q(&self) -> (r: Polynomial)
        requires
            self.wf(),
        ensures
            r.wf(),
            r.coeffs@.len() == self.coeffs@.len(),
            r.view() == poly_neg_spec(self.view()),
    {
        let n = self.coeffs.len();
        let mut coeffs: Vec<u16> = Vec::new();
        let mut i: usize = 0;
        while i < n
            invariant
                self.wf(),
                n == self.coeffs@.len(),
                i <= n,
                coeffs@.len() == i,
                forall|k: int|
                    0 <= k < i ==> view16(coeffs@)[k] == poly_neg_spec(self.view())[k],
                forall|k: int| 0 <= k < i ==> #[trigger] coeffs@[k] < MODULUS,
            decreases n - i,
        {
            proof {
                assert(self.view()[i as int] < MODULUS);
            }
            let v = (((MODULUS - (self.coeffs[i] as u32)) % MODULUS)) as u16;
            let ghost oldc = coeffs@;
            coeffs.push(v);
            proof {
                assert forall|k: int|
                    0 <= k < i + 1 implies view16(coeffs@)[k] == poly_neg_spec(self.view())[
                k] by {
                    if k < i {
                        assert(coeffs@[k] == oldc[k]);
                        assert(view16(oldc)[k] == poly_neg_spec(self.view())[k]);
                    }
                }
            }
            i = i + 1;
        }
        let r = Polynomial { coeffs };
        proof {
            assert(r.view() =~= poly_neg_spec(self.view()));
        }
        r
    }

    /// The squared l2 norm of the centered coefficients.
    pub fn l2_norm(&self) -> (r: u64)
        requires
            self.wf(),
        ensures
            r == sq_norm(self.view()),
    {
        let n = self.coeffs.len();
        let mut res: u64 = 0;
        let mut i: usize = 0;
        while i < n
            invariant
                self.wf(),
                n == self.coeffs@.len(),
                i <= n,
                res == sq_norm_partial(self.view(), i as int),
                res <= i * (6145 * 6145),
            decreases n - i,
        {
            proof {
                assert(self.view()[i as int] < MODULUS);
            }
            let e = self.coeffs[i];
            let c: u64 = if e > MODULUS_MINUS_1_OVER_TWO as u16 {
                (MODULUS as u64) - (e as u64)
            } else {
                e as u64
            };
            proof {
                assert(c <= 6145);
                assert(c * c <= 6145 * 6145) by (nonlinear_arith)
                    requires
                        c <= 6145,
                ;
                assert(c * c == centered_sq(self.view()[i as int]));
                assert(i * (6145 * 6145) + (6145 * 6145) == (i + 1) * (6145 * 6145))
                    by (nonlinear_arith);
            }
            res = res + c * c;
            i = i + 1;
        }
        res
    }

    /// The big-endian two-byte encoding of each coefficient.
    pub fn to_bytes(&self) -> (r: Vec<u8>)
        requires
            self.wf(),
        ensures
            r@.len() == 2 * self.coeffs@.len(),
            forall|i: int|
                0 <= i < self.coeffs@.len() ==> r@[2 * i] == self.view()[i] / 256 && r@[2 * i + 1]
                    == self.view()[i] % 256,
    {
        let n = self.coeffs.len();
        let mut out: Vec<u8> = Vec::new();
        let mut i: usize = 0;
        while i < n
            invariant
                self.wf(),
                n == self.coeffs@.len(),
                i <= n,
                out@.len() == 2 * i,
                forall|k: int|
                    0 <= k < i ==> out@[2 * k] == self.view()[k] / 256 && out@[2 * k + 1]
                        == self.view()[k] % 256,
            decreases n - i,
        {
            let e = self.coeffs[i];
            out.push((e / 256) as u8);
            out.push((e % 256) as u8);
            i = i + 1;
        }
        out
    }

    /// A uniformly sampled element, by rejection from a generator's
    /// 32-bit words.  The result is well formed; which element comes
    /// out depends on the generator's state.
    pub fn rand(rng: &mut rand_chacha::ChaCha20Rng, p: ParamSet) -> (r: Polynomial)
        ensures
            r.wf(),
            r.param_spec() == p,
    {
        let n = p.n();
        let mut coeffs: Vec<u16> = Vec::new();
        let mut i: usize = 0;
        while i < n
            invariant
                i <= n,
                coeffs@.len() == i,
                forall|k: int| 0 <= k < i ==> #[trigger] coeffs@[k] < MODULUS,
            decreases n - i,
        {
            let mut tmp: u32 = chacha_next_u32(rng);
            let mut tries: usize = 0;
            while tmp >= U32_SAMPLE_THRESHOLD && tries < 128
                invariant
                    tries <= 128,
                decreases 128 - tries,
            {
                tmp = chacha_next_u32(rng);
                tries = tries + 1;
            }
            coeffs.push((tmp % MODULUS) as u16);
            i = i + 1;
        }
        let r = Polynomial { coeffs };
        proof {
            assert(coeffs_ok(r.view(), n as nat));
        }
        r
    }

    /// The element deterministically derived from a 32-byte seed: the
    /// same rejection sampling over the seeded word stream.
    pub fn from_seed(seed: &[u8; 32], p: ParamSet) -> (r: Polynomial)
        ensures
            r.wf(),
            r.param_spec() == p,
    {
        let n = p.n();
        let mut rng = crate::rng::chacha_from_seed(seed);
        Polynomial::rand(&mut rng, p)
    }

    /// The negacyclic product by schoolbook multiplication: every
    /// output coefficient is congruent mod q to the difference of the
    /// wrapped convolution sums.
    pub fn schoolbook_mul(a: &Polynomial, b: &Polynomial) -> (r: Polynomial)
        requires
            a.wf(),
            b.wf(),
            a.coeffs@.len() == b.coeffs@.len(),
        ensures
            r.wf(),
            r.coeffs@.len() == a.coeffs@.len(),
            forall|k: int|
                0 <= k < r.coeffs@.len() ==> ((#[trigger] r.view()[k] + conv_at(
                    a.view(),
                    b.view(),
                    k + a.coeffs@.len(),
                )) % (MODULUS as nat) == conv_at(a.view(), b.view(), k) % (MODULUS as nat))
                    && r.view()[k] < MODULUS,
    {
        let n = a.coeffs.len();
        let mut coeffs: Vec<u16> = Vec::new();
        let mut k: usize = 0;
        while k < n
            invariant
                a.wf(),
                b.wf(),
                n == a.coeffs@.len(),
                n == b.coeffs@.len(),
                k <= n,
                coeffs@.len() == k,
                forall|kk: int|
                    0 <= kk < k ==> ((#[trigger] view16(coeffs@)[kk] + conv_at(
                        a.view(),
                        b.view(),
                        kk + n,
                    )) % (MODULUS as nat) == conv_at(a.view(), b.view(), kk) % (MODULUS as nat))
                        && view16(coeffs@)[kk] < MODULUS,
                forall|kk: int| 0 <= kk < k ==> #[trigger] coeffs@[kk] < MODULUS,
            decreases n - k,
        {
            let mut acc_low: u32 = 0;
            let mut acc_high: u32 = 0;
            let mut j: usize = 0;
            while j < n
                invariant
                    a.wf(),
                    b.wf(),
                    n == a.coeffs@.len(),
                    n == b.coeffs@.len(),
                    k < n,
                    j <= n,
                    acc_low == conv_partial(a.view(), b.view(), k as int, j as int),
                    acc_high == conv_partial(a.view(), b.view(), k + n, j as int),
                    acc_low <= j * 12288,
                    acc_high <= j * 12288,
                decreases n - j,
            {
                proof {
                    assert(a.view()[j as int] < MODULUS);
                    assert(j * 12288 + 12288 == (j + 1) * 12288) by (nonlinear_arith);
                }
                let term: u32;
                if j <= k {
                    proof {
                        assert(b.view()[k - j] < MODULUS);
                        vstd::arithmetic::mul::lemma_mul_upper_bound(
                            a.view()[j as int] as int,
                            12288,
                            b.view()[k - j] as int,
                            12288,
                        );
                    }
                    term = ((a.coeffs[j] as u32) * (b.coeffs[k - j] as u32)) % MODULUS;
                    acc_low = acc_low + term;
                } else {
                    proof {
                        assert(b.view()[k + n - j] < MODULUS);
                        vstd::arithmetic::mul::lemma_mul_upper_bound(
                            a.view()[j as int] as int,
                            12288,
                            b.view()[k + n - j] as int,
                            12288,
                        );
                    }
                    term = ((a.coeffs[j] as u32) * (b.coeffs[k + n - j] as u32)) % MODULUS;
                    acc_high = acc_high + term;
                }
                j = j + 1;
            }
            let v = ((acc_low + MODULUS - acc_high % MODULUS) % MODULUS) as u16;
            proof {
                lemma_mod_sub_rel(acc_low as nat, acc_high as nat);
            }
            let ghost oldc = coeffs@;
            coeffs.push(v);
            proof {
                assert forall|kk: int|
                    0 <= kk < k + 1 implies ((#[trigger] view16(coeffs@)[kk] + conv_at(
                    a.view(),
                    b.view(),
                    kk + n,
                )) % (MODULUS as nat) == conv_at(a.view(), b.view(), kk) % (MODULUS as nat))
                    && view16(coeffs@)[kk] < MODULUS by {
                    if kk < k {
                        assert(coeffs@[kk] == oldc[kk]);
                        assert(view16(oldc)[kk] == view16(coeffs@)[kk]);
                    }
                }
            }
            k = k + 1;
        }
        let r = Polynomial { coeffs };
        proof {
            assert(coeffs_ok(r.view(), n as nat));
        }
        r
    }

    /// The ring product computed through the transform: both factors
    /// are transformed, multiplied pointwise, and transformed back.
    pub fn mul(&self, other: &Polynomial) -> (r: Polynomial)
        requires
            self.wf(),
            other.wf(),
            self.coeffs@.len() == other.coeffs@.len(),
        ensures
            r.wf(),
            r.coeffs@.len() == self.coeffs@.len(),
            r.view() == poly_mul_spec(self.view(), other.view(), self.param_spec()),
    {
        let p = self.param();
        let x = ntt_u16(&self.coeffs, p);
        let y = ntt_u16(&other.coeffs, p);
        proof {
            assert forall|i: int| 0 <= i < x@.len() implies #[trigger] x@[i] < MODULUS by {
                assert(view16(x@)[i] == x@[i] as nat);
            }
            assert forall|i: int| 0 <= i < y@.len() implies #[trigger] y@[i] < MODULUS by {
                assert(view16(y@)[i] == y@[i] as nat);
            }
        }
        let z = pointwise_mul(&x, &y);
        let w = inv_ntt_u16(&z, p);
        Polynomial { coeffs: w }
    }

    /// Hashes a message and nonce into a ring element: SHAKE256 over
    /// nonce then message, 16-bit samples accepted below 5q and
    /// reduced mod q, until N coefficients are collected.
    pub fn from_hash_of_message(message: &[u8], nonce: &[u8], p: ParamSet) -> (r: Polynomial)
        ensures
            r.wf(),
            r.param_spec() == p,
            r.view() == htp_padded(nonce@ + message@, p.n_spec()),
            htp_accepted(nonce@ + message@, htp_budget(p.n_spec())).len() >= p.n_spec()
                ==> is_hash_to_point(r.view(), nonce@ + message@, p.n_spec()),
    {
        let ghost data = nonce@ + message@;
        let n = p.n();
        let budget: usize = 16 * n;
        let stream = shake256_prefix(nonce, message, 2 * budget);
        let mut coeffs: Vec<u16> = Vec::new();
        let mut d: usize = 0;
        while d < budget && coeffs.len() < n
            invariant
                n == p.n_spec(),
                (n == 512 || n == 1024),
                budget == 16 * n,
                d <= budget,
                stream@.len() == 2 * budget,
                forall|i: int| 0 <= i < 2 * budget ==> stream@[i] == shake_byte(data, i),
                data == nonce@ + message@,
                coeffs@.len() <= d,
                coeffs@.len() <= n,
                view16(coeffs@) == htp_accepted(data, d as int),
                forall|k: int| 0 <= k < coeffs@.len() ==> #[trigger] coeffs@[k] < MODULUS,
            decreases budget - d,
        {
            let hi = stream[2 * d];
            let lo = stream[2 * d + 1];
            let sample: u32 = (hi as u32) * 256 + (lo as u32);
            if sample < MODULUS_THRESHOLD {
                coeffs.push((sample % MODULUS) as u16);
            }
            proof {
                assert(view16(coeffs@) =~= htp_accepted(data, d + 1));
            }
            d = d + 1;
        }
        if coeffs.len() == n {
            proof {
                lemma_htp_minimal(data, d as int, n as nat);
                lemma_htp_prefix(data, d as int, htp_budget(n as nat));
                assert(htp_accepted(data, d as int).is_prefix_of(
                    htp_accepted(data, htp_budget(n as nat)),
                ));
                assert(htp_accepted(data, htp_budget(n as nat)).take(n as int) =~= htp_accepted(
                    data,
                    d as int,
                ));
            }
            let r = Polynomial { coeffs };
            proof {
                assert(coeffs_ok(r.view(), n as nat));
            }
            r
        } else {
            proof {
                assert(d == budget);
            }
            let mut pad = coeffs;
            let mut j: usize = pad.len();
            while j < n
                invariant
                    j == pad@.len(),
                    j <= n,
                    view16(pad@).take(htp_accepted(data, htp_budget(n as nat)).len() as int)
                        =~= htp_accepted(data, htp_budget(n as nat)),
                    htp_accepted(data, htp_budget(n as nat)).len() <= j,
                    forall|k: int|
                        htp_accepted(data, htp_budget(n as nat)).len() <= k < j
                            ==> view16(pad@)[k] == 0,
                    forall|k: int| 0 <= k < pad@.len() ==> #[trigger] pad@[k] < MODULUS,
                decreases n - j,
            {
                let ghost oldpad = pad@;
                pad.push(0);
                proof {
                    assert(view16(pad@).take(
                        htp_accepted(data, htp_budget(n as nat)).len() as int,
                    ) =~= htp_accepted(data, htp_budget(n as nat)));
                    assert forall|k: int|
                        htp_accepted(data, htp_budget(n as nat)).len() <= k < j + 1
                            implies view16(pad@)[k] == 0 by {
                        if k < j {
                            assert(pad@[k] == oldpad[k]);
                            assert(view16(oldpad)[k] == 0);
                        }
                    }
                }
                j = j + 1;
            }
            let r = Polynomial { coeffs: pad };
            proof {
                assert(r.view() =~= htp_padded(data, n as nat));
                assert(coeffs_ok(r.view(), n as nat));
            }
            r
        }
    }
}

/// The pointwise product mod q of two transform-domain coefficient
/// sequences.
pub open spec fn pointwise_mul_spec(a: Seq<nat>, b: Seq<nat>) -> Seq<nat> {
    Seq::new(a.len(), |i: int| a[i] * b[i] % (MODULUS as nat))
}

/// The ring product through the transform: transform both factors,
/// multiply pointwise, transform back.
pub open spec fn poly_mul_spec(a: Seq<nat>, b: Seq<nat>, p: ParamSet) -> Seq<nat> {
    inv_ntt_spec(
        pointwise_mul_spec(ntt_spec(a, p.log_n_spec()), ntt_spec(b, p.log_n_spec())),
        p,
    )
}

/// The pointwise product mod q of two reduced coefficient vectors.
pub fn pointwise_mul(a: &Vec<u16>, b: &Vec<u16>) -> (r: Vec<u16>)
    requires
        a@.len() == b@.len(),
        forall|i: int| 0 <= i < a@.len() ==> #[trigger] a@[i] < MODULUS,
        forall|i: int| 0 <= i < b@.len() ==> #[trigger] b@[i] < MODULUS,
    ensures
        r@.len() == a@.len(),
        view16(r@) == pointwise_mul_spec(view16(a@), view16(b@)),
        forall|i: int| 0 <= i < r@.len() ==> #[trigger] r@[i] < MODULUS,
{
    let n = a.len();
    let mut out: Vec<u16> = Vec::new();
    let mut i: usize = 0;
    while i < n
        invariant
            n == a@.len(),
            n == b@.len(),
            forall|k: int| 0 <= k < a@.len() ==> #[trigger] a@[k] < MODULUS,
            forall|k: int| 0 <= k < b@.len() ==> #[trigger] b@[k] < MODULUS,
            i <= n,
            out@.len() == i,
            forall|k: int|
                0 <= k < i ==> view16(out@)[k] == pointwise_mul_spec(view16(a@), view16(b@))[k],
            forall|k: int| 0 <= k < i ==> #[trigger] out@[k] < MODULUS,
        decreases n - i,
    {
        proof {
            vstd::arithmetic::mul::lemma_mul_upper_bound(
                a@[i as int] as int,
                12288,
                b@[i as int] as int,
                12288,
            );
        }
        let v = (((a[i] as u32) * (b[i] as u32)) % MODULUS) as u16;
        let ghost oldo = out@;
        out.push(v);
        proof {
            assert forall|k: int|
                0 <= k < i + 1 implies view16(out@)[k] == pointwise_mul_spec(
                view16(a@),
                view16(b@),
            )[k] by {
                if k < i {
                    assert(out@[k] == oldo[k]);
                    assert(view16(oldo)[k] == pointwise_mul_spec(view16(a@), view16(b@))[k]);
                }
            }
        }
        i = i + 1;
    }
    proof {
        assert(view16(out@) =~= pointwise_mul_spec(view16(a@), view16(b@)));
    }
    out
}

/// The reduced difference `(x + q - y mod q) mod q` restores `x`'s
/// residue when `y` is added back.
proof fn lemma_mod_sub_rel(x: nat, y: nat)
    ensures
        ((((x + MODULUS - y % (MODULUS as nat)) as nat) % (MODULUS as nat)) + y) % (
        MODULUS as nat) == x % (MODULUS as nat),
{
    let q = MODULUS as int;
    let ym = (y % (MODULUS as nat)) as int;
    let c = ((x + q - ym) % q) as int;
    vstd::arithmetic::div_mod::lemma_mod_division_less_than_divisor(y as int, q);
    vstd::arithmetic::div_mod::lemma_add_mod_noop(c, y as int, q);
    vstd::arithmetic::div_mod::lemma_mod_twice(y as int, q);
    vstd::arithmetic::div_mod::lemma_mod_twice((x + q - ym) as int, q);
    vstd::arithmetic::div_mod::lemma_add_mod_noop((x + q - ym) as int, ym, q);
    vstd::arithmetic::div_mod::lemma_mod_add_multiples_vanish(x as int, q);
    // y and its remainder differ by a multiple of q
    vstd::arithmetic::div_mod::lemma_fundamental_div_mod(y as int, q);
    vstd::arithmetic::div_mod::lemma_mod_multiples_vanish(y as int / q, c + ym, q);
    assert((c + y) as int == (y as int / q) * q + (c + ym)) by (nonlinear_arith)
        requires
            y as int == (y as int / q) * q + ym,
    ;
}

/// Accepted samples only grow with more draws, by appending.
proof fn lemma_htp_prefix(data: Seq<u8>, d1: int, d2: int)
    requires
        0 <= d1 <= d2,
    ensures
        htp_accepted(data, d1).is_prefix_of(htp_accepted(data, d2)),
    decreases d2 - d1,
{
    if d1 < d2 {
        lemma_htp_prefix(data, d1, d2 - 1);
        assert(htp_accepted(data, d2 - 1).is_prefix_of(htp_accepted(data, d2)));
    }
}

/// If the accepted samples first reach length `n` after `d` draws,
/// they are the hash-to-point result.
proof fn lemma_htp_minimal(data: Seq<u8>, d: int, n: nat)
    requires
        0 <= d,
        htp_accepted(data, d).len() == n,
        n > 0,
    ensures
        is_hash_to_point(htp_accepted(data, d), data, n),
    decreases d,
{
    if htp_accepted(data, d - 1).len() < n {
        assert(htp_accepted(data, d) == htp_accepted(data, d) && htp_accepted(data, d).len() == n
            && htp_accepted(data, d - 1).len() < n);
    } else {
        assert(d > 0);
        assert(htp_accepted(data, d - 1).len() <= htp_accepted(data, d).len());
        assert(htp_accepted(data, d - 1) == htp_accepted(data, d)) by {
            lemma_htp_monotone(data, d);
        }
        lemma_htp_minimal(data, d - 1, n);
        let s = htp_accepted(data, d - 1);
        assert(is_hash_to_point(s, data, n));
    }
}

/// One more draw either appends one accepted sample or leaves the
/// list unchanged; in particular a draw that does not grow the list
/// keeps it identical.
proof fn lemma_htp_monotone(data: Seq<u8>, d: int)
    requires
        d > 0,
        htp_accepted(data, d - 1).len() >= htp_accepted(data, d).len(),
    ensures
        htp_accepted(data, d) == htp_accepted(data, d - 1),
{
}

} // verus!
