//! Transform-domain ring elements: the coefficientwise evaluations of
//! a polynomial at the roots of unity, where ring multiplication is
//! pointwise.

use vstd::prelude::*;
use crate::params::{ParamSet, MODULUS};
use crate::poly::{htp_padded, pointwise_mul, pointwise_mul_spec, poly_add_spec, poly_neg_spec, poly_sub_spec, Polynomial};
use crate::transforms::{coeffs_ok, inv_ntt_spec, inv_ntt_u16, ntt_spec, ntt_u16, view16};

verus! {

/// A ring element in the transform domain.
pub struct NTTPolynomial {
    pub coeffs: Vec<u16>,
}

impl NTTPolynomial {
    /// The coefficients as a sequence of integers.
    pub open spec fn view(self) -> Seq<nat> {
        view16(self.coeffs@)
    }

    /// Which parameter set this element belongs to.
    pub open spec fn param_spec(self) -> ParamSet {
        if self.coeffs@.len() == 512 {
            ParamSet::Falcon512
        } else {
            ParamSet::Falcon1024
        }
    }

    /// Well-formedness: a supported length, all coefficients reduced.
    pub open spec fn wf(self) -> bool {
        (self.coeffs@.len() == 512 || self.coeffs@.len() == 1024) && coeffs_ok(
            self.view(),
            self.coeffs@.len() as nat,
        )
    }

    /// Which parameter set this element belongs to.
    pub fn param(&self) -> (p: ParamSet)
        requires
            self.wf(),
        ensures
            p == self.param_spec(),
    {
        if self.coeffs.len() == 512 {
            ParamSet::Falcon512
        } else {
            ParamSet::Falcon1024
        }
    }

    /// Read access to the coefficients.
    pub fn coeff(&self) -> (r: &Vec<u16>)
        ensures
            r@ == self.coeffs@,
    {
        &self.coeffs
    }

    /// The pointwise product mod q: ring multiplication in the
    /// transform domain.
    pub fn mul(&self, other: &NTTPolynomial) -> (r: NTTPolynomial)
        requires
            self.wf(),
            other.wf(),
            self.coeffs@.len() == other.coeffs@.len(),
        ensures
            r.wf(),
            r.coeffs@.len() == self.coeffs@.len(),
            r.view() == pointwise_mul_spec(self.view(), other.view()),
    {
        proof {
            lemma_raw_bounds(self.coeffs@);
            lemma_raw_bounds(other.coeffs@);
        }
        let out = pointwise_mul(&self.coeffs, &other.coeffs);
        let r = NTTPolynomial { coeffs: out };
        proof {
            assert(coeffs_ok(r.view(), r.coeffs@.len() as nat));
        }
        r
    }

    /// The pointwise sum mod q.
    pub fn add(&self, other: &NTTPolynomial) -> (r: NTTPolynomial)
        requires
            self.wf(),
            other.wf(),
            self.coeffs@.len() == other.coeffs@.len(),
        ensures
            r.wf(),
            r.coeffs@.len() == self.coeffs@.len(),
            r.view() == poly_add_spec(self.view(), other.view()),
    {
        let a = Polynomial { coeffs: clone_coeffs(&self.coeffs) };
        let b = Polynomial { coeffs: clone_coeffs(&other.coeffs) };
        let s = a.add(&b);
        NTTPolynomial { coeffs: s.coeffs }
    }

    /// The pointwise difference mod q.
    pub fn sub(&self, other: &NTTPolynomial) -> (r: NTTPolynomial)
        requires
            self.wf(),
            other.wf(),
            self.coeffs@.len() == other.coeffs@.len(),
        ensures
            r.wf(),
            r.coeffs@.len() == self.coeffs@.len(),
            r.view() == poly_sub_spec(self.view(), other.view()),
    {
        let a = Polynomial { coeffs: clone_coeffs(&self.coeffs) };
        let b = Polynomial { coeffs: clone_coeffs(&other.coeffs) };
        let s = a.sub(&b);
        NTTPolynomial { coeffs: s.coeffs }
    }

    /// The pointwise negation mod q.
    pub fn neg_mod_q(&self) -> (r: NTTPolynomial)
        requires
            self.wf(),
        ensures
            r.wf(),
            r.coeffs@.len() == self.coeffs@.len(),
            r.view() == poly_neg_spec(self.view()),
    {
        let a = Polynomial { coeffs: clone_coeffs(&self.coeffs) };
        let s = a.neg_mod_q();
        NTTPolynomial { coeffs: s.coeffs }
    }

    /// Hashes a message and nonce straight into the transform domain.
    pub fn from_hash_of_message(message: &[u8], nonce: &[u8], p: ParamSet) -> (r: NTTPolynomial)
        ensures
            r.wf(),
            r.param_spec() == p,
            r.view() == ntt_spec(htp_padded(nonce@ + message@, p.n_spec()), p.log_n_spec()),
    {
        let hm = Polynomial::from_hash_of_message(message, nonce, p);
        ntt(&hm)
    }

    /// A uniformly sampled transform-domain element.
    pub fn rand(rng: &mut rand_chacha::ChaCha20Rng, p: ParamSet) -> (r: NTTPolynomial)
        ensures
            r.wf(),
            r.param_spec() == p,
    {
        let s = Polynomial::rand(rng, p);
        NTTPolynomial { coeffs: s.coeffs }
    }

    /// The element deterministically derived from a 32-byte seed.
    pub fn from_seed(seed: &[u8; 32], p: ParamSet) -> (r: NTTPolynomial)
        ensures
            r.wf(),
            r.param_spec() == p,
    {
        let s = Polynomial::from_seed(seed, p);
        NTTPolynomial { coeffs: s.coeffs }
    }

    /// Serializes by converting back to the coefficient domain first.
    pub fn to_bytes(&self) -> (r: Vec<u8>)
        requires
            self.wf(),
        ensures
            r@.len() == 2 * self.coeffs@.len(),
    {
        let p = inv_ntt(self);
        p.to_bytes()
    }
}

/// Converts a polynomial into its transform-domain form.
pub fn ntt(input: &Polynomial) -> (r: NTTPolynomial)
    requires
        input.wf(),
    ensures
        r.wf(),
        r.coeffs@.len() == input.coeffs@.len(),
        r.param_spec() == input.param_spec(),
        r.view() == ntt_spec(input.view(), input.param_spec().log_n_spec()),
{
    let p = input.param();
    let out = ntt_u16(&input.coeffs, p);
    NTTPolynomial { coeffs: out }
}

/// Converts a transform-domain element back to its coefficient form.
pub fn inv_ntt(input: &NTTPolynomial) -> (r: Polynomial)
    requires
        input.wf(),
    ensures
        r.wf(),
        r.coeffs@.len() == input.coeffs@.len(),
        r.param_spec() == input.param_spec(),
        r.view() == inv_ntt_spec(input.view(), input.param_spec()),
{
    let p = input.param();
    let out = inv_ntt_u16(&input.coeffs, p);
    Polynomial { coeffs: out }
}

/// Raw 16-bit bounds follow from the reduced view.
proof fn lemma_raw_bounds(v: Seq<u16>)
    requires
        forall|i: int| 0 <= i < view16(v).len() ==> #[trigger] view16(v)[i] < MODULUS,
    ensures
        forall|i: int| 0 <= i < v.len() ==> #[trigger] v[i] < MODULUS,
{
    assert forall|i: int| 0 <= i < v.len() implies #[trigger] v[i] < MODULUS by {
        assert(view16(v)[i] == v[i] as nat);
    }
}

/// A plain copy of a coefficient vector.
fn clone_coeffs(v: &Vec<u16>) -> (r: Vec<u16>)
    ensures
        r@ == v@,
{
    let mut out: Vec<u16> = Vec::new();
    let mut i: usize = 0;
    while i < v.len()
        invariant
            i <= v@.len(),
            out@.len() == i,
            forall|k: int| 0 <= k < i ==> out@[k] == v@[k],
        decreases v@.len() - i,
    {
        out.push(v[i]);
        i = i + 1;
    }
    proof {
        assert(out@ =~= v@);
    }
    out
}

} // verus!
