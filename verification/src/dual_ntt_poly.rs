//! Sign-split elements in the transform domain.

use vstd::prelude::*;
use crate::params::{ParamSet, MODULUS};
use crate::ntt_poly::{ntt, NTTPolynomial};
use crate::poly::{pointwise_mul_spec, poly_sub_spec};
use crate::dual_poly::DualPolynomial;
use crate::transforms::ntt_spec;

verus! {

/// A sign-split element with both parts in the transform domain.
pub struct DualNTTPolynomial {
    pub pos: NTTPolynomial,
    pub neg: NTTPolynomial,
}

impl DualNTTPolynomial {
    /// Well-formedness: both parts well formed and equally long.
    pub open spec fn wf(self) -> bool {
        self.pos.wf() && self.neg.wf() && self.pos.coeffs@.len() == self.neg.coeffs@.len()
    }

    /// Transforms both parts of a sign-split element.
    pub fn from_dual(poly: &DualPolynomial) -> (r: DualNTTPolynomial)
        requires
            poly.wf(),
        ensures
            r.wf(),
            r.pos.coeffs@.len() == poly.pos.coeffs@.len(),
            r.pos.view() == ntt_spec(poly.pos.view(), poly.pos.param_spec().log_n_spec()),
            r.neg.view() == ntt_spec(poly.neg.view(), poly.neg.param_spec().log_n_spec()),
    {
        DualNTTPolynomial { pos: ntt(&poly.pos), neg: ntt(&poly.neg) }
    }

    /// Recombines the parts into the reduced transform-domain element
    /// `(pos - neg) mod q`.
    pub fn to_ntt_poly(&self) -> (r: NTTPolynomial)
        requires
            self.wf(),
        ensures
            r.wf(),
            r.coeffs@.len() == self.pos.coeffs@.len(),
            r.view() == poly_sub_spec(self.pos.view(), self.neg.view()),
    {
        self.pos.sub(&self.neg)
    }

    /// Multiplies both parts pointwise by the same transform-domain
    /// element.
    pub fn mul_by_poly(&self, other: &NTTPolynomial) -> (r: DualNTTPolynomial)
        requires
            self.wf(),
            other.wf(),
            self.pos.coeffs@.len() == other.coeffs@.len(),
        ensures
            r.wf(),
            r.pos.view() == pointwise_mul_spec(self.pos.view(), other.view()),
            r.neg.view() == pointwise_mul_spec(self.neg.view(), other.view()),
    {
        DualNTTPolynomial { pos: self.pos.mul(other), neg: self.neg.mul(other) }
    }
}

} // verus!
