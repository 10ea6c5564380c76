//! Sign-split ring elements: a centered coefficient is stored as a
//! (positive part, negative part) pair with at most one part
//! non-zero, which avoids native negative numbers in the circuits.

use vstd::prelude::*;
use crate::params::{ParamSet, MODULUS, MODULUS_MINUS_1_OVER_TWO};
use crate::poly::{poly_mul_spec, sq_norm, Polynomial};
use crate::transforms::view16;

verus! {

/// A sign-split ring element.
pub struct DualPolynomial {
    pub pos: Polynomial,
    pub neg: Polynomial,
}

impl DualPolynomial {
    /// Well-formedness: both parts well formed, equally long, and at
    /// every index at most one part non-zero.
    pub open spec fn wf(self) -> bool {
        &&& self.pos.wf()
        &&& self.neg.wf()
        &&& self.pos.coeffs@.len() == self.neg.coeffs@.len()
        &&& forall|i: int|
            0 <= i < self.pos.coeffs@.len() ==> (#[trigger] self.pos.view()[i] == 0
                || self.neg.view()[i] == 0)
    }

    /// The sign split of a reduced element: coefficients below
    /// (q - 1) / 2 go to the positive part, the rest are negated into
    /// the negative part.
    pub fn from_poly(poly: &Polynomial) -> (r: DualPolynomial)
        requires
            poly.wf(),
        ensures
            r.wf(),
            r.pos.coeffs@.len() == poly.coeffs@.len(),
            forall|i: int|
                0 <= i < poly.coeffs@.len() ==> #[trigger] r.pos.view()[i] == (
                if poly.view()[i] < MODULUS_MINUS_1_OVER_TWO {
                    poly.view()[i]
                } else {
                    0nat
                }),
            forall|i: int|
                0 <= i < poly.coeffs@.len() ==> #[trigger] r.neg.view()[i] == (
                if poly.view()[i] < MODULUS_MINUS_1_OVER_TWO {
                    0nat
                } else {
                    (MODULUS - poly.view()[i]) as nat
                }),
    {
        let n = poly.coeffs.len();
        let mut pos: Vec<u16> = Vec::new();
        let mut neg: Vec<u16> = Vec::new();
        let mut i: usize = 0;
        while i < n
            invariant
                poly.wf(),
                n == poly.coeffs@.len(),
                i <= n,
                pos@.len() == i,
                neg@.len() == i,
                forall|k: int|
                    0 <= k < i ==> #[trigger] view16(pos@)[k] == (if poly.view()[k]
                        < MODULUS_MINUS_1_OVER_TWO {
                        poly.view()[k]
                    } else {
                        0nat
                    }),
                forall|k: int|
                    0 <= k < i ==> #[trigger] view16(neg@)[k] == (if poly.view()[k]
                        < MODULUS_MINUS_1_OVER_TWO {
                        0nat
                    } else {
                        (MODULUS - poly.view()[k]) as nat
                    }),
                forall|k: int| 0 <= k < i ==> #[trigger] pos@[k] < MODULUS,
                forall|k: int| 0 <= k < i ==> #[trigger] neg@[k] < MODULUS,
            decreases n - i,
        {
            proof {
                assert(poly.view()[i as int] < MODULUS);
            }
            let c = poly.coeffs[i];
            let ghost oldp = pos@;
            let ghost oldn = neg@;
            if c < MODULUS_MINUS_1_OVER_TWO as u16 {
                pos.push(c);
                neg.push(0);
            } else {
                pos.push(0);
                neg.push((MODULUS as u16) - c);
            }
            proof {
                assert forall|k: int| 0 <= k < i + 1 implies #[trigger] view16(pos@)[k] == (
                if poly.view()[k] < MODULUS_MINUS_1_OVER_TWO {
                    poly.view()[k]
                } else {
                    0nat
                }) by {
                    if k < i {
                        assert(pos@[k] == oldp[k]);
                        assert(view16(oldp)[k] == view16(pos@)[k]);
                    }
                }
                assert forall|k: int| 0 <= k < i + 1 implies #[trigger] view16(neg@)[k] == (
                if poly.view()[k] < MODULUS_MINUS_1_OVER_TWO {
                    0nat
                } else {
                    (MODULUS - poly.view()[k]) as nat
                }) by {
                    if k < i {
                        assert(neg@[k] == oldn[k]);
                        assert(view16(oldn)[k] == view16(neg@)[k]);
                    }
                }
            }
            i = i + 1;
        }
        let r = DualPolynomial {
            pos: Polynomial { coeffs: pos },
            neg: Polynomial { coeffs: neg },
        };
        r
    }

    /// Recombines the parts into the reduced element
    /// `(pos - neg) mod q`.
    pub fn to_poly(&self) -> (r: Polynomial)
        requires
            self.wf(),
        ensures
            r.wf(),
            r.coeffs@.len() == self.pos.coeffs@.len(),
            forall|i: int|
                0 <= i < r.coeffs@.len() ==> #[trigger] r.view()[i] == ((self.pos.view()[i]
                    + MODULUS - self.neg.view()[i]) as nat) % (MODULUS as nat),
    {
        let s = self.pos.sub(&self.neg);
        s
    }

    /// The squared l2 norm of both parts together.
    pub fn l2_norm(&self) -> (r: u64)
        requires
            self.wf(),
        ensures
            r == sq_norm(self.pos.view()) + sq_norm(self.neg.view()),
    {
        let a = self.pos.l2_norm();
        let b = self.neg.l2_norm();
        proof {
            crate::dual_poly::lemma_sq_norm_bound(self.pos.view());
            crate::dual_poly::lemma_sq_norm_bound(self.neg.view());
        }
        a + b
    }

    /// Multiplies both parts by the same ring element.
    pub fn mul_by_poly(&self, other: &Polynomial) -> (r: DualPolynomial)
        requires
            self.wf(),
            other.wf(),
            self.pos.coeffs@.len() == other.coeffs@.len(),
        ensures
            r.pos.wf(),
            r.neg.wf(),
            r.pos.view() == poly_mul_spec(self.pos.view(), other.view(), other.param_spec()),
            r.neg.view() == poly_mul_spec(self.neg.view(), other.view(), other.param_spec()),
    {
        DualPolynomial { pos: self.pos.mul(other), neg: self.neg.mul(other) }
    }
}

/// A squared norm of a reduced element stays below `1024 * 6145^2`.
pub proof fn lemma_sq_norm_bound(s: Seq<nat>)
    requires
        s.len() <= 1024,
        forall|i: int| 0 <= i < s.len() ==> #[trigger] s[i] < MODULUS,
    ensures
        sq_norm(s) <= 1024 * (6145 * 6145),
{
    lemma_sq_norm_partial_bound(s, s.len() as int);
    assert(s.len() * (6145 * 6145) <= 1024 * (6145 * 6145)) by (nonlinear_arith)
        requires
            s.len() <= 1024,
    ;
}

/// The partial squared norm grows by at most `6145^2` per term.
proof fn lemma_sq_norm_partial_bound(s: Seq<nat>, k: int)
    requires
        0 <= k <= s.len(),
        forall|i: int| 0 <= i < s.len() ==> #[trigger] s[i] < MODULUS,
    ensures
        crate::poly::sq_norm_partial(s, k) <= k * (6145 * 6145),
    decreases k,
{
    if k > 0 {
        lemma_sq_norm_partial_bound(s, k - 1);
        let x = s[k - 1];
        assert(crate::poly::centered_sq(x) <= 6145 * 6145) by (nonlinear_arith)
            requires
                x < 12289,
                crate::poly::centered_sq(x) == if x > 6144 {
                    (12289 - x) as nat * ((12289 - x) as nat)
                } else {
                    x * x
                },
        ;
        assert((k - 1) * (6145 * 6145) + 6145 * 6145 == k * (6145 * 6145)) by (nonlinear_arith);
    }
}

} // verus!
