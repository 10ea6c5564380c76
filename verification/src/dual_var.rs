//! Sign-split polynomial variables: each coefficient as a (positive,
//! negative) signal pair with the mutual-exclusion product enforced
//! at allocation.

use vstd::prelude::*;
use crate::nums::Wide;
use crate::params::MODULUS;
use crate::dual_poly::DualPolynomial;
use crate::cs::{
    extends, lemma_extends_trans, lemma_extends_wire, lemma_term_sum1, lemma_term_sum2, t1, t2,
    wire_val, CircuitBuilder,
};
use crate::poly_var::{sig_vals, sigs_ok, PolyVar};
use crate::gadget_bits::{assert_const_sig, lemma_cap_small};

verus! {

/// A sign-split ring element as circuit signals.
pub struct DualPolyVar {
    pub pos: PolyVar,
    pub neg: PolyVar,
}

impl DualPolyVar {
    /// Allocates witness signals for both parts and forces, for every
    /// index, the product of the two parts to zero.
    pub fn alloc_vars(cs: &mut CircuitBuilder, dual: &DualPolynomial) -> (r: DualPolyVar)
        requires
            old(cs).wf(),
            dual.wf(),
        ensures
            final(cs).wf(),
            extends(*old(cs), *final(cs)),
            final(cs).publics@ == old(cs).publics@,
            final(cs).ok() <==> old(cs).ok(),
            r.pos.coeff@.len() == dual.pos.coeffs@.len(),
            r.neg.coeff@.len() == dual.neg.coeffs@.len(),
            sigs_ok(r.pos.coeff@, final(cs).values@.len() as nat),
            sigs_ok(r.neg.coeff@, final(cs).values@.len() as nat),
            sig_vals(final(cs).wires(), r.pos.coeff@) == dual.pos.view(),
            sig_vals(final(cs).wires(), r.neg.coeff@) == dual.neg.view(),
    {
        let ghost pre = *cs;
        let pos = PolyVar::alloc_vars(cs, &dual.pos);
        let ghost mid1 = *cs;
        let neg = PolyVar::alloc_vars(cs, &dual.neg);
        let ghost mid2 = *cs;
        proof {
            lemma_extends_trans(pre, mid1, mid2);
            crate::poly_var::lemma_sig_vals_extend(mid1, mid2, pos.coeff@);
        }
        let n = pos.coeff.len();
        let mut i: usize = 0;
        while i < n
            invariant
                pre.wf(),
                cs.wf(),
                extends(pre, mid2),
                extends(mid2, *cs),
                cs.publics@ == pre.publics@,
                mid2.publics@ == pre.publics@,
                cs.ok() <==> pre.ok(),
                dual.wf(),
                n == pos.coeff@.len(),
                n == neg.coeff@.len(),
                n == dual.pos.coeffs@.len(),
                sigs_ok(pos.coeff@, mid2.values@.len() as nat),
                sigs_ok(neg.coeff@, mid2.values@.len() as nat),
                sig_vals(mid2.wires(), pos.coeff@) == dual.pos.view(),
                sig_vals(mid2.wires(), neg.coeff@) == dual.neg.view(),
                i <= n,
            decreases n - i,
        {
            let ghost prev = *cs;
            let pi = pos.coeff[i];
            let ni = neg.coeff[i];
            proof {
                lemma_extends_wire(mid2, *cs, pi as int);
                lemma_extends_wire(mid2, *cs, ni as int);
                assert(sig_vals(mid2.wires(), pos.coeff@)[i as int] == wire_val(
                    mid2.wires(),
                    pi,
                ));
                assert(sig_vals(mid2.wires(), neg.coeff@)[i as int] == wire_val(
                    mid2.wires(),
                    ni,
                ));
                assert(dual.pos.view()[i as int] < MODULUS);
                assert(dual.neg.view()[i as int] < MODULUS);
                lemma_cap_small();
                vstd::arithmetic::mul::lemma_mul_upper_bound(
                    dual.pos.view()[i as int] as int,
                    12288,
                    dual.neg.view()[i as int] as int,
                    12288,
                );
                vstd::arithmetic::mul::lemma_mul_basics(dual.pos.view()[i as int] as int);
                vstd::arithmetic::mul::lemma_mul_basics(dual.neg.view()[i as int] as int);
            }
            let d = cs.mul_gate(pi, ni);
            assert_const_sig(cs, d, 0);
            proof {
                lemma_extends_trans(mid2, prev, *cs);
            }
            i = i + 1;
        }
        proof {
            lemma_extends_trans(pre, mid2, *cs);
            crate::poly_var::lemma_sig_vals_extend(mid2, *cs, pos.coeff@);
            crate::poly_var::lemma_sig_vals_extend(mid2, *cs, neg.coeff@);
        }
        DualPolyVar { pos, neg }
    }

    /// Recombines each pair into one signal carrying
    /// `pos + q - neg`, the (unreduced) non-negative representative
    /// of the centered coefficient.
    pub fn to_poly_var(&self, cs: &mut CircuitBuilder) -> (r: PolyVar)
        requires
            old(cs).wf(),
            self.pos.coeff@.len() == self.neg.coeff@.len(),
            sigs_ok(self.pos.coeff@, old(cs).values@.len() as nat),
            sigs_ok(self.neg.coeff@, old(cs).values@.len() as nat),
            forall|i: int|
                0 <= i < self.pos.coeff@.len() ==> sig_vals(old(cs).wires(), self.pos.coeff@)[i]
                    < MODULUS,
            forall|i: int|
                0 <= i < self.neg.coeff@.len() ==> sig_vals(old(cs).wires(), self.neg.coeff@)[i]
                    < MODULUS,
        ensures
            final(cs).wf(),
            extends(*old(cs), *final(cs)),
            final(cs).publics@ == old(cs).publics@,
            final(cs).ok() <==> old(cs).ok(),
            r.coeff@.len() == self.pos.coeff@.len(),
            sigs_ok(r.coeff@, final(cs).values@.len() as nat),
            forall|i: int|
                0 <= i < r.coeff@.len() ==> sig_vals(final(cs).wires(), r.coeff@)[i] == sig_vals(
                    old(cs).wires(),
                    self.pos.coeff@,
                )[i] + MODULUS - sig_vals(old(cs).wires(), self.neg.coeff@)[i],
            forall|i: int|
                0 <= i < r.coeff@.len() ==> sig_vals(final(cs).wires(), r.coeff@)[i] < 2
                    * MODULUS,
    {
        let ghost pre = *cs;
        let n = self.pos.coeff.len();
        let mut out: Vec<usize> = Vec::new();
        let mut i: usize = 0;
        while i < n
            invariant
                pre.wf(),
                cs.wf(),
                extends(pre, *cs),
                cs.publics@ == pre.publics@,
                cs.ok() <==> pre.ok(),
                n == self.pos.coeff@.len(),
                n == self.neg.coeff@.len(),
                sigs_ok(self.pos.coeff@, pre.values@.len() as nat),
                sigs_ok(self.neg.coeff@, pre.values@.len() as nat),
                forall|k: int|
                    0 <= k < n ==> sig_vals(pre.wires(), self.pos.coeff@)[k] < MODULUS,
                forall|k: int|
                    0 <= k < n ==> sig_vals(pre.wires(), self.neg.coeff@)[k] < MODULUS,
                i <= n,
                out@.len() == i,
                sigs_ok(out@, cs.values@.len() as nat),
                forall|k: int|
                    0 <= k < i ==> wire_val(cs.wires(), #[trigger] out@[k]) == wire_val(
                        pre.wires(),
                        self.pos.coeff@[k],
                    ) + MODULUS - wire_val(pre.wires(), self.neg.coeff@[k]),
                forall|k: int|
                    0 <= k < i ==> wire_val(cs.wires(), #[trigger] out@[k]) < 2 * MODULUS,
            decreases n - i,
        {
            let ghost prev = *cs;
            let pi = self.pos.coeff[i];
            let ni = self.neg.coeff[i];
            proof {
                lemma_extends_wire(pre, *cs, pi as int);
                lemma_extends_wire(pre, *cs, ni as int);
                assert(sig_vals(pre.wires(), self.pos.coeff@)[i as int] == wire_val(
                    pre.wires(),
                    pi,
                ));
                assert(sig_vals(pre.wires(), self.neg.coeff@)[i as int] == wire_val(
                    pre.wires(),
                    ni,
                ));
                lemma_cap_small();
            }
            let pv = cs.value_of(pi);
            let nv = cs.value_of(ni);
            let xv = pv.add_w(&Wide::from_u64(MODULUS as u64)).sub_w(&nv);
            let s = cs.alloc_witness(xv);
            let ghost mid = *cs;
            let pos_t = t1(1, pi);
            let neg_t = t2(1, ni, 1, s);
            let qc = Wide::from_u64(MODULUS as u64);
            let zero = Wide::zero();
            cs.assert_lin(pos_t, neg_t, qc, zero);
            out.push(s);
            proof {
                lemma_term_sum1(1, pi, mid.wires());
                lemma_term_sum2(1, ni, 1, s, mid.wires());
                lemma_extends_trans(prev, mid, *cs);
                lemma_extends_trans(pre, prev, *cs);
                assert forall|k: int|
                    0 <= k < i + 1 implies wire_val(cs.wires(), #[trigger] out@[k]) == wire_val(
                    pre.wires(),
                    self.pos.coeff@[k],
                ) + MODULUS - wire_val(pre.wires(), self.neg.coeff@[k]) && wire_val(
                    cs.wires(),
                    out@[k],
                ) < 2 * MODULUS by {
                    if k < i {
                        lemma_extends_wire(prev, *cs, out@[k] as int);
                    }
                }
            }
            i = i + 1;
        }
        PolyVar { coeff: out }
    }
}

} // verus!
