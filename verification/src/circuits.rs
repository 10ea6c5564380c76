//! The verification circuits: three ways to constrain
//! `hm == v + s * h (mod q)` plus the norm bound, over the same
//! public inputs.
//!
//! Each builder unpacks the key and signature, derives the hashed
//! message and the remainder in the clear, allocates the signals, and
//! asserts the relation.  The contracts pin down, for every input,
//! exactly which algebraic condition the recorded witness satisfies
//! and exactly which public-input values the circuit exposes, so
//! building the same circuit twice yields identical public inputs.

use vstd::prelude::*;
use crate::params::{ParamSet, MODULUS};
use crate::nums::Wide;
use crate::cs::{
    extends, holds_all, lemma_extends_trans, lemma_extends_wire, wire_val, CircuitBuilder,
};
use crate::keys::{
    hm_spec, pk_ok, pk_param, pk_poly_spec, sig_ok, sig_poly_spec, PublicKey, Signature,
};
use crate::poly::{poly_mul_spec, poly_sub_spec, Polynomial};
use crate::ntt_poly::ntt;
use crate::poly_var::{sig_vals, sigs_ok, NTTPolyVar, PolyVar};
use crate::ntt_var::{mod_q_map, ntt_circuit};
use crate::gadget_arith::{add_mod, mod_q_spec, mul_mod};
use crate::gadget_range::{enforce_less_than_norm_bound, enforce_less_than_q};
use crate::gadget_bits::assert_eq_sig;
use crate::gadget_norm::{l2_norm_var, select_sq_sum};
use crate::transforms::{coeffs_ok, ntt_spec};

verus! {

/// The transform-domain pointwise relation the NTT circuit asserts:
/// for every index, `hm == v + s * h (mod q)` in the transform
/// domain, over the values derived in the clear.
pub open spec fn ntt_relation(pkb: Seq<u8>, msg: Seq<u8>, sigb: Seq<u8>, p: ParamSet) -> bool {
    let h = pk_poly_spec(pkb, p);
    let s = sig_poly_spec(sigb, p);
    let hm = hm_spec(sigb, msg, p);
    let v = poly_sub_spec(hm, poly_mul_spec(s, h, p));
    let hn = ntt_spec(h, p.log_n_spec());
    let sn = ntt_spec(s, p.log_n_spec());
    let vn = ntt_spec(v, p.log_n_spec());
    let hmn = ntt_spec(hm, p.log_n_spec());
    forall|i: int|
        0 <= i < p.n_spec() ==> #[trigger] hmn[i] == ((vn[i] + (sn[i] * hn[i]) % (
        MODULUS as nat)) as nat) % (MODULUS as nat)
}

/// The norm condition the NTT circuit asserts: the centered squared
/// norm of the remainder and the signature is below the scheme bound.
pub open spec fn ntt_norm_ok(pkb: Seq<u8>, msg: Seq<u8>, sigb: Seq<u8>, p: ParamSet) -> bool {
    let h = pk_poly_spec(pkb, p);
    let s = sig_poly_spec(sigb, p);
    let hm = hm_spec(sigb, msg, p);
    let v = poly_sub_spec(hm, poly_mul_spec(s, h, p));
    select_sq_sum(v + s, 2 * p.n_spec() as int) < p.sig_l2_bound_spec()
}

/// The public-input values every variant of the circuit exposes: the
/// transform-domain public key followed by the transform-domain
/// hashed message.
pub open spec fn public_inputs_spec(pkb: Seq<u8>, msg: Seq<u8>, sigb: Seq<u8>, p: ParamSet) -> Seq<
    nat,
> {
    ntt_spec(pk_poly_spec(pkb, p), p.log_n_spec()) + ntt_spec(
        hm_spec(sigb, msg, p),
        p.log_n_spec(),
    )
}

/// A signature-verification circuit constraining the relation in the
/// transform domain.
pub struct FalconNTTVerificationCircuit {
    pub pk: PublicKey,
    pub msg: Vec<u8>,
    pub sig: Signature,
}

impl FalconNTTVerificationCircuit {
    /// Bundles the cleartext inputs of a circuit build.
    pub fn build_circuit(pk: PublicKey, msg: Vec<u8>, sig: Signature) -> (r:
        FalconNTTVerificationCircuit)
        ensures
            r.pk == pk,
            r.msg == msg,
            r.sig == sig,
    {
        FalconNTTVerificationCircuit { pk, msg, sig }
    }

    /// Builds the constraints: allocates the signature and remainder
    /// as witnesses and the transform-domain key and hashed message
    /// as public inputs, range-proves the remainder, transforms both
    /// witnesses in-circuit, and asserts the pointwise relation and
    /// the norm bound.  Fails (building nothing) exactly when the key
    /// or signature does not unpack.
    #[verifier::rlimit(100)]
    pub fn generate_constraints(&self, cs: &mut CircuitBuilder) -> (r: bool)
        requires
            old(cs).wf(),
            self.pk.bytes@.len() < 0x100_0000,
            self.sig.bytes@.len() < 0x100_0000,
        ensures
            final(cs).wf(),
            r <==> (pk_ok(self.pk.bytes@) && sig_ok(
                self.sig.bytes@,
                pk_param(self.pk.bytes@).unwrap(),
            )),
            !r ==> *final(cs) == *old(cs),
            r ==> extends(*old(cs), *final(cs)),
            r ==> final(cs).public_values() == old(cs).public_values() + public_inputs_spec(
                self.pk.bytes@,
                self.msg@,
                self.sig.bytes@,
                pk_param(self.pk.bytes@).unwrap(),
            ),
            r ==> (final(cs).ok() <==> (old(cs).ok() && ntt_relation(
                self.pk.bytes@,
                self.msg@,
                self.sig.bytes@,
                pk_param(self.pk.bytes@).unwrap(),
            ) && ntt_norm_ok(
                self.pk.bytes@,
                self.msg@,
                self.sig.bytes@,
                pk_param(self.pk.bytes@).unwrap(),
            ))),
    {
        let ghost pre = *cs;
        let pk_poly = match self.pk.unpack() {
            Option::Some(pp) => pp,
            Option::None => {
                return false;
            },
        };
        let p = pk_poly.param();
        let sig_ints = match self.sig.unpack(p) {
            Option::Some(si) => si,
            Option::None => {
                return false;
            },
        };
        let sig_poly = crate::keys::lift_signed_pub(&sig_ints);
        proof {
            crate::keys::lemma_sig_poly_view(sig_ints@, sig_poly, self.sig.bytes@, p);
        }
        let nonce = self.sig.nonce();
        let hm = Polynomial::from_hash_of_message(self.msg.as_slice(), nonce.as_slice(), p);
        proof {
            assert(nonce@ + self.msg@ =~= self.sig.bytes@.subrange(1, 41) + self.msg@);
        }
        let uh = sig_poly.mul(&pk_poly);
        let v = hm.sub(&uh);
        let pk_ntt = ntt(&pk_poly);
        let hm_ntt = ntt(&hm);
        let ghost s_view = sig_poly.view();
        let ghost v_view = v.view();
        let ghost hv = pk_poly.view();
        let n = p.n();

        // witnesses and public inputs
        let sig_vars = PolyVar::alloc_vars(cs, &sig_poly);
        let ghost c1 = *cs;
        let pk_ntt_vars = NTTPolyVar::alloc_public_vars(cs, &pk_ntt);
        let ghost c2 = *cs;
        let hm_ntt_vars = NTTPolyVar::alloc_public_vars(cs, &hm_ntt);
        let ghost c3 = *cs;
        let v_vars = PolyVar::alloc_vars(cs, &v);
        let ghost c4 = *cs;
        proof {
            lemma_extends_trans(pre, c1, c2);
            lemma_extends_trans(pre, c2, c3);
            lemma_extends_trans(pre, c3, c4);
            crate::poly_var::lemma_sig_vals_extend(c1, c4, sig_vars.coeff@);
            crate::poly_var::lemma_sig_vals_extend(c2, c4, pk_ntt_vars.coeff@);
            crate::poly_var::lemma_sig_vals_extend(c3, c4, hm_ntt_vars.coeff@);
        }

        // the remainder is range-proved below q
        let mut i: usize = 0;
        while i < n
            invariant
                pre.wf(),
                cs.wf(),
                extends(c4, *cs),
                cs.publics@ == c4.publics@,
                cs.ok() <==> c4.ok(),
                n == p.n_spec(),
                v_vars.coeff@.len() == n,
                sigs_ok(v_vars.coeff@, c4.values@.len() as nat),
                sig_vals(c4.wires(), v_vars.coeff@) == v_view,
                coeffs_ok(v_view, n as nat),
                i <= n,
            decreases n - i,
        {
            let ghost prev = *cs;
            let vi = v_vars.coeff[i];
            proof {
                lemma_extends_wire(c4, *cs, vi as int);
                assert(sig_vals(c4.wires(), v_vars.coeff@)[i as int] == wire_val(
                    c4.wires(),
                    vi,
                ));
            }
            enforce_less_than_q(cs, vi);
            proof {
                lemma_extends_trans(c4, prev, *cs);
            }
            i = i + 1;
        }
        let ghost c5 = *cs;
        proof {
            crate::poly_var::lemma_sig_vals_extend(c1, c5, sig_vars.coeff@);
            crate::poly_var::lemma_sig_vals_extend(c4, c5, v_vars.coeff@);
            lemma_mod_map_id(s_view);
            lemma_mod_map_id(v_view);
        }

        // in-circuit transforms of the witnesses
        proof {
            assert forall|k: int| 0 <= k < sig_vars.coeff@.len() implies wire_val(
                cs.wires(),
                #[trigger] sig_vars.coeff@[k],
            ) < 2 * MODULUS by {
                assert(sig_vals(c5.wires(), sig_vars.coeff@)[k] == wire_val(
                    c5.wires(),
                    sig_vars.coeff@[k],
                ));
                assert(s_view[k] < MODULUS);
            }
        }
        let sig_ntt_vars = ntt_circuit(cs, &sig_vars, p);
        let ghost c6 = *cs;
        proof {
            crate::poly_var::lemma_sig_vals_extend(c5, c6, v_vars.coeff@);
            assert forall|k: int| 0 <= k < v_vars.coeff@.len() implies wire_val(
                cs.wires(),
                #[trigger] v_vars.coeff@[k],
            ) < 2 * MODULUS by {
                assert(sig_vals(c6.wires(), v_vars.coeff@)[k] == wire_val(
                    c6.wires(),
                    v_vars.coeff@[k],
                ));
                assert(v_view[k] < MODULUS);
            }
        }
        let v_ntt_vars = ntt_circuit(cs, &v_vars, p);
        let ghost c7 = *cs;
        proof {
            lemma_extends_trans(c5, c6, c7);
            crate::poly_var::lemma_sig_vals_extend(c6, c7, sig_ntt_vars.coeff@);
            crate::poly_var::lemma_sig_vals_extend(c2, c7, pk_ntt_vars.coeff@);
            crate::poly_var::lemma_sig_vals_extend(c3, c7, hm_ntt_vars.coeff@);
        }

        // the pointwise relation in the transform domain
        let ghost sn = ntt_spec(s_view, p.log_n_spec());
        let ghost vn = ntt_spec(v_view, p.log_n_spec());
        let ghost hn = ntt_spec(hv, p.log_n_spec());
        let ghost hmn = ntt_spec(hm.view(), p.log_n_spec());
        let mut i2: usize = 0;
        let ghost loop_start = *cs;
        while i2 < n
            invariant
                cs.wf(),
                extends(c7, *cs),
                cs.publics@ == c7.publics@,
                n == p.n_spec(),
                sig_ntt_vars.coeff@.len() == n,
                v_ntt_vars.coeff@.len() == n,
                pk_ntt_vars.coeff@.len() == n,
                hm_ntt_vars.coeff@.len() == n,
                sigs_ok(sig_ntt_vars.coeff@, c7.values@.len() as nat),
                sigs_ok(v_ntt_vars.coeff@, c7.values@.len() as nat),
                sigs_ok(pk_ntt_vars.coeff@, c7.values@.len() as nat),
                sigs_ok(hm_ntt_vars.coeff@, c7.values@.len() as nat),
                sig_vals(c7.wires(), sig_ntt_vars.coeff@) == sn,
                sig_vals(c7.wires(), v_ntt_vars.coeff@) == vn,
                sig_vals(c7.wires(), pk_ntt_vars.coeff@) == hn,
                sig_vals(c7.wires(), hm_ntt_vars.coeff@) == hmn,
                sn.len() == n,
                vn.len() == n,
                hn.len() == n,
                hmn.len() == n,
                forall|k: int| 0 <= k < n ==> #[trigger] sn[k] < MODULUS,
                forall|k: int| 0 <= k < n ==> #[trigger] vn[k] < MODULUS,
                forall|k: int| 0 <= k < n ==> #[trigger] hn[k] < MODULUS,
                i2 <= n,
                cs.ok() <==> (c7.ok() && forall|k: int|
                    0 <= k < i2 ==> #[trigger] hmn[k] == ((vn[k] + (sn[k] * hn[k]) % (
                    MODULUS as nat)) as nat) % (MODULUS as nat)),
            decreases n - i2,
        {
            let ghost prev = *cs;
            let si = sig_ntt_vars.coeff[i2];
            let pi = pk_ntt_vars.coeff[i2];
            let vi = v_ntt_vars.coeff[i2];
            let hi = hm_ntt_vars.coeff[i2];
            proof {
                lemma_extends_wire(c7, *cs, si as int);
                lemma_extends_wire(c7, *cs, pi as int);
                assert(sig_vals(c7.wires(), sig_ntt_vars.coeff@)[i2 as int] == wire_val(
                    c7.wires(),
                    si,
                ));
                assert(sig_vals(c7.wires(), pk_ntt_vars.coeff@)[i2 as int] == wire_val(
                    c7.wires(),
                    pi,
                ));
            }
            let prod = mul_mod(cs, si, pi);
            let ghost m1 = *cs;
            proof {
                lemma_extends_wire(c7, m1, vi as int);
                assert(sig_vals(c7.wires(), v_ntt_vars.coeff@)[i2 as int] == wire_val(
                    c7.wires(),
                    vi,
                ));
                crate::gadget_bits::lemma_cap_small();
            }
            let sum = add_mod(cs, vi, prod);
            let ghost m2 = *cs;
            proof {
                lemma_extends_wire(c7, m2, hi as int);
                lemma_extends_wire(m1, m2, prod as int);
                assert(sig_vals(c7.wires(), hm_ntt_vars.coeff@)[i2 as int] == wire_val(
                    c7.wires(),
                    hi,
                ));
            }
            assert_eq_sig(cs, hi, sum);
            proof {
                lemma_extends_trans(prev, m1, m2);
                lemma_extends_trans(prev, m2, *cs);
                lemma_extends_trans(c7, prev, *cs);
                lemma_extends_wire(m2, *cs, sum as int);
                lemma_extends_wire(m2, *cs, hi as int);
            }
            i2 = i2 + 1;
        }
        let ghost c8 = *cs;

        // the norm bound over remainder then signature
        let mut norm_in: Vec<usize> = Vec::new();
        append_sigs(&mut norm_in, &v_vars.coeff);
        append_sigs(&mut norm_in, &sig_vars.coeff);
        proof {
            assert(norm_in@ =~= v_vars.coeff@ + sig_vars.coeff@);
            crate::poly_var::lemma_sig_vals_extend(c4, c8, v_vars.coeff@);
            crate::poly_var::lemma_sig_vals_extend(c1, c8, sig_vars.coeff@);
            assert(sig_vals(c8.wires(), norm_in@) =~= v_view + s_view);
            assert forall|k: int| 0 <= k < norm_in@.len() implies sig_vals(
                c8.wires(),
                norm_in@,
            )[k] < MODULUS by {
                if k < n {
                    assert((v_view + s_view)[k] == v_view[k]);
                } else {
                    assert((v_view + s_view)[k] == s_view[k - n]);
                }
            }
        }
        let norm = l2_norm_var(cs, &norm_in);
        let ghost c9 = *cs;
        proof {
            crate::gadget_norm::lemma_select_sq_sum_bound(
                sig_vals(c8.wires(), norm_in@),
                norm_in@.len() as int,
            );
            assert(norm_in@.len() * (6145 * 6145) <= 2048 * (6145 * 6145)) by (nonlinear_arith)
                requires
                    norm_in@.len() <= 2048,
            ;
        }
        enforce_less_than_norm_bound(cs, p, norm);
        proof {
            lemma_extends_trans(pre, c4, c5);
            lemma_extends_trans(pre, c5, c7);
            lemma_extends_trans(pre, c7, c8);
            lemma_extends_trans(pre, c8, c9);
            lemma_extends_trans(pre, c9, *cs);
            lemma_public_values(pre, c1, c2, c3, *cs, pk_ntt_vars.coeff@, hm_ntt_vars.coeff@);
            assert(sig_vals(c2.wires(), pk_ntt_vars.coeff@) == pk_ntt.view());
            assert(pk_ntt.view() == ntt_spec(pk_poly_spec(self.pk.bytes@, p), p.log_n_spec()));
            assert(hm_ntt.view() == ntt_spec(hm_spec(self.sig.bytes@, self.msg@, p), p.log_n_spec()));
        }
        true
    }
}

/// The norm condition the sign-split circuit asserts: every
/// coefficient of both parts of the signature and the remainder is
/// at most 765.
pub open spec fn dual_norm_ok(pkb: Seq<u8>, msg: Seq<u8>, sigb: Seq<u8>, p: ParamSet) -> bool {
    let h = pk_poly_spec(pkb, p);
    let s = sig_poly_spec(sigb, p);
    let hm = hm_spec(sigb, msg, p);
    let v = poly_sub_spec(hm, poly_mul_spec(s, h, p));
    &&& forall|i: int|
        0 <= i < p.n_spec() ==> #[trigger] crate::keys::dual_pos_spec(s)[i] <= 765
    &&& forall|i: int|
        0 <= i < p.n_spec() ==> #[trigger] crate::keys::dual_neg_spec(s)[i] <= 765
    &&& forall|i: int|
        0 <= i < p.n_spec() ==> #[trigger] crate::keys::dual_pos_spec(v)[i] <= 765
    &&& forall|i: int|
        0 <= i < p.n_spec() ==> #[trigger] crate::keys::dual_neg_spec(v)[i] <= 765
}

/// The cleartext inputs of a sign-split circuit build.
pub struct FalconNTTVerificationWitness {
    pub pk: PublicKey,
    pub msg: Vec<u8>,
    pub sig: Signature,
}

impl FalconNTTVerificationWitness {
    /// Bundles the cleartext inputs of a circuit build.
    pub fn build_witness(pk: PublicKey, msg: Vec<u8>, sig: Signature) -> (r:
        FalconNTTVerificationWitness)
        ensures
            r.pk == pk,
            r.msg == msg,
            r.sig == sig,
    {
        FalconNTTVerificationWitness { pk, msg, sig }
    }

    /// Builds the sign-split variant: signature and remainder enter
    /// as (positive, negative) pairs with the exclusion product
    /// enforced, are recombined into unreduced representatives,
    /// transformed in-circuit, and constrained by the pointwise
    /// relation; the norm bound is the per-coefficient magnitude
    /// check on all four part vectors.
    #[verifier::rlimit(100)]
    pub fn verification_circuit(&self, cs: &mut CircuitBuilder) -> (r: bool)
        requires
            old(cs).wf(),
            self.pk.bytes@.len() < 0x100_0000,
            self.sig.bytes@.len() < 0x100_0000,
        ensures
            final(cs).wf(),
            r <==> (pk_ok(self.pk.bytes@) && sig_ok(
                self.sig.bytes@,
                pk_param(self.pk.bytes@).unwrap(),
            )),
            !r ==> *final(cs) == *old(cs),
            r ==> extends(*old(cs), *final(cs)),
            r ==> final(cs).public_values() == old(cs).public_values() + public_inputs_spec(
                self.pk.bytes@,
                self.msg@,
                self.sig.bytes@,
                pk_param(self.pk.bytes@).unwrap(),
            ),
            r ==> (final(cs).ok() <==> (old(cs).ok() && ntt_relation(
                self.pk.bytes@,
                self.msg@,
                self.sig.bytes@,
                pk_param(self.pk.bytes@).unwrap(),
            ) && dual_norm_ok(
                self.pk.bytes@,
                self.msg@,
                self.sig.bytes@,
                pk_param(self.pk.bytes@).unwrap(),
            ))),
    {
        let ghost pre = *cs;
        let pk_poly = match self.pk.unpack() {
            Option::Some(pp) => pp,
            Option::None => {
                return false;
            },
        };
        let p = pk_poly.param();
        let sig_ints = match self.sig.unpack(p) {
            Option::Some(si) => si,
            Option::None => {
                return false;
            },
        };
        let sig_poly = crate::keys::lift_signed_pub(&sig_ints);
        proof {
            crate::keys::lemma_sig_poly_view(sig_ints@, sig_poly, self.sig.bytes@, p);
        }
        let nonce = self.sig.nonce();
        let hm = Polynomial::from_hash_of_message(self.msg.as_slice(), nonce.as_slice(), p);
        proof {
            assert(nonce@ + self.msg@ =~= self.sig.bytes@.subrange(1, 41) + self.msg@);
        }
        let uh = sig_poly.mul(&pk_poly);
        let v = hm.sub(&uh);
        let sig_dual = crate::dual_poly::DualPolynomial::from_poly(&sig_poly);
        let v_dual = crate::dual_poly::DualPolynomial::from_poly(&v);
        let pk_ntt = ntt(&pk_poly);
        let hm_ntt = ntt(&hm);
        let ghost s_view = sig_poly.view();
        let ghost v_view = v.view();
        let ghost hv = pk_poly.view();
        let n = p.n();
        proof {
            assert(sig_dual.pos.view() =~= crate::keys::dual_pos_spec(s_view));
            assert(sig_dual.neg.view() =~= crate::keys::dual_neg_spec(s_view));
            assert(v_dual.pos.view() =~= crate::keys::dual_pos_spec(v_view));
            assert(v_dual.neg.view() =~= crate::keys::dual_neg_spec(v_view));
        }

        // sign-split witnesses with the exclusion product, then their
        // recombined unreduced representatives
        let sig_dual_vars = crate::dual_var::DualPolyVar::alloc_vars(cs, &sig_dual);
        let ghost c1 = *cs;
        let sig_vars = sig_dual_vars.to_poly_var(cs);
        let ghost c2 = *cs;
        let pk_ntt_vars = NTTPolyVar::alloc_public_vars(cs, &pk_ntt);
        let ghost c3 = *cs;
        let hm_ntt_vars = NTTPolyVar::alloc_public_vars(cs, &hm_ntt);
        let ghost c4 = *cs;
        let v_dual_vars = crate::dual_var::DualPolyVar::alloc_vars(cs, &v_dual);
        let ghost c5 = *cs;
        let v_vars = v_dual_vars.to_poly_var(cs);
        let ghost c6 = *cs;
        proof {
            lemma_extends_trans(pre, c1, c2);
            lemma_extends_trans(pre, c2, c3);
            lemma_extends_trans(pre, c3, c4);
            lemma_extends_trans(pre, c4, c5);
            lemma_extends_trans(pre, c5, c6);
            crate::poly_var::lemma_sig_vals_extend(c2, c6, sig_vars.coeff@);
            crate::poly_var::lemma_sig_vals_extend(c3, c6, pk_ntt_vars.coeff@);
            crate::poly_var::lemma_sig_vals_extend(c4, c6, hm_ntt_vars.coeff@);
            lemma_combine_residue(s_view);
            lemma_combine_residue(v_view);
            assert forall|k: int| 0 <= k < n implies wire_val(
                cs.wires(),
                #[trigger] sig_vars.coeff@[k],
            ) < 2 * MODULUS && wire_val(cs.wires(), sig_vars.coeff@[k]) % (MODULUS as nat)
                == s_view[k] by {
                assert(sig_vals(c6.wires(), sig_vars.coeff@)[k] == wire_val(
                    c6.wires(),
                    sig_vars.coeff@[k],
                ));
                assert(sig_vals(c2.wires(), sig_vars.coeff@)[k] == sig_vals(
                    c1.wires(),
                    sig_dual_vars.pos.coeff@,
                )[k] + MODULUS - sig_vals(c1.wires(), sig_dual_vars.neg.coeff@)[k]);
            }
            assert forall|k: int| 0 <= k < n implies wire_val(
                cs.wires(),
                #[trigger] v_vars.coeff@[k],
            ) < 2 * MODULUS && wire_val(cs.wires(), v_vars.coeff@[k]) % (MODULUS as nat)
                == v_view[k] by {
                assert(sig_vals(c6.wires(), v_vars.coeff@)[k] == wire_val(
                    c6.wires(),
                    v_vars.coeff@[k],
                ));
                assert(sig_vals(c6.wires(), v_vars.coeff@)[k] == sig_vals(
                    c5.wires(),
                    v_dual_vars.pos.coeff@,
                )[k] + MODULUS - sig_vals(c5.wires(), v_dual_vars.neg.coeff@)[k]);
            }
        }

        // in-circuit transforms of the recombined witnesses
        let sig_ntt_vars = ntt_circuit(cs, &sig_vars, p);
        let ghost c7 = *cs;
        let v_ntt_vars = ntt_circuit(cs, &v_vars, p);
        let ghost c8 = *cs;
        proof {
            lemma_extends_trans(c6, c7, c8);
            crate::poly_var::lemma_sig_vals_extend(c7, c8, sig_ntt_vars.coeff@);
            crate::poly_var::lemma_sig_vals_extend(c3, c8, pk_ntt_vars.coeff@);
            crate::poly_var::lemma_sig_vals_extend(c4, c8, hm_ntt_vars.coeff@);
            lemma_residue_map(cs.wires(), sig_vars.coeff@, s_view, c6, c7, c8);
            lemma_residue_map(cs.wires(), v_vars.coeff@, v_view, c6, c7, c8);
            assert(mod_q_map(sig_vals(c6.wires(), sig_vars.coeff@)) =~= s_view);
            assert(mod_q_map(sig_vals(c7.wires(), v_vars.coeff@)) =~= v_view);
            crate::poly_var::lemma_sig_vals_extend(c6, c7, v_vars.coeff@);
        }

        // the pointwise relation in the transform domain
        let ghost sn = ntt_spec(s_view, p.log_n_spec());
        let ghost vn = ntt_spec(v_view, p.log_n_spec());
        let ghost hn = ntt_spec(hv, p.log_n_spec());
        let ghost hmn = ntt_spec(hm.view(), p.log_n_spec());
        let mut i2: usize = 0;
        while i2 < n
            invariant
                cs.wf(),
                extends(c8, *cs),
                cs.publics@ == c8.publics@,
                n == p.n_spec(),
                sig_ntt_vars.coeff@.len() == n,
                v_ntt_vars.coeff@.len() == n,
                pk_ntt_vars.coeff@.len() == n,
                hm_ntt_vars.coeff@.len() == n,
                sigs_ok(sig_ntt_vars.coeff@, c8.values@.len() as nat),
                sigs_ok(v_ntt_vars.coeff@, c8.values@.len() as nat),
                sigs_ok(pk_ntt_vars.coeff@, c8.values@.len() as nat),
                sigs_ok(hm_ntt_vars.coeff@, c8.values@.len() as nat),
                sig_vals(c8.wires(), sig_ntt_vars.coeff@) == sn,
                sig_vals(c8.wires(), v_ntt_vars.coeff@) == vn,
                sig_vals(c8.wires(), pk_ntt_vars.coeff@) == hn,
                sig_vals(c8.wires(), hm_ntt_vars.coeff@) == hmn,
                sn.len() == n,
                vn.len() == n,
                hn.len() == n,
                hmn.len() == n,
                forall|k: int| 0 <= k < n ==> #[trigger] sn[k] < MODULUS,
                forall|k: int| 0 <= k < n ==> #[trigger] vn[k] < MODULUS,
                forall|k: int| 0 <= k < n ==> #[trigger] hn[k] < MODULUS,
                i2 <= n,
                cs.ok() <==> (c8.ok() && forall|k: int|
                    0 <= k < i2 ==> #[trigger] hmn[k] == ((vn[k] + (sn[k] * hn[k]) % (
                    MODULUS as nat)) as nat) % (MODULUS as nat)),
            decreases n - i2,
        {
            let ghost prev = *cs;
            let si = sig_ntt_vars.coeff[i2];
            let pi = pk_ntt_vars.coeff[i2];
            let vi = v_ntt_vars.coeff[i2];
            let hi = hm_ntt_vars.coeff[i2];
            proof {
                lemma_extends_wire(c8, *cs, si as int);
                lemma_extends_wire(c8, *cs, pi as int);
                assert(sig_vals(c8.wires(), sig_ntt_vars.coeff@)[i2 as int] == wire_val(
                    c8.wires(),
                    si,
                ));
                assert(sig_vals(c8.wires(), pk_ntt_vars.coeff@)[i2 as int] == wire_val(
                    c8.wires(),
                    pi,
                ));
            }
            let prod = mul_mod(cs, si, pi);
            let ghost m1 = *cs;
            proof {
                lemma_extends_wire(c8, m1, vi as int);
                assert(sig_vals(c8.wires(), v_ntt_vars.coeff@)[i2 as int] == wire_val(
                    c8.wires(),
                    vi,
                ));
                crate::gadget_bits::lemma_cap_small();
            }
            let sum = add_mod(cs, vi, prod);
            let ghost m2 = *cs;
            proof {
                lemma_extends_wire(c8, m2, hi as int);
                lemma_extends_wire(m1, m2, prod as int);
                assert(sig_vals(c8.wires(), hm_ntt_vars.coeff@)[i2 as int] == wire_val(
                    c8.wires(),
                    hi,
                ));
            }
            assert_eq_sig(cs, hi, sum);
            proof {
                lemma_extends_trans(prev, m1, m2);
                lemma_extends_trans(prev, m2, *cs);
                lemma_extends_trans(c8, prev, *cs);
                lemma_extends_wire(m2, *cs, sum as int);
                lemma_extends_wire(m2, *cs, hi as int);
            }
            i2 = i2 + 1;
        }
        let ghost c9 = *cs;

        // the per-coefficient magnitude bound on all four parts
        enforce_part_bound(cs, &sig_dual_vars.pos.coeff, Ghost(c1), Ghost(sig_dual.pos.view()));
        let ghost c10 = *cs;
        enforce_part_bound(cs, &sig_dual_vars.neg.coeff, Ghost(c1), Ghost(sig_dual.neg.view()));
        let ghost c11 = *cs;
        enforce_part_bound(cs, &v_dual_vars.pos.coeff, Ghost(c5), Ghost(v_dual.pos.view()));
        let ghost c12 = *cs;
        enforce_part_bound(cs, &v_dual_vars.neg.coeff, Ghost(c5), Ghost(v_dual.neg.view()));
        proof {
            lemma_extends_trans(pre, c6, c8);
            lemma_extends_trans(pre, c8, c9);
            lemma_extends_trans(c9, c10, c11);
            lemma_extends_trans(c9, c11, c12);
            lemma_extends_trans(c9, c12, *cs);
            lemma_extends_trans(pre, c9, *cs);
            lemma_public_values(pre, c2, c3, c4, *cs, pk_ntt_vars.coeff@, hm_ntt_vars.coeff@);
            assert(sig_vals(c3.wires(), pk_ntt_vars.coeff@) == pk_ntt.view());
            assert(pk_ntt.view() == ntt_spec(pk_poly_spec(self.pk.bytes@, p), p.log_n_spec()));
            assert(hm_ntt.view() == ntt_spec(
                hm_spec(self.sig.bytes@, self.msg@, p),
                p.log_n_spec(),
            ));
        }
        true
    }
}

/// Bounds every signal of a sign-split part by 765; satisfied
/// exactly when every recorded part value is at most 765.
fn enforce_part_bound(
    cs: &mut CircuitBuilder,
    part: &Vec<usize>,
    Ghost(base): Ghost<CircuitBuilder>,
    Ghost(vals): Ghost<Seq<nat>>,
)
    requires
        old(cs).wf(),
        base.wf(),
        extends(base, *old(cs)),
        sigs_ok(part@, base.values@.len() as nat),
        sig_vals(base.wires(), part@) == vals,
        forall|i: int| 0 <= i < vals.len() ==> #[trigger] vals[i] < MODULUS,
        part@.len() == vals.len(),
    ensures
        final(cs).wf(),
        extends(*old(cs), *final(cs)),
        final(cs).publics@ == old(cs).publics@,
        final(cs).ok() <==> (old(cs).ok() && forall|i: int|
            0 <= i < vals.len() ==> #[trigger] vals[i] <= 765),
{
    let ghost pre = *cs;
    let n = part.len();
    let mut i: usize = 0;
    while i < n
        invariant
            pre.wf(),
            cs.wf(),
            base.wf(),
            extends(base, pre),
            extends(pre, *cs),
            cs.publics@ == pre.publics@,
            n == part@.len(),
            n == vals.len(),
            sigs_ok(part@, base.values@.len() as nat),
            sig_vals(base.wires(), part@) == vals,
            forall|k: int| 0 <= k < vals.len() ==> #[trigger] vals[k] < MODULUS,
            i <= n,
            cs.ok() <==> (pre.ok() && forall|k: int| 0 <= k < i ==> #[trigger] vals[k] <= 765),
        decreases n - i,
    {
        let ghost prev = *cs;
        let e = part[i];
        proof {
            lemma_extends_trans(base, pre, *cs);
            lemma_extends_wire(base, *cs, e as int);
            assert(sig_vals(base.wires(), part@)[i as int] == wire_val(base.wires(), e));
        }
        crate::gadget_range::enforce_leq_765(cs, e);
        proof {
            lemma_extends_trans(pre, prev, *cs);
        }
        i = i + 1;
    }
}

/// The value-level inner product of two coefficient sequences.
pub open spec fn dot(a: Seq<nat>, b: Seq<nat>, k: int) -> nat
    decreases k,
{
    if k <= 0 {
        0
    } else {
        (dot(a, b, k - 1) + a[k - 1] * b[k - 1]) as nat
    }
}

/// The negated-then-plain public key buffer of the schoolbook
/// multiplication, reversed: entry `k` of the reversed buffer.
pub open spec fn sb_buf(h: Seq<nat>) -> Seq<nat> {
    let n = h.len() as int;
    Seq::new(
        (2 * n) as nat,
        |k: int|
            if 2 * n - 1 - k < n {
                ((MODULUS - h[2 * n - 1 - k]) as nat) % (MODULUS as nat)
            } else {
                h[2 * n - 1 - k - n]
            },
    )
}

/// Column `i` of the schoolbook product: the inner product of the
/// signature with the matching window of the reversed buffer, mod q.
pub open spec fn sb_col(s: Seq<nat>, h: Seq<nat>, i: int) -> nat {
    let n = h.len() as int;
    mod_q_spec(dot(s, sb_buf(h).subrange(n - 1 - i, 2 * n - 1 - i), n))
}

/// The per-coefficient relation the schoolbook circuit asserts: the
/// unreduced `hm + q - column` equals the remainder or the remainder
/// plus one extra q.
pub open spec fn schoolbook_relation(pkb: Seq<u8>, msg: Seq<u8>, sigb: Seq<u8>, p: ParamSet) -> bool {
    let h = pk_poly_spec(pkb, p);
    let s = sig_poly_spec(sigb, p);
    let hm = hm_spec(sigb, msg, p);
    let v = poly_sub_spec(hm, poly_mul_spec(s, h, p));
    forall|i: int|
        0 <= i < p.n_spec() ==> {
            let rhs = hm[i] + MODULUS - #[trigger] sb_col(s, h, i);
            rhs == v[i] || rhs == v[i] + MODULUS
        }
}

/// The public-input values of the schoolbook variant: the public key
/// and the hashed message, both in the coefficient domain.
pub open spec fn schoolbook_publics_spec(pkb: Seq<u8>, msg: Seq<u8>, sigb: Seq<u8>, p: ParamSet) -> Seq<nat> {
    pk_poly_spec(pkb, p) + hm_spec(sigb, msg, p)
}

/// A signature-verification circuit constraining the relation by
/// direct schoolbook multiplication against the rotated public key.
pub struct FalconSchoolBookVerificationCircuit {
    pub pk: PublicKey,
    pub msg: Vec<u8>,
    pub sig: Signature,
}

/// A wire-level inner product equals the value-level product of the
/// named signals' values.
proof fn lemma_inner_prod_dot(w: Seq<nat>, aa: Seq<usize>, bb: Seq<usize>, k: int)
    requires
        0 <= k <= aa.len(),
        k <= bb.len(),
    ensures
        crate::gadget_arith::inner_prod(w, aa, bb, k) == dot(sig_vals(w, aa), sig_vals(w, bb), k),
    decreases k,
{
    if k > 0 {
        lemma_inner_prod_dot(w, aa, bb, k - 1);
    }
}

impl FalconSchoolBookVerificationCircuit {
    /// Bundles the cleartext inputs of a circuit build.
    pub fn build_circuit(pk: PublicKey, msg: Vec<u8>, sig: Signature) -> (r:
        FalconSchoolBookVerificationCircuit)
        ensures
            r.pk == pk,
            r.msg == msg,
            r.sig == sig,
    {
        FalconSchoolBookVerificationCircuit { pk, msg, sig }
    }

    /// Builds the constraints: the signature and remainder enter as
    /// witnesses and the key and hashed message as coefficient-domain
    /// public inputs; each output coefficient is tied to an
    /// inner-product column against the rotated, negated key buffer,
    /// allowing one extra multiple of q; the norm bound closes the
    /// relation.
    #[verifier::rlimit(100)]
    pub fn generate_constraints(&self, cs: &mut CircuitBuilder) -> (r: bool)
        requires
            old(cs).wf(),
            self.pk.bytes@.len() < 0x100_0000,
            self.sig.bytes@.len() < 0x100_0000,
        ensures
            final(cs).wf(),
            r <==> (pk_ok(self.pk.bytes@) && sig_ok(
                self.sig.bytes@,
                pk_param(self.pk.bytes@).unwrap(),
            )),
            !r ==> *final(cs) == *old(cs),
            r ==> extends(*old(cs), *final(cs)),
            r ==> final(cs).public_values() == old(cs).public_values()
                + schoolbook_publics_spec(
                self.pk.bytes@,
                self.msg@,
                self.sig.bytes@,
                pk_param(self.pk.bytes@).unwrap(),
            ),
            r ==> (final(cs).ok() <==> (old(cs).ok() && schoolbook_relation(
                self.pk.bytes@,
                self.msg@,
                self.sig.bytes@,
                pk_param(self.pk.bytes@).unwrap(),
            ) && ntt_norm_ok(
                self.pk.bytes@,
                self.msg@,
                self.sig.bytes@,
                pk_param(self.pk.bytes@).unwrap(),
            ))),
    {
        let ghost pre = *cs;
        let pk_poly = match self.pk.unpack() {
            Option::Some(pp) => pp,
            Option::None => {
                return false;
            },
        };
        let p = pk_poly.param();
        let sig_ints = match self.sig.unpack(p) {
            Option::Some(si) => si,
            Option::None => {
                return false;
            },
        };
        let sig_poly = crate::keys::lift_signed_pub(&sig_ints);
        proof {
            crate::keys::lemma_sig_poly_view(sig_ints@, sig_poly, self.sig.bytes@, p);
        }
        let nonce = self.sig.nonce();
        let hm = Polynomial::from_hash_of_message(self.msg.as_slice(), nonce.as_slice(), p);
        proof {
            assert(nonce@ + self.msg@ =~= self.sig.bytes@.subrange(1, 41) + self.msg@);
        }
        let uh = sig_poly.mul(&pk_poly);
        let v = hm.sub(&uh);
        let ghost s_view = sig_poly.view();
        let ghost v_view = v.view();
        let ghost hv = pk_poly.view();
        let ghost hm_view = hm.view();
        let n = p.n();

        // witnesses and coefficient-domain public inputs
        let sig_vars = PolyVar::alloc_vars(cs, &sig_poly);
        let ghost c1 = *cs;
        let pk_vars = PolyVar::alloc_public_vars(cs, &pk_poly);
        let ghost c2 = *cs;
        let hm_vars = PolyVar::alloc_public_vars(cs, &hm);
        let ghost c3 = *cs;
        let v_vars = PolyVar::alloc_vars(cs, &v);
        let ghost c4 = *cs;
        proof {
            lemma_extends_trans(pre, c1, c2);
            lemma_extends_trans(pre, c2, c3);
            lemma_extends_trans(pre, c3, c4);
            crate::poly_var::lemma_sig_vals_extend(c1, c4, sig_vars.coeff@);
            crate::poly_var::lemma_sig_vals_extend(c2, c4, pk_vars.coeff@);
            crate::poly_var::lemma_sig_vals_extend(c3, c4, hm_vars.coeff@);
        }

        // the remainder is range-proved below q
        let mut i0: usize = 0;
        while i0 < n
            invariant
                pre.wf(),
                cs.wf(),
                extends(c4, *cs),
                cs.publics@ == c4.publics@,
                cs.ok() <==> c4.ok(),
                n == p.n_spec(),
                v_vars.coeff@.len() == n,
                sigs_ok(v_vars.coeff@, c4.values@.len() as nat),
                sig_vals(c4.wires(), v_vars.coeff@) == v_view,
                coeffs_ok(v_view, n as nat),
                i0 <= n,
            decreases n - i0,
        {
            let ghost prev = *cs;
            let vi = v_vars.coeff[i0];
            proof {
                lemma_extends_wire(c4, *cs, vi as int);
                assert(sig_vals(c4.wires(), v_vars.coeff@)[i0 as int] == wire_val(
                    c4.wires(),
                    vi,
                ));
            }
            enforce_less_than_q(cs, vi);
            proof {
                lemma_extends_trans(c4, prev, *cs);
            }
            i0 = i0 + 1;
        }
        let ghost c5 = *cs;

        // the negated key signals and the reversed buffer
        let zero = cs.alloc_witness(Wide::zero());
        crate::gadget_bits::assert_const_sig(cs, zero, 0);
        let ghost c6 = *cs;
        proof {
            lemma_extends_trans(c5, c6, c6);
        }
        let mut neg_sigs: Vec<usize> = Vec::new();
        let mut i1: usize = 0;
        while i1 < n
            invariant
                pre.wf(),
                cs.wf(),
                extends(c6, *cs),
                cs.publics@ == c6.publics@,
                cs.ok() <==> c6.ok(),
                n == p.n_spec(),
                pk_vars.coeff@.len() == n,
                sigs_ok(pk_vars.coeff@, c2.values@.len() as nat),
                extends(c2, c6),
                sig_vals(c2.wires(), pk_vars.coeff@) == hv,
                coeffs_ok(hv, n as nat),
                zero < c6.values@.len(),
                wire_val(c6.wires(), zero) == 0,
                i1 <= n,
                neg_sigs@.len() == i1,
                sigs_ok(neg_sigs@, cs.values@.len() as nat),
                forall|k: int|
                    0 <= k < i1 ==> wire_val(cs.wires(), #[trigger] neg_sigs@[k]) == ((MODULUS
                        - hv[k]) as nat) % (MODULUS as nat),
                forall|k: int|
                    0 <= k < i1 ==> wire_val(cs.wires(), #[trigger] neg_sigs@[k]) < MODULUS,
            decreases n - i1,
        {
            let ghost prev = *cs;
            let pi = pk_vars.coeff[i1];
            proof {
                lemma_extends_trans(c2, c6, *cs);
                lemma_extends_wire(c2, *cs, pi as int);
                lemma_extends_wire(c6, *cs, zero as int);
                assert(sig_vals(c2.wires(), pk_vars.coeff@)[i1 as int] == wire_val(
                    c2.wires(),
                    pi,
                ));
            }
            let ni = crate::gadget_arith::sub_mod(cs, zero, pi);
            neg_sigs.push(ni);
            proof {
                lemma_extends_trans(c6, prev, *cs);
                vstd::arithmetic::div_mod::lemma_small_mod(hv[i1 as int], MODULUS as nat);
                assert forall|k: int|
                    0 <= k < i1 + 1 implies wire_val(cs.wires(), #[trigger] neg_sigs@[k]) == ((
                MODULUS - hv[k]) as nat) % (MODULUS as nat) && wire_val(
                    cs.wires(),
                    neg_sigs@[k],
                ) < MODULUS by {
                    if k < i1 {
                        lemma_extends_wire(prev, *cs, neg_sigs@[k] as int);
                    }
                }
            }
            i1 = i1 + 1;
        }
        let ghost c7 = *cs;
        // buffer: reversed concatenation of negated and plain key
        let mut buf: Vec<usize> = Vec::new();
        let mut i2: usize = 0;
        while i2 < n
            invariant
                n == p.n_spec(),
                pk_vars.coeff@.len() == n,
                i2 <= n,
                buf@.len() == i2,
                forall|k: int| 0 <= k < i2 ==> #[trigger] buf@[k] == pk_vars.coeff@[n - 1 - k],
            decreases n - i2,
        {
            buf.push(pk_vars.coeff[n - 1 - i2]);
            i2 = i2 + 1;
        }
        let mut i3: usize = 0;
        while i3 < n
            invariant
                n == p.n_spec(),
                pk_vars.coeff@.len() == n,
                neg_sigs@.len() == n,
                i3 <= n,
                buf@.len() == n + i3,
                forall|k: int| 0 <= k < n ==> #[trigger] buf@[k] == pk_vars.coeff@[n - 1 - k],
                forall|k: int|
                    n <= k < n + i3 ==> #[trigger] buf@[k] == neg_sigs@[2 * n - 1 - k],
            decreases n - i3,
        {
            buf.push(neg_sigs[n - 1 - i3]);
            i3 = i3 + 1;
        }
        proof {
            assert forall|k: int| 0 <= k < 2 * n implies wire_val(
                c7.wires(),
                #[trigger] buf@[k],
            ) == sb_buf(hv)[k] && buf@[k] < c7.values@.len() by {
                if k < n {
                    lemma_extends_trans(c2, c6, c7);
                    lemma_extends_wire(c2, c7, pk_vars.coeff@[n - 1 - k] as int);
                    assert(sig_vals(c2.wires(), pk_vars.coeff@)[n - 1 - k] == wire_val(
                        c2.wires(),
                        pk_vars.coeff@[n - 1 - k],
                    ));
                } else {
                    assert(buf@[k] == neg_sigs@[2 * n - 1 - k]);
                }
            }
        }

        // per-coefficient columns and the slack-of-one-q equality
        let ghost hm_v = hm_view;
        let mut i4: usize = 0;
        while i4 < n
            invariant
                pre.wf(),
                cs.wf(),
                extends(c7, *cs),
                cs.publics@ == c7.publics@,
                n == p.n_spec(),
                buf@.len() == 2 * n,
                sig_vars.coeff@.len() == n,
                v_vars.coeff@.len() == n,
                hm_vars.coeff@.len() == n,
                sigs_ok(sig_vars.coeff@, c7.values@.len() as nat),
                sigs_ok(v_vars.coeff@, c7.values@.len() as nat),
                sigs_ok(hm_vars.coeff@, c7.values@.len() as nat),
                forall|k: int| 0 <= k < 2 * n ==> #[trigger] buf@[k] < c7.values@.len(),
                forall|k: int|
                    0 <= k < 2 * n ==> wire_val(c7.wires(), #[trigger] buf@[k]) == sb_buf(hv)[k],
                sig_vals(c7.wires(), sig_vars.coeff@) == s_view,
                sig_vals(c7.wires(), v_vars.coeff@) == v_view,
                sig_vals(c7.wires(), hm_vars.coeff@) == hm_v,
                coeffs_ok(s_view, n as nat),
                coeffs_ok(v_view, n as nat),
                coeffs_ok(hm_v, n as nat),
                coeffs_ok(hv, n as nat),
                sb_buf(hv).len() == 2 * n,
                i4 <= n,
                cs.ok() <==> (c7.ok() && forall|k: int|
                    0 <= k < i4 ==> {
                        let rhs = hm_v[k] + MODULUS - #[trigger] sb_col(s_view, hv, k);
                        rhs == v_view[k] || rhs == v_view[k] + MODULUS
                    }),
            decreases n - i4,
        {
            let ghost prev = *cs;
            // the window of the reversed buffer for this column
            let mut win: Vec<usize> = Vec::new();
            let mut j: usize = 0;
            while j < n
                invariant
                    n == p.n_spec(),
                    buf@.len() == 2 * n,
                    i4 < n,
                    j <= n,
                    win@.len() == j,
                    forall|k: int| 0 <= k < j ==> #[trigger] win@[k] == buf@[n - 1 - i4 + k],
                decreases n - j,
            {
                win.push(buf[n - 1 - i4 + j]);
                j = j + 1;
            }
            proof {
                assert(win@ =~= buf@.subrange(n - 1 - i4, 2 * n - 1 - i4));
                lemma_extends_trans(c7, prev, *cs);
                assert forall|k: int| 0 <= k < n implies wire_val(
                    cs.wires(),
                    #[trigger] win@[k],
                ) < MODULUS && win@[k] < prev.values@.len() && wire_val(cs.wires(), win@[k])
                    == sb_buf(hv).subrange(n - 1 - i4, 2 * n - 1 - i4)[k] by {
                    lemma_extends_wire(c7, *cs, win@[k] as int);
                    assert(wire_val(c7.wires(), buf@[n - 1 - i4 + k]) == sb_buf(hv)[n - 1 - i4
                        + k]);
                    vstd::arithmetic::div_mod::lemma_mod_division_less_than_divisor(
                        (MODULUS - hv[2 * n - 1 - (n - 1 - i4 + k)]) as int,
                        MODULUS as int,
                    );
                    if 2 * n - 1 - (n - 1 - i4 + k) >= n {
                        assert(sb_buf(hv)[n - 1 - i4 + k] == hv[2 * n - 1 - (n - 1 - i4 + k)
                            - n]);
                    }
                }
                assert forall|k: int| 0 <= k < n implies wire_val(
                    cs.wires(),
                    #[trigger] sig_vars.coeff@[k],
                ) < MODULUS && sig_vars.coeff@[k] < prev.values@.len() by {
                    lemma_extends_wire(c7, *cs, sig_vars.coeff@[k] as int);
                    assert(sig_vals(c7.wires(), sig_vars.coeff@)[k] == wire_val(
                        c7.wires(),
                        sig_vars.coeff@[k],
                    ));
                }
            }
            let col = crate::gadget_arith::inner_product_mod(cs, &sig_vars.coeff, &win);
            let ghost m1 = *cs;
            proof {
                lemma_inner_prod_dot(prev.wires(), sig_vars.coeff@, win@, n as int);
                assert(sig_vals(prev.wires(), sig_vars.coeff@) =~= s_view) by {
                    crate::poly_var::lemma_sig_vals_extend(c7, prev, sig_vars.coeff@);
                }
                assert(sig_vals(prev.wires(), win@) =~= sb_buf(hv).subrange(
                    n - 1 - i4,
                    2 * n - 1 - i4,
                ));
                assert(wire_val(m1.wires(), col) == sb_col(s_view, hv, i4 as int));
            }
            // rhs = hm + q - col, allocated and linearly constrained
            let hi = hm_vars.coeff[i4];
            proof {
                lemma_extends_trans(c7, prev, m1);
                lemma_extends_wire(c7, m1, hi as int);
                assert(sig_vals(c7.wires(), hm_vars.coeff@)[i4 as int] == wire_val(
                    c7.wires(),
                    hi,
                ));
                vstd::arithmetic::div_mod::lemma_mod_division_less_than_divisor(
                    dot(
                        s_view,
                        sb_buf(hv).subrange(n - 1 - i4, 2 * n - 1 - i4),
                        n as int,
                    ) as int,
                    MODULUS as int,
                );
                crate::gadget_bits::lemma_cap_small();
            }
            let hval = cs.value_of(hi);
            let cval = cs.value_of(col);
            let rhs_v = hval.add_w(&Wide::from_u64(MODULUS as u64)).sub_w(&cval);
            let rhs = cs.alloc_witness(rhs_v);
            let ghost m2 = *cs;
            let pos_t = crate::cs::t1(1, hi);
            let neg_t = crate::cs::t2(1, col, 1, rhs);
            let qc = Wide::from_u64(MODULUS as u64);
            let zero_w = Wide::zero();
            cs.assert_lin(pos_t, neg_t, qc, zero_w);
            let ghost m3 = *cs;
            proof {
                crate::cs::lemma_term_sum1(1, hi, m2.wires());
                crate::cs::lemma_term_sum2(1, col, 1, rhs, m2.wires());
                lemma_extends_trans(m1, m2, m3);
            }
            // vq = v + q
            let vi = v_vars.coeff[i4];
            proof {
                lemma_extends_trans(c7, m1, m3);
                lemma_extends_wire(c7, m3, vi as int);
                assert(sig_vals(c7.wires(), v_vars.coeff@)[i4 as int] == wire_val(
                    c7.wires(),
                    vi,
                ));
            }
            let vval = cs.value_of(vi);
            let vq_v = vval.add_w(&Wide::from_u64(MODULUS as u64));
            let vq = cs.alloc_witness(vq_v);
            let ghost m4 = *cs;
            let pos_t2 = crate::cs::t1(1, vi);
            let neg_t2 = crate::cs::t1(1, vq);
            let qc2 = Wide::from_u64(MODULUS as u64);
            let zero_w2 = Wide::zero();
            cs.assert_lin(pos_t2, neg_t2, qc2, zero_w2);
            let ghost m5 = *cs;
            proof {
                crate::cs::lemma_term_sum1(1, vi, m4.wires());
                crate::cs::lemma_term_sum1(1, vq, m4.wires());
                lemma_extends_trans(m3, m4, m5);
                lemma_extends_wire(m2, m5, rhs as int);
                lemma_extends_wire(c7, m5, vi as int);
            }
            let e1 = cs.is_eq_gate(rhs, vi);
            let ghost m6 = *cs;
            proof {
                lemma_extends_wire(m2, m6, rhs as int);
                lemma_extends_wire(m4, m6, vq as int);
            }
            let e2 = cs.is_eq_gate(rhs, vq);
            let ghost m7 = *cs;
            proof {
                lemma_extends_trans(m5, m6, m7);
                lemma_extends_wire(m6, m7, e1 as int);
            }
            let o = crate::gadget_bits::bool_or(cs, e1, e2);
            let ghost m8 = *cs;
            crate::gadget_bits::assert_const_sig(cs, o, 1);
            proof {
                lemma_extends_trans(m5, m7, m8);
                lemma_extends_trans(m5, m8, *cs);
                lemma_extends_trans(m3, m5, *cs);
                lemma_extends_trans(m1, m3, *cs);
                lemma_extends_trans(prev, m1, *cs);
                lemma_extends_trans(c7, prev, *cs);
            }
            i4 = i4 + 1;
        }
        let ghost c8 = *cs;

        // the norm bound over remainder then signature
        let mut norm_in: Vec<usize> = Vec::new();
        append_sigs(&mut norm_in, &v_vars.coeff);
        append_sigs(&mut norm_in, &sig_vars.coeff);
        proof {
            assert(norm_in@ =~= v_vars.coeff@ + sig_vars.coeff@);
            crate::poly_var::lemma_sig_vals_extend(c7, c8, v_vars.coeff@);
            crate::poly_var::lemma_sig_vals_extend(c7, c8, sig_vars.coeff@);
            assert(sig_vals(c8.wires(), norm_in@) =~= v_view + s_view);
            assert forall|k: int| 0 <= k < norm_in@.len() implies sig_vals(
                c8.wires(),
                norm_in@,
            )[k] < MODULUS by {
                if k < n {
                    assert((v_view + s_view)[k] == v_view[k]);
                } else {
                    assert((v_view + s_view)[k] == s_view[k - n]);
                }
            }
        }
        let norm = l2_norm_var(cs, &norm_in);
        let ghost c9 = *cs;
        proof {
            crate::gadget_norm::lemma_select_sq_sum_bound(
                sig_vals(c8.wires(), norm_in@),
                norm_in@.len() as int,
            );
            assert(norm_in@.len() * (6145 * 6145) <= 2048 * (6145 * 6145)) by (nonlinear_arith)
                requires
                    norm_in@.len() <= 2048,
            ;
        }
        enforce_less_than_norm_bound(cs, p, norm);
        proof {
            lemma_extends_trans(pre, c4, c5);
            lemma_extends_trans(pre, c5, c6);
            lemma_extends_trans(pre, c6, c7);
            lemma_extends_trans(pre, c7, c8);
            lemma_extends_trans(pre, c8, c9);
            lemma_extends_trans(pre, c9, *cs);
            lemma_public_values(pre, c1, c2, c3, *cs, pk_vars.coeff@, hm_vars.coeff@);
            assert(sig_vals(c2.wires(), pk_vars.coeff@) == hv);
            assert(sig_vals(c3.wires(), hm_vars.coeff@) == hm_view);
        }
        true
    }
}

/// Recombining a sign split and reducing gives back the residue.
proof fn lemma_combine_residue(s: Seq<nat>)
    requires
        forall|i: int| 0 <= i < s.len() ==> #[trigger] s[i] < MODULUS,
    ensures
        forall|i: int|
            0 <= i < s.len() ==> ((#[trigger] crate::keys::dual_pos_spec(s)[i] + MODULUS
                - crate::keys::dual_neg_spec(s)[i]) as nat) % (MODULUS as nat) == s[i],
    decreases 0int,
{
    assert forall|i: int|
        0 <= i < s.len() implies ((#[trigger] crate::keys::dual_pos_spec(s)[i] + MODULUS
        - crate::keys::dual_neg_spec(s)[i]) as nat) % (MODULUS as nat) == s[i] by {
        if s[i] < 6144 {
            vstd::arithmetic::div_mod::lemma_mod_add_multiples_vanish(s[i] as int, MODULUS as int);
            vstd::arithmetic::div_mod::lemma_small_mod(s[i], MODULUS as nat);
        } else {
            vstd::arithmetic::div_mod::lemma_small_mod(s[i], MODULUS as nat);
        }
    }
}

/// The recombined signals' residues form the reduced sequence.
proof fn lemma_residue_map(
    w: Seq<nat>,
    sigs: Seq<usize>,
    target: Seq<nat>,
    c6: CircuitBuilder,
    c7: CircuitBuilder,
    c8: CircuitBuilder,
)
    requires
        sigs.len() == target.len(),
        forall|k: int|
            0 <= k < sigs.len() ==> wire_val(c6.wires(), #[trigger] sigs[k]) % (MODULUS as nat)
                == target[k],
    ensures
        mod_q_map(sig_vals(c6.wires(), sigs)) == target,
{
    assert forall|k: int| 0 <= k < sigs.len() implies mod_q_map(sig_vals(c6.wires(), sigs))[k]
        == target[k] by {
        assert(sig_vals(c6.wires(), sigs)[k] == wire_val(c6.wires(), sigs[k]));
    }
    assert(mod_q_map(sig_vals(c6.wires(), sigs)) =~= target);
}

/// Reduced sequences are their own residues.
proof fn lemma_mod_map_id(s: Seq<nat>)
    requires
        forall|i: int| 0 <= i < s.len() ==> #[trigger] s[i] < MODULUS,
    ensures
        mod_q_map(s) == s,
{
    assert forall|i: int| 0 <= i < s.len() implies mod_q_map(s)[i] == s[i] by {
        vstd::arithmetic::div_mod::lemma_small_mod(s[i], MODULUS as nat);
    }
    assert(mod_q_map(s) =~= s);
}

/// The public values after the two public allocations are the old
/// ones followed by the allocated views.
proof fn lemma_public_values(
    pre: CircuitBuilder,
    c1: CircuitBuilder,
    c2: CircuitBuilder,
    c3: CircuitBuilder,
    fin: CircuitBuilder,
    pk_sigs: Seq<usize>,
    hm_sigs: Seq<usize>,
)
    requires
        pre.wf(),
        c1.wf(),
        c2.wf(),
        c3.wf(),
        fin.wf(),
        extends(pre, c1),
        extends(c1, c2),
        extends(c2, c3),
        extends(c3, fin),
        c1.publics@ == pre.publics@,
        c2.publics@ == c1.publics@ + pk_sigs,
        c3.publics@ == c2.publics@ + hm_sigs,
        fin.publics@ == c3.publics@,
        sigs_ok(pk_sigs, c2.values@.len() as nat),
        sigs_ok(hm_sigs, c3.values@.len() as nat),
    ensures
        fin.public_values() == pre.public_values() + sig_vals(c2.wires(), pk_sigs) + sig_vals(
            c3.wires(),
            hm_sigs,
        ),
{
    lemma_extends_trans(c2, c3, fin);
    lemma_extends_trans(c1, c2, fin);
    lemma_extends_trans(pre, c1, fin);
    assert forall|k: int| 0 <= k < fin.publics@.len() implies fin.public_values()[k] == (
    pre.public_values() + sig_vals(c2.wires(), pk_sigs) + sig_vals(c3.wires(), hm_sigs))[
    k] by {
        let np = pre.publics@.len() as int;
        let na = pk_sigs.len() as int;
        if k < np {
            assert(fin.publics@[k] == pre.publics@[k]);
            assert(pre.publics@[k] < pre.values@.len());
            lemma_extends_wire(pre, fin, pre.publics@[k] as int);
        } else if k < np + na {
            assert(fin.publics@[k] == pk_sigs[k - np]);
            lemma_extends_wire(c2, fin, pk_sigs[k - np] as int);
        } else {
            assert(fin.publics@[k] == hm_sigs[k - np - na]);
            lemma_extends_wire(c3, fin, hm_sigs[k - np - na] as int);
        }
    }
    assert(fin.public_values() =~= pre.public_values() + sig_vals(c2.wires(), pk_sigs)
        + sig_vals(c3.wires(), hm_sigs));
}

/// Appends the signals of one list to another.
fn append_sigs(dst: &mut Vec<usize>, src: &Vec<usize>)
    ensures
        final(dst)@ == old(dst)@ + src@,
{
    let mut i: usize = 0;
    while i < src.len()
        invariant
            i <= src@.len(),
            dst@ == old(dst)@ + src@.take(i as int),
        decreases src@.len() - i,
    {
        proof {
            assert(src@.take(i + 1) =~= src@.take(i as int).push(src@[i as int]));
        }
        dst.push(src[i]);
        i = i + 1;
    }
    proof {
        assert(src@.take(src@.len() as int) =~= src@);
    }
}

} // verus!
