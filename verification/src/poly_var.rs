//! Polynomial variables: ordered lists of circuit signals standing
//! for the coefficients of a ring element, in the coefficient domain
//! (`PolyVar`) or the transform domain (`NTTPolyVar`).

use vstd::prelude::*;
use crate::nums::Wide;
use crate::params::MODULUS;
use crate::poly::{poly_add_spec, pointwise_mul_spec, Polynomial};
use crate::ntt_poly::NTTPolynomial;
use crate::cs::{
    cap, extends, holds_all, lemma_extends_trans, lemma_extends_wire, lemma_new_gates_split,
    new_gates, wire_val, CircuitBuilder,
};
use crate::gadget_bits::{assert_eq_sig, lemma_cap_small};
use crate::gadget_arith::{add_mod, mod_q, mod_q_spec, mul_mod};

verus! {

/// Whether every signal in a list exists among `n` signals.
pub open spec fn sigs_ok(ss: Seq<usize>, n: nat) -> bool {
    forall|i: int| 0 <= i < ss.len() ==> (#[trigger] ss[i]) < n
}

/// The values the signals of a list carry under an assignment.
pub open spec fn sig_vals(w: Seq<nat>, ss: Seq<usize>) -> Seq<nat> {
    ss.map_values(|s: usize| wire_val(w, s))
}

/// Signal values do not change when the circuit grows.
pub proof fn lemma_sig_vals_extend(pre: CircuitBuilder, post: CircuitBuilder, ss: Seq<usize>)
    requires
        extends(pre, post),
        sigs_ok(ss, pre.values@.len() as nat),
    ensures
        sig_vals(post.wires(), ss) == sig_vals(pre.wires(), ss),
{
    assert forall|i: int| 0 <= i < ss.len() implies sig_vals(post.wires(), ss)[i] == sig_vals(
        pre.wires(),
        ss,
    )[i] by {
        lemma_extends_wire(pre, post, ss[i] as int);
    }
    assert(sig_vals(post.wires(), ss) =~= sig_vals(pre.wires(), ss));
}

/// A ring element as circuit signals, coefficient domain.
pub struct PolyVar {
    pub coeff: Vec<usize>,
}

/// A ring element as circuit signals, transform domain.
pub struct NTTPolyVar {
    pub coeff: Vec<usize>,
}

/// Allocates one signal per entry of a coefficient vector, as witness
/// signals or, when `public` is set, as public inputs in order.
fn alloc_coeffs(cs: &mut CircuitBuilder, coeffs: &Vec<u16>, public: bool) -> (r: Vec<usize>)
    requires
        old(cs).wf(),
        forall|i: int| 0 <= i < coeffs@.len() ==> #[trigger] coeffs@[i] < MODULUS,
    ensures
        final(cs).wf(),
        extends(*old(cs), *final(cs)),
        final(cs).gates@ == old(cs).gates@,
        final(cs).ok() <==> old(cs).ok(),
        r@.len() == coeffs@.len(),
        sigs_ok(r@, final(cs).values@.len() as nat),
        sig_vals(final(cs).wires(), r@) == crate::transforms::view16(coeffs@),
        !public ==> final(cs).publics@ == old(cs).publics@,
        public ==> final(cs).publics@ == old(cs).publics@ + r@,
{
    let n = coeffs.len();
    let mut out: Vec<usize> = Vec::new();
    let mut i: usize = 0;
    while i < n
        invariant
            cs.wf(),
            extends(*old(cs), *cs),
            cs.gates@ == old(cs).gates@,
            cs.ok() <==> old(cs).ok(),
            n == coeffs@.len(),
            forall|k: int| 0 <= k < coeffs@.len() ==> #[trigger] coeffs@[k] < MODULUS,
            i <= n,
            out@.len() == i,
            sigs_ok(out@, cs.values@.len() as nat),
            forall|k: int|
                0 <= k < i ==> wire_val(cs.wires(), #[trigger] out@[k]) == coeffs@[k] as nat,
            !public ==> cs.publics@ == old(cs).publics@,
            public ==> cs.publics@ == old(cs).publics@ + out@.map_values(|s: usize| s),
        decreases n - i,
    {
        let ghost prev = *cs;
        proof {
            lemma_cap_small();
        }
        let s = if public {
            cs.alloc_public(Wide::from_u64(coeffs[i] as u64))
        } else {
            cs.alloc_witness(Wide::from_u64(coeffs[i] as u64))
        };
        out.push(s);
        proof {
            lemma_extends_trans(*old(cs), prev, *cs);
            assert forall|k: int|
                0 <= k < i + 1 implies wire_val(cs.wires(), #[trigger] out@[k]) == coeffs@[
            k] as nat by {
                if k < i {
                    lemma_extends_wire(prev, *cs, out@[k] as int);
                }
            }
            if public {
                assert(cs.publics@ =~= old(cs).publics@ + out@.map_values(|s: usize| s));
            }
        }
        i = i + 1;
    }
    proof {
        assert(sig_vals(cs.wires(), out@) =~= crate::transforms::view16(coeffs@));
        if public {
            assert(out@.map_values(|s: usize| s) =~= out@);
        }
    }
    out
}

impl PolyVar {
    /// Wraps existing signals as a polynomial variable.
    pub fn new(coeff: Vec<usize>) -> (r: PolyVar)
        ensures
            r.coeff@ == coeff@,
    {
        PolyVar { coeff }
    }

    /// Read access to the signals.
    pub fn coeff(&self) -> (r: &Vec<usize>)
        ensures
            r@ == self.coeff@,
    {
        &self.coeff
    }

    /// Allocates witness signals carrying a ring element.
    pub fn alloc_vars(cs: &mut CircuitBuilder, poly: &Polynomial) -> (r: PolyVar)
        requires
            old(cs).wf(),
            poly.wf(),
        ensures
            final(cs).wf(),
            extends(*old(cs), *final(cs)),
            final(cs).publics@ == old(cs).publics@,
            final(cs).ok() <==> old(cs).ok(),
            r.coeff@.len() == poly.coeffs@.len(),
            sigs_ok(r.coeff@, final(cs).values@.len() as nat),
            sig_vals(final(cs).wires(), r.coeff@) == poly.view(),
    {
        proof {
            lemma_view_bounds(poly.coeffs@);
        }
        let coeff = alloc_coeffs(cs, &poly.coeffs, false);
        PolyVar { coeff }
    }

    /// Allocates public-input signals carrying a ring element, in
    /// coefficient order.
    pub fn alloc_public_vars(cs: &mut CircuitBuilder, poly: &Polynomial) -> (r: PolyVar)
        requires
            old(cs).wf(),
            poly.wf(),
        ensures
            final(cs).wf(),
            extends(*old(cs), *final(cs)),
            final(cs).publics@ == old(cs).publics@ + r.coeff@,
            final(cs).ok() <==> old(cs).ok(),
            r.coeff@.len() == poly.coeffs@.len(),
            sigs_ok(r.coeff@, final(cs).values@.len() as nat),
            sig_vals(final(cs).wires(), r.coeff@) == poly.view(),
    {
        proof {
            lemma_view_bounds(poly.coeffs@);
        }
        let coeff = alloc_coeffs(cs, &poly.coeffs, true);
        PolyVar { coeff }
    }
}

impl NTTPolyVar {
    /// Wraps existing signals as a transform-domain variable.
    pub fn new(coeff: Vec<usize>) -> (r: NTTPolyVar)
        ensures
            r.coeff@ == coeff@,
    {
        NTTPolyVar { coeff }
    }

    /// Read access to the signals.
    pub fn coeff(&self) -> (r: &Vec<usize>)
        ensures
            r@ == self.coeff@,
    {
        &self.coeff
    }

    /// Allocates witness signals carrying a transform-domain element.
    pub fn alloc_vars(cs: &mut CircuitBuilder, poly: &NTTPolynomial) -> (r: NTTPolyVar)
        requires
            old(cs).wf(),
            poly.wf(),
        ensures
            final(cs).wf(),
            extends(*old(cs), *final(cs)),
            final(cs).publics@ == old(cs).publics@,
            final(cs).ok() <==> old(cs).ok(),
            r.coeff@.len() == poly.coeffs@.len(),
            sigs_ok(r.coeff@, final(cs).values@.len() as nat),
            sig_vals(final(cs).wires(), r.coeff@) == poly.view(),
    {
        proof {
            lemma_view_bounds(poly.coeffs@);
        }
        let coeff = alloc_coeffs(cs, &poly.coeffs, false);
        NTTPolyVar { coeff }
    }

    /// Allocates public-input signals carrying a transform-domain
    /// element, in coefficient order.
    pub fn alloc_public_vars(cs: &mut CircuitBuilder, poly: &NTTPolynomial) -> (r: NTTPolyVar)
        requires
            old(cs).wf(),
            poly.wf(),
        ensures
            final(cs).wf(),
            extends(*old(cs), *final(cs)),
            final(cs).publics@ == old(cs).publics@ + r.coeff@,
            final(cs).ok() <==> old(cs).ok(),
            r.coeff@.len() == poly.coeffs@.len(),
            sigs_ok(r.coeff@, final(cs).values@.len() as nat),
            sig_vals(final(cs).wires(), r.coeff@) == poly.view(),
    {
        proof {
            lemma_view_bounds(poly.coeffs@);
        }
        let coeff = alloc_coeffs(cs, &poly.coeffs, true);
        NTTPolyVar { coeff }
    }

    /// The coefficientwise modular sum of two transform-domain
    /// variables, as fresh reduced signals.
    pub fn add(cs: &mut CircuitBuilder, a: &NTTPolyVar, b: &NTTPolyVar) -> (r: NTTPolyVar)
        requires
            old(cs).wf(),
            a.coeff@.len() == b.coeff@.len(),
            sigs_ok(a.coeff@, old(cs).values@.len() as nat),
            sigs_ok(b.coeff@, old(cs).values@.len() as nat),
            forall|i: int|
                0 <= i < a.coeff@.len() ==> sig_vals(old(cs).wires(), a.coeff@)[i] < MODULUS,
            forall|i: int|
                0 <= i < b.coeff@.len() ==> sig_vals(old(cs).wires(), b.coeff@)[i] < MODULUS,
        ensures
            final(cs).wf(),
            extends(*old(cs), *final(cs)),
            final(cs).publics@ == old(cs).publics@,
            final(cs).ok() <==> old(cs).ok(),
            r.coeff@.len() == a.coeff@.len(),
            sigs_ok(r.coeff@, final(cs).values@.len() as nat),
            sig_vals(final(cs).wires(), r.coeff@) == poly_add_spec(
                sig_vals(old(cs).wires(), a.coeff@),
                sig_vals(old(cs).wires(), b.coeff@),
            ),
    {
        let ghost pre = *cs;
        let n = a.coeff.len();
        let mut out: Vec<usize> = Vec::new();
        let mut i: usize = 0;
        while i < n
            invariant
                pre.wf(),
                cs.wf(),
                extends(pre, *cs),
                cs.publics@ == pre.publics@,
                cs.ok() <==> pre.ok(),
                n == a.coeff@.len(),
                n == b.coeff@.len(),
                sigs_ok(a.coeff@, pre.values@.len() as nat),
                sigs_ok(b.coeff@, pre.values@.len() as nat),
                forall|k: int|
                    0 <= k < n ==> sig_vals(pre.wires(), a.coeff@)[k] < MODULUS,
                forall|k: int|
                    0 <= k < n ==> sig_vals(pre.wires(), b.coeff@)[k] < MODULUS,
                i <= n,
                out@.len() == i,
                sigs_ok(out@, cs.values@.len() as nat),
                forall|k: int|
                    0 <= k < i ==> wire_val(cs.wires(), #[trigger] out@[k]) == poly_add_spec(
                        sig_vals(pre.wires(), a.coeff@),
                        sig_vals(pre.wires(), b.coeff@),
                    )[k],
            decreases n - i,
        {
            let ghost prev = *cs;
            let ai = a.coeff[i];
            let bi = b.coeff[i];
            proof {
                lemma_extends_wire(pre, *cs, ai as int);
                lemma_extends_wire(pre, *cs, bi as int);
                assert(sig_vals(pre.wires(), a.coeff@)[i as int] == wire_val(pre.wires(), ai));
                assert(sig_vals(pre.wires(), b.coeff@)[i as int] == wire_val(pre.wires(), bi));
                lemma_cap_small();
            }
            let s = add_mod(cs, ai, bi);
            out.push(s);
            proof {
                lemma_extends_trans(pre, prev, *cs);
                assert forall|k: int|
                    0 <= k < i + 1 implies wire_val(cs.wires(), #[trigger] out@[k])
                    == poly_add_spec(
                    sig_vals(pre.wires(), a.coeff@),
                    sig_vals(pre.wires(), b.coeff@),
                )[k] by {
                    if k < i {
                        lemma_extends_wire(prev, *cs, out@[k] as int);
                    }
                }
            }
            i = i + 1;
        }
        proof {
            assert(sig_vals(cs.wires(), out@) =~= poly_add_spec(
                sig_vals(pre.wires(), a.coeff@),
                sig_vals(pre.wires(), b.coeff@),
            ));
        }
        NTTPolyVar { coeff: out }
    }

    /// The coefficientwise modular product of two transform-domain
    /// variables, as fresh reduced signals.
    pub fn mul(cs: &mut CircuitBuilder, a: &NTTPolyVar, b: &NTTPolyVar) -> (r: NTTPolyVar)
        requires
            old(cs).wf(),
            a.coeff@.len() == b.coeff@.len(),
            sigs_ok(a.coeff@, old(cs).values@.len() as nat),
            sigs_ok(b.coeff@, old(cs).values@.len() as nat),
            forall|i: int|
                0 <= i < a.coeff@.len() ==> sig_vals(old(cs).wires(), a.coeff@)[i] < MODULUS,
            forall|i: int|
                0 <= i < b.coeff@.len() ==> sig_vals(old(cs).wires(), b.coeff@)[i] < MODULUS,
        ensures
            final(cs).wf(),
            extends(*old(cs), *final(cs)),
            final(cs).publics@ == old(cs).publics@,
            final(cs).ok() <==> old(cs).ok(),
            r.coeff@.len() == a.coeff@.len(),
            sigs_ok(r.coeff@, final(cs).values@.len() as nat),
            sig_vals(final(cs).wires(), r.coeff@) == pointwise_mul_spec(
                sig_vals(old(cs).wires(), a.coeff@),
                sig_vals(old(cs).wires(), b.coeff@),
            ),
    {
        let ghost pre = *cs;
        let n = a.coeff.len();
        let mut out: Vec<usize> = Vec::new();
        let mut i: usize = 0;
        while i < n
            invariant
                pre.wf(),
                cs.wf(),
                extends(pre, *cs),
                cs.publics@ == pre.publics@,
                cs.ok() <==> pre.ok(),
                n == a.coeff@.len(),
                n == b.coeff@.len(),
                sigs_ok(a.coeff@, pre.values@.len() as nat),
                sigs_ok(b.coeff@, pre.values@.len() as nat),
                forall|k: int|
                    0 <= k < n ==> sig_vals(pre.wires(), a.coeff@)[k] < MODULUS,
                forall|k: int|
                    0 <= k < n ==> sig_vals(pre.wires(), b.coeff@)[k] < MODULUS,
                i <= n,
                out@.len() == i,
                sigs_ok(out@, cs.values@.len() as nat),
                forall|k: int|
                    0 <= k < i ==> wire_val(cs.wires(), #[trigger] out@[k])
                        == pointwise_mul_spec(
                        sig_vals(pre.wires(), a.coeff@),
                        sig_vals(pre.wires(), b.coeff@),
                    )[k],
            decreases n - i,
        {
            let ghost prev = *cs;
            let ai = a.coeff[i];
            let bi = b.coeff[i];
            proof {
                lemma_extends_wire(pre, *cs, ai as int);
                lemma_extends_wire(pre, *cs, bi as int);
                assert(sig_vals(pre.wires(), a.coeff@)[i as int] == wire_val(pre.wires(), ai));
                assert(sig_vals(pre.wires(), b.coeff@)[i as int] == wire_val(pre.wires(), bi));
            }
            let s = mul_mod(cs, ai, bi);
            out.push(s);
            proof {
                lemma_extends_trans(pre, prev, *cs);
                assert forall|k: int|
                    0 <= k < i + 1 implies wire_val(cs.wires(), #[trigger] out@[k])
                    == pointwise_mul_spec(
                    sig_vals(pre.wires(), a.coeff@),
                    sig_vals(pre.wires(), b.coeff@),
                )[k] by {
                    if k < i {
                        lemma_extends_wire(prev, *cs, out@[k] as int);
                    }
                }
            }
            i = i + 1;
        }
        proof {
            assert(sig_vals(cs.wires(), out@) =~= pointwise_mul_spec(
                sig_vals(pre.wires(), a.coeff@),
                sig_vals(pre.wires(), b.coeff@),
            ));
        }
        NTTPolyVar { coeff: out }
    }

    /// Constrains `c` to be the coefficientwise modular product of
    /// `a` and `b`.
    pub fn enforce_product(cs: &mut CircuitBuilder, a: &NTTPolyVar, b: &NTTPolyVar, c: &NTTPolyVar)
        requires
            old(cs).wf(),
            a.coeff@.len() == b.coeff@.len(),
            a.coeff@.len() == c.coeff@.len(),
            sigs_ok(a.coeff@, old(cs).values@.len() as nat),
            sigs_ok(b.coeff@, old(cs).values@.len() as nat),
            sigs_ok(c.coeff@, old(cs).values@.len() as nat),
            forall|i: int|
                0 <= i < a.coeff@.len() ==> sig_vals(old(cs).wires(), a.coeff@)[i] < MODULUS,
            forall|i: int|
                0 <= i < b.coeff@.len() ==> sig_vals(old(cs).wires(), b.coeff@)[i] < MODULUS,
        ensures
            final(cs).wf(),
            extends(*old(cs), *final(cs)),
            final(cs).publics@ == old(cs).publics@,
            final(cs).ok() <==> (old(cs).ok() && sig_vals(old(cs).wires(), c.coeff@)
                =~= pointwise_mul_spec(
                sig_vals(old(cs).wires(), a.coeff@),
                sig_vals(old(cs).wires(), b.coeff@),
            )),
    {
        let ghost pre = *cs;
        let prod = NTTPolyVar::mul(cs, a, b);
        let ghost mid = *cs;
        let n = prod.coeff.len();
        let mut i: usize = 0;
        while i < n
            invariant
                pre.wf(),
                cs.wf(),
                extends(pre, mid),
                extends(mid, *cs),
                cs.publics@ == pre.publics@,
                n == prod.coeff@.len(),
                n == c.coeff@.len(),
                sigs_ok(prod.coeff@, mid.values@.len() as nat),
                sigs_ok(c.coeff@, pre.values@.len() as nat),
                sig_vals(mid.wires(), prod.coeff@) == pointwise_mul_spec(
                    sig_vals(pre.wires(), a.coeff@),
                    sig_vals(pre.wires(), b.coeff@),
                ),
                mid.ok() <==> pre.ok(),
                i <= n,
                cs.ok() <==> (mid.ok() && forall|k: int|
                    0 <= k < i ==> wire_val(pre.wires(), #[trigger] c.coeff@[k])
                        == pointwise_mul_spec(
                        sig_vals(pre.wires(), a.coeff@),
                        sig_vals(pre.wires(), b.coeff@),
                    )[k]),
            decreases n - i,
        {
            let ghost prev = *cs;
            let pi = prod.coeff[i];
            let ci = c.coeff[i];
            proof {
                lemma_extends_trans(pre, mid, *cs);
                lemma_extends_wire(mid, *cs, pi as int);
                lemma_extends_wire(pre, *cs, ci as int);
            }
            assert_eq_sig(cs, pi, ci);
            proof {
                lemma_extends_trans(mid, prev, *cs);
            }
            i = i + 1;
        }
        proof {
            lemma_extends_trans(pre, mid, *cs);
            if cs.ok() {
                assert(sig_vals(pre.wires(), c.coeff@) =~= pointwise_mul_spec(
                    sig_vals(pre.wires(), a.coeff@),
                    sig_vals(pre.wires(), b.coeff@),
                ));
            }
            if pre.ok() && sig_vals(pre.wires(), c.coeff@) =~= pointwise_mul_spec(
                sig_vals(pre.wires(), a.coeff@),
                sig_vals(pre.wires(), b.coeff@),
            ) {
                assert forall|k: int| 0 <= k < n implies wire_val(
                    pre.wires(),
                    #[trigger] c.coeff@[k],
                ) == pointwise_mul_spec(
                    sig_vals(pre.wires(), a.coeff@),
                    sig_vals(pre.wires(), b.coeff@),
                )[k] by {
                    assert(sig_vals(pre.wires(), c.coeff@)[k] == wire_val(
                        pre.wires(),
                        c.coeff@[k],
                    ));
                }
            }
        }
    }

    /// Constrains `c` to be the coefficientwise modular sum of `a`
    /// and `b`.
    pub fn enforce_sum(cs: &mut CircuitBuilder, a: &NTTPolyVar, b: &NTTPolyVar, c: &NTTPolyVar)
        requires
            old(cs).wf(),
            a.coeff@.len() == b.coeff@.len(),
            a.coeff@.len() == c.coeff@.len(),
            sigs_ok(a.coeff@, old(cs).values@.len() as nat),
            sigs_ok(b.coeff@, old(cs).values@.len() as nat),
            sigs_ok(c.coeff@, old(cs).values@.len() as nat),
            forall|i: int|
                0 <= i < a.coeff@.len() ==> sig_vals(old(cs).wires(), a.coeff@)[i] < MODULUS,
            forall|i: int|
                0 <= i < b.coeff@.len() ==> sig_vals(old(cs).wires(), b.coeff@)[i] < MODULUS,
        ensures
            final(cs).wf(),
            extends(*old(cs), *final(cs)),
            final(cs).publics@ == old(cs).publics@,
            final(cs).ok() <==> (old(cs).ok() && sig_vals(old(cs).wires(), c.coeff@)
                =~= poly_add_spec(
                sig_vals(old(cs).wires(), a.coeff@),
                sig_vals(old(cs).wires(), b.coeff@),
            )),
    {
        let ghost pre = *cs;
        let sum = NTTPolyVar::add(cs, a, b);
        let ghost mid = *cs;
        let n = sum.coeff.len();
        let mut i: usize = 0;
        while i < n
            invariant
                pre.wf(),
                cs.wf(),
                extends(pre, mid),
                extends(mid, *cs),
                cs.publics@ == pre.publics@,
                n == sum.coeff@.len(),
                n == c.coeff@.len(),
                sigs_ok(sum.coeff@, mid.values@.len() as nat),
                sigs_ok(c.coeff@, pre.values@.len() as nat),
                sig_vals(mid.wires(), sum.coeff@) == poly_add_spec(
                    sig_vals(pre.wires(), a.coeff@),
                    sig_vals(pre.wires(), b.coeff@),
                ),
                mid.ok() <==> pre.ok(),
                i <= n,
                cs.ok() <==> (mid.ok() && forall|k: int|
                    0 <= k < i ==> wire_val(pre.wires(), #[trigger] c.coeff@[k])
                        == poly_add_spec(
                        sig_vals(pre.wires(), a.coeff@),
                        sig_vals(pre.wires(), b.coeff@),
                    )[k]),
            decreases n - i,
        {
            let ghost prev = *cs;
            let si = sum.coeff[i];
            let ci = c.coeff[i];
            proof {
                lemma_extends_trans(pre, mid, *cs);
                lemma_extends_wire(mid, *cs, si as int);
                lemma_extends_wire(pre, *cs, ci as int);
            }
            assert_eq_sig(cs, si, ci);
            proof {
                lemma_extends_trans(mid, prev, *cs);
            }
            i = i + 1;
        }
        proof {
            lemma_extends_trans(pre, mid, *cs);
            if cs.ok() {
                assert(sig_vals(pre.wires(), c.coeff@) =~= poly_add_spec(
                    sig_vals(pre.wires(), a.coeff@),
                    sig_vals(pre.wires(), b.coeff@),
                ));
            }
            if pre.ok() && sig_vals(pre.wires(), c.coeff@) =~= poly_add_spec(
                sig_vals(pre.wires(), a.coeff@),
                sig_vals(pre.wires(), b.coeff@),
            ) {
                assert forall|k: int| 0 <= k < n implies wire_val(
                    pre.wires(),
                    #[trigger] c.coeff@[k],
                ) == poly_add_spec(
                    sig_vals(pre.wires(), a.coeff@),
                    sig_vals(pre.wires(), b.coeff@),
                )[k] by {
                    assert(sig_vals(pre.wires(), c.coeff@)[k] == wire_val(
                        pre.wires(),
                        c.coeff@[k],
                    ));
                }
            }
        }
    }

    /// Reduces every coefficient signal mod q into fresh signals.
    pub fn mod_q(cs: &mut CircuitBuilder, a: &NTTPolyVar) -> (r: NTTPolyVar)
        requires
            old(cs).wf(),
            sigs_ok(a.coeff@, old(cs).values@.len() as nat),
        ensures
            final(cs).wf(),
            extends(*old(cs), *final(cs)),
            final(cs).publics@ == old(cs).publics@,
            final(cs).ok() <==> old(cs).ok(),
            r.coeff@.len() == a.coeff@.len(),
            sigs_ok(r.coeff@, final(cs).values@.len() as nat),
            forall|i: int|
                0 <= i < r.coeff@.len() ==> sig_vals(final(cs).wires(), r.coeff@)[i]
                    == mod_q_spec(sig_vals(old(cs).wires(), a.coeff@)[i]),
            forall|i: int|
                0 <= i < r.coeff@.len() ==> sig_vals(final(cs).wires(), r.coeff@)[i] < MODULUS,
    {
        let ghost pre = *cs;
        let n = a.coeff.len();
        let mut out: Vec<usize> = Vec::new();
        let mut i: usize = 0;
        while i < n
            invariant
                pre.wf(),
                cs.wf(),
                extends(pre, *cs),
                cs.publics@ == pre.publics@,
                cs.ok() <==> pre.ok(),
                n == a.coeff@.len(),
                sigs_ok(a.coeff@, pre.values@.len() as nat),
                i <= n,
                out@.len() == i,
                sigs_ok(out@, cs.values@.len() as nat),
                forall|k: int|
                    0 <= k < i ==> wire_val(cs.wires(), #[trigger] out@[k]) == mod_q_spec(
                        wire_val(pre.wires(), a.coeff@[k]),
                    ),
                forall|k: int|
                    0 <= k < i ==> wire_val(cs.wires(), #[trigger] out@[k]) < MODULUS,
            decreases n - i,
        {
            let ghost prev = *cs;
            let ai = a.coeff[i];
            proof {
                lemma_extends_wire(pre, *cs, ai as int);
            }
            let s = mod_q(cs, ai);
            out.push(s);
            proof {
                lemma_extends_trans(pre, prev, *cs);
                assert forall|k: int|
                    0 <= k < i + 1 implies wire_val(cs.wires(), #[trigger] out@[k]) == mod_q_spec(
                    wire_val(pre.wires(), a.coeff@[k]),
                ) && wire_val(cs.wires(), out@[k]) < MODULUS by {
                    if k < i {
                        lemma_extends_wire(prev, *cs, out@[k] as int);
                    }
                }
            }
            i = i + 1;
        }
        NTTPolyVar { coeff: out }
    }
}

/// The raw 16-bit bound of a well-formed element's coefficients.
proof fn lemma_view_bounds(v: Seq<u16>)
    requires
        forall|i: int|
            0 <= i < crate::transforms::view16(v).len() ==> #[trigger] crate::transforms::view16(
                v,
            )[i] < MODULUS,
    ensures
        forall|i: int| 0 <= i < v.len() ==> #[trigger] v[i] < MODULUS,
{
    assert forall|i: int| 0 <= i < v.len() implies #[trigger] v[i] < MODULUS by {
        assert(crate::transforms::view16(v)[i] == v[i] as nat);
    }
}

} // verus!
