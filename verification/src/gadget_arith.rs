//! Modular arithmetic gadgets.
//!
//! Each gadget follows the same scheme: the builder computes quotient
//! and remainder by q in the clear, allocates both as witnesses,
//! asserts the linear relation that ties them to the inputs, and
//! range-proves the remainder below q.  Soundness then rests on the
//! uniqueness of division: any assignment satisfying `x == q*t + r`
//! with `r < q` has `r == x mod q`.

use vstd::prelude::*;
use crate::nums::Wide;
use crate::params::MODULUS;
use crate::cs::{
    cap, extends, gate_holds, holds_all, lemma_extends_trans, lemma_extends_wire,
    lemma_new_gates_split, lemma_term_sum1, lemma_term_sum2, max_terms, new_gates, t1, t2,
    term_sum, wire_val, CircuitBuilder, Gate,
};
use crate::gadget_range::enforce_less_than_q;
use crate::gadget_bits::lemma_cap_small;

verus! {

/// The remainder of a signal's value by q.
pub open spec fn mod_q_spec(x: nat) -> nat {
    x % (MODULUS as nat)
}

/// A fresh signal carrying `a mod q`, with the quotient witnessed and
/// the remainder range-proved below q.  Any satisfying assignment
/// binds the result to the remainder of `a` by q.
pub fn mod_q(cs: &mut CircuitBuilder, a: usize) -> (b: usize)
    requires
        old(cs).wf(),
        a < old(cs).values@.len(),
    ensures
        final(cs).wf(),
        extends(*old(cs), *final(cs)),
        final(cs).publics@ == old(cs).publics@,
        b < final(cs).values@.len(),
        final(cs).wires()[b as int] == mod_q_spec(old(cs).wires()[a as int]),
        final(cs).wires()[b as int] < MODULUS,
        final(cs).ok() <==> old(cs).ok(),
        forall|w: Seq<nat>|
            #[trigger] holds_all(new_gates(*old(cs), *final(cs)), w) ==> (wire_val(w, b)
                == mod_q_spec(wire_val(w, a)) && wire_val(w, b) < MODULUS),
{
    let ghost pre = *cs;
    let ghost va = pre.wires()[a as int];
    let av = cs.value_of(a);
    let (tq, rm) = av.divmod_small(MODULUS as u64);
    proof {
        lemma_cap_small();
        assert(tq.val() <= av.val()) by (nonlinear_arith)
            requires
                tq.val() * 12289 + rm == av.val(),
        ;
    }
    let t = cs.alloc_witness(tq);
    let b = cs.alloc_witness(Wide::from_u64(rm));
    let ghost mid = *cs;
    let pos = t1(1, a);
    let neg = t2(MODULUS as u64, t, 1, b);
    let zero = Wide::zero();
    let zero2 = Wide::zero();
    cs.assert_lin(pos, neg, zero, zero2);
    let ghost mid2 = *cs;
    enforce_less_than_q(cs, b);
    proof {
        lemma_extends_trans(pre, mid, mid2);
        lemma_extends_trans(pre, mid2, *cs);
        lemma_term_sum1(1, a, mid.wires());
        lemma_term_sum2(MODULUS as u64, t, 1, b, mid.wires());
        assert(wire_val(mid.wires(), a) == va);
        assert(wire_val(mid.wires(), t) == tq.val());
        assert(wire_val(mid.wires(), b) == rm);
        vstd::arithmetic::div_mod::lemma_fundamental_div_mod_converse_mod(
            va as int,
            MODULUS as int,
            tq.val() as int,
            rm as int,
        );
        assert(mid2.wires() == mid.wires());
        assert forall|w: Seq<nat>| #[trigger] holds_all(new_gates(pre, *cs), w) implies (wire_val(
            w,
            b,
        ) == mod_q_spec(wire_val(w, a)) && wire_val(w, b) < MODULUS) by {
            lemma_new_gates_split(pre, mid2, *cs, w);
            lemma_new_gates_split(pre, mid, mid2, w);
            assert(gate_holds(new_gates(mid, mid2)[0], w));
            lemma_term_sum1(1, a, w);
            lemma_term_sum2(MODULUS as u64, t, 1, b, w);
            vstd::arithmetic::div_mod::lemma_fundamental_div_mod_converse_mod(
                wire_val(w, a) as int,
                MODULUS as int,
                wire_val(w, t) as int,
                wire_val(w, b) as int,
            );
        }
    }
    b
}

/// A fresh signal carrying `(a + b) mod q`, built like `mod_q` over
/// the sum of the operands.
pub fn add_mod(cs: &mut CircuitBuilder, a: usize, b: usize) -> (c: usize)
    requires
        old(cs).wf(),
        a < old(cs).values@.len(),
        b < old(cs).values@.len(),
        old(cs).wires()[a as int] + old(cs).wires()[b as int] < cap(),
    ensures
        final(cs).wf(),
        extends(*old(cs), *final(cs)),
        final(cs).publics@ == old(cs).publics@,
        c < final(cs).values@.len(),
        final(cs).wires()[c as int] == mod_q_spec(
            (old(cs).wires()[a as int] + old(cs).wires()[b as int]) as nat,
        ),
        final(cs).wires()[c as int] < MODULUS,
        final(cs).ok() <==> old(cs).ok(),
        forall|w: Seq<nat>|
            #[trigger] holds_all(new_gates(*old(cs), *final(cs)), w) ==> (wire_val(w, c)
                == mod_q_spec((wire_val(w, a) + wire_val(w, b)) as nat) && wire_val(w, c)
                < MODULUS),
{
    let ghost pre = *cs;
    let ghost va = pre.wires()[a as int];
    let ghost vb = pre.wires()[b as int];
    let av = cs.value_of(a);
    let bv = cs.value_of(b);
    let sum = av.add_w(&bv);
    let (tq, rm) = sum.divmod_small(MODULUS as u64);
    proof {
        lemma_cap_small();
        assert(tq.val() <= sum.val()) by (nonlinear_arith)
            requires
                tq.val() * 12289 + rm == sum.val(),
        ;
    }
    let t = cs.alloc_witness(tq);
    let c = cs.alloc_witness(Wide::from_u64(rm));
    let ghost mid = *cs;
    let pos = t2(1, a, 1, b);
    let neg = t2(MODULUS as u64, t, 1, c);
    let zero = Wide::zero();
    let zero2 = Wide::zero();
    cs.assert_lin(pos, neg, zero, zero2);
    let ghost mid2 = *cs;
    enforce_less_than_q(cs, c);
    proof {
        lemma_extends_trans(pre, mid, mid2);
        lemma_extends_trans(pre, mid2, *cs);
        lemma_term_sum2(1, a, 1, b, mid.wires());
        lemma_term_sum2(MODULUS as u64, t, 1, c, mid.wires());
        vstd::arithmetic::div_mod::lemma_fundamental_div_mod_converse_mod(
            (va + vb) as int,
            MODULUS as int,
            tq.val() as int,
            rm as int,
        );
        assert(mid2.wires() == mid.wires());
        assert forall|w: Seq<nat>| #[trigger] holds_all(new_gates(pre, *cs), w) implies (wire_val(
            w,
            c,
        ) == mod_q_spec((wire_val(w, a) + wire_val(w, b)) as nat) && wire_val(w, c)
            < MODULUS) by {
            lemma_new_gates_split(pre, mid2, *cs, w);
            lemma_new_gates_split(pre, mid, mid2, w);
            assert(gate_holds(new_gates(mid, mid2)[0], w));
            lemma_term_sum2(1, a, 1, b, w);
            lemma_term_sum2(MODULUS as u64, t, 1, c, w);
            vstd::arithmetic::div_mod::lemma_fundamental_div_mod_converse_mod(
                (wire_val(w, a) + wire_val(w, b)) as int,
                MODULUS as int,
                wire_val(w, t) as int,
                wire_val(w, c) as int,
            );
        }
    }
    c
}

/// A fresh signal carrying `(a - b) mod q`, expressed through
/// `b + c == a (mod q)`: the gadget allocates the difference and
/// constrains `a` to equal `add_mod(b, c)`.  The circuit is satisfied
/// exactly when the recorded `a` is already reduced below q.
#[verifier::rlimit(60)]
pub fn sub_mod(cs: &mut CircuitBuilder, a: usize, b: usize) -> (c: usize)
    requires
        old(cs).wf(),
        a < old(cs).values@.len(),
        b < old(cs).values@.len(),
        old(cs).wires()[a as int] < MODULUS,
        old(cs).wires()[b as int] < 0x1_0000_0000_0000_0000,
    ensures
        final(cs).wf(),
        extends(*old(cs), *final(cs)),
        final(cs).publics@ == old(cs).publics@,
        c < final(cs).values@.len(),
        final(cs).wires()[c as int] == mod_q_spec(
            (old(cs).wires()[a as int] + MODULUS - mod_q_spec(old(cs).wires()[b as int])) as nat,
        ),
        final(cs).wires()[c as int] < MODULUS,
        final(cs).ok() <==> old(cs).ok(),
        forall|w: Seq<nat>|
            #[trigger] holds_all(new_gates(*old(cs), *final(cs)), w) ==> (wire_val(w, a)
                == mod_q_spec((wire_val(w, b) + wire_val(w, c)) as nat) && wire_val(w, a)
                < MODULUS),
{
    let ghost pre = *cs;
    let ghost va = pre.wires()[a as int];
    let ghost vb = pre.wires()[b as int];
    let av = cs.value_of(a);
    let bv = cs.value_of(b);
    let (_, bmod) = bv.divmod_small(MODULUS as u64);
    let a64 = av.to_u64();
    let cval: u64 = (a64 + MODULUS as u64 - bmod) % MODULUS as u64;
    proof {
        lemma_cap_small();
    }
    let c = cs.alloc_witness(Wide::from_u64(cval));
    let ghost mid = *cs;
    let s = add_mod(cs, b, c);
    let ghost mid2 = *cs;
    crate::gadget_bits::assert_eq_sig(cs, s, a);
    proof {
        lemma_extends_trans(pre, mid, mid2);
        lemma_extends_trans(pre, mid2, *cs);
        let q = MODULUS as int;
        // the recorded sum b + c is congruent to a mod q
        assert(wire_val(mid.wires(), b) == vb);
        assert(wire_val(mid.wires(), c) == cval);
        assert(mid2.wires()[s as int] == mod_q_spec((vb + cval) as nat));
        lemma_sub_mod_value(va, vb, cval as nat);
        assert(mid2.wires()[s as int] == va);
        lemma_extends_wire(mid2, *cs, s as int);
        lemma_extends_wire(mid2, *cs, a as int);
        assert forall|w: Seq<nat>| #[trigger] holds_all(new_gates(pre, *cs), w) implies (wire_val(
            w,
            a,
        ) == mod_q_spec((wire_val(w, b) + wire_val(w, c)) as nat) && wire_val(w, a)
            < MODULUS) by {
            lemma_new_gates_split(pre, mid2, *cs, w);
            lemma_new_gates_split(pre, mid, mid2, w);
        }
    }
    c
}

/// The recorded difference `(a + q - b mod q) mod q` adds back to `a`
/// mod q when `a` is below q.
proof fn lemma_sub_mod_value(va: nat, vb: nat, cval: nat)
    requires
        va < MODULUS,
        cval == ((va + MODULUS - vb % (MODULUS as nat)) as nat) % (MODULUS as nat),
    ensures
        (vb + cval) % (MODULUS as nat) == va,
        cval == ((va + MODULUS - vb % (MODULUS as nat)) as nat) % (MODULUS as nat),
{
    let q = MODULUS as nat;
    let bm = vb % q;
    vstd::arithmetic::div_mod::lemma_mod_division_less_than_divisor(vb as int, q as int);
    // vb + cval == vb + (va + q - bm) mod q; reduce both sides mod q
    vstd::arithmetic::div_mod::lemma_add_mod_noop(vb as int, cval as int, q as int);
    vstd::arithmetic::div_mod::lemma_mod_twice((va + q - bm) as int, q as int);
    vstd::arithmetic::div_mod::lemma_add_mod_noop(vb as int, (va + q - bm) as int, q as int);
    // vb + (va + q - bm) == va + q + (vb - bm), and vb - bm is a multiple of q
    vstd::arithmetic::div_mod::lemma_fundamental_div_mod(vb as int, q as int);
    vstd::arithmetic::div_mod::lemma_mod_multiples_vanish(
        (vb as int / q as int) + 1,
        va as int,
        q as int,
    );
    vstd::arithmetic::div_mod::lemma_small_mod(va, q);
    assert((vb + (va + q - bm)) as int == (vb as int / q as int + 1) * q + va) by (nonlinear_arith)
        requires
            vb as int == (vb as int / q as int) * q + bm,
            q > 0,
    ;
    vstd::arithmetic::div_mod::lemma_mod_twice((vb + cval) as int, q as int);
}

/// A fresh signal carrying `a * b mod q`: a product gate feeding the
/// modular reduction.
pub fn mul_mod(cs: &mut CircuitBuilder, a: usize, b: usize) -> (c: usize)
    requires
        old(cs).wf(),
        a < old(cs).values@.len(),
        b < old(cs).values@.len(),
        old(cs).wires()[a as int] < MODULUS,
        old(cs).wires()[b as int] < MODULUS,
    ensures
        final(cs).wf(),
        extends(*old(cs), *final(cs)),
        final(cs).publics@ == old(cs).publics@,
        c < final(cs).values@.len(),
        final(cs).wires()[c as int] == mod_q_spec(
            (old(cs).wires()[a as int] * old(cs).wires()[b as int]) as nat,
        ),
        final(cs).wires()[c as int] < MODULUS,
        final(cs).ok() <==> old(cs).ok(),
        forall|w: Seq<nat>|
            #[trigger] holds_all(new_gates(*old(cs), *final(cs)), w) ==> (wire_val(w, c)
                == mod_q_spec((wire_val(w, a) * wire_val(w, b)) as nat) && wire_val(w, c)
                < MODULUS),
{
    let ghost pre = *cs;
    proof {
        lemma_cap_small();
        vstd::arithmetic::mul::lemma_mul_upper_bound(
            pre.wires()[a as int] as int,
            12288,
            pre.wires()[b as int] as int,
            12288,
        );
    }
    let p = cs.mul_gate(a, b);
    let ghost mid = *cs;
    let c = mod_q(cs, p);
    proof {
        lemma_extends_trans(pre, mid, *cs);
        assert forall|w: Seq<nat>| #[trigger] holds_all(new_gates(pre, *cs), w) implies (wire_val(
            w,
            c,
        ) == mod_q_spec((wire_val(w, a) * wire_val(w, b)) as nat) && wire_val(w, c)
            < MODULUS) by {
            lemma_new_gates_split(pre, mid, *cs, w);
            assert(gate_holds(new_gates(pre, mid)[0], w));
        }
    }
    c
}

/// The inner product of the values of two signal lists under an
/// assignment.
pub open spec fn inner_prod(w: Seq<nat>, aa: Seq<usize>, bb: Seq<usize>, k: int) -> nat
    decreases k,
{
    if k <= 0 {
        0
    } else {
        (inner_prod(w, aa, bb, k - 1) + wire_val(w, aa[k - 1]) * wire_val(w, bb[k - 1])) as nat
    }
}

/// An inner product of values below q stays below `k * q^2`.
proof fn lemma_inner_prod_bound(w: Seq<nat>, aa: Seq<usize>, bb: Seq<usize>, k: int)
    requires
        0 <= k <= aa.len(),
        k <= bb.len(),
        forall|i: int| 0 <= i < k ==> wire_val(w, #[trigger] aa[i]) < MODULUS,
        forall|i: int| 0 <= i < k ==> wire_val(w, #[trigger] bb[i]) < MODULUS,
    ensures
        inner_prod(w, aa, bb, k) <= k * (12289 * 12289),
    decreases k,
{
    if k > 0 {
        lemma_inner_prod_bound(w, aa, bb, k - 1);
        vstd::arithmetic::mul::lemma_mul_upper_bound(
            wire_val(w, aa[k - 1]) as int,
            12288,
            wire_val(w, bb[k - 1]) as int,
            12288,
        );
        assert((k - 1) * (12289 * 12289) + (12289 * 12289) == k * (12289 * 12289))
            by (nonlinear_arith);
    }
}

/// A term list of unit-coefficient product signals sums to the inner
/// product.
proof fn lemma_term_sum_products(
    ts: Seq<(u64, usize)>,
    ps: Seq<usize>,
    aa: Seq<usize>,
    bb: Seq<usize>,
    w: Seq<nat>,
    k: int,
)
    requires
        0 <= k <= ts.len(),
        k <= ps.len(),
        k <= aa.len(),
        k <= bb.len(),
        forall|i: int| 0 <= i < k ==> #[trigger] ts[i] == (1u64, ps[i]),
        forall|i: int|
            0 <= i < k ==> wire_val(w, #[trigger] ps[i]) == wire_val(w, aa[i]) * wire_val(
                w,
                bb[i],
            ),
    ensures
        term_sum(ts.take(k), w) == inner_prod(w, aa, bb, k),
    decreases k,
{
    if k == 0 {
        assert(ts.take(0) =~= Seq::<(u64, usize)>::empty());
    } else {
        lemma_term_sum_products(ts, ps, aa, bb, w, k - 1);
        assert(ts.take(k).drop_last() =~= ts.take(k - 1));
        assert(ts.take(k).last() == ts[k - 1]);
    }
}

/// A fresh signal carrying the inner product of two equally long
/// signal vectors, reduced mod q: one product gate per coordinate,
/// one linear gate tying their sum to `q * t + c`, and a range proof
/// on `c`.
pub fn inner_product_mod(cs: &mut CircuitBuilder, a: &Vec<usize>, b: &Vec<usize>) -> (c: usize)
    requires
        old(cs).wf(),
        a@.len() == b@.len(),
        0 < a@.len() <= 1024,
        forall|i: int| 0 <= i < a@.len() ==> #[trigger] a@[i] < old(cs).values@.len(),
        forall|i: int| 0 <= i < b@.len() ==> #[trigger] b@[i] < old(cs).values@.len(),
        forall|i: int|
            0 <= i < a@.len() ==> old(cs).wires()[#[trigger] a@[i] as int] < MODULUS,
        forall|i: int|
            0 <= i < b@.len() ==> old(cs).wires()[#[trigger] b@[i] as int] < MODULUS,
    ensures
        final(cs).wf(),
        extends(*old(cs), *final(cs)),
        final(cs).publics@ == old(cs).publics@,
        c < final(cs).values@.len(),
        final(cs).wires()[c as int] == mod_q_spec(
            inner_prod(old(cs).wires(), a@, b@, a@.len() as int),
        ),
        final(cs).wires()[c as int] < MODULUS,
        final(cs).ok() <==> old(cs).ok(),
        forall|w: Seq<nat>|
            #[trigger] holds_all(new_gates(*old(cs), *final(cs)), w) ==> (wire_val(w, c)
                == mod_q_spec(inner_prod(w, a@, b@, a@.len() as int)) && wire_val(w, c)
                < MODULUS),
{
    let ghost pre = *cs;
    let n = a.len();
    let mut ps: Vec<usize> = Vec::new();
    let mut ts: Vec<(u64, usize)> = Vec::new();
    let mut acc: u64 = 0;
    let mut i: usize = 0;
    while i < n
        invariant
            pre.wf(),
            cs.wf(),
            extends(pre, *cs),
            cs.publics@ == pre.publics@,
            n == a@.len(),
            n == b@.len(),
            0 < n <= 1024,
            forall|k: int| 0 <= k < n ==> #[trigger] a@[k] < pre.values@.len(),
            forall|k: int| 0 <= k < n ==> #[trigger] b@[k] < pre.values@.len(),
            forall|k: int| 0 <= k < n ==> pre.wires()[#[trigger] a@[k] as int] < MODULUS,
            forall|k: int| 0 <= k < n ==> pre.wires()[#[trigger] b@[k] as int] < MODULUS,
            i <= n,
            ps@.len() == i,
            ts@.len() == i,
            cs.gates@.len() == pre.gates@.len() + i,
            cs.values@.len() == pre.values@.len() + i,
            forall|k: int| 0 <= k < i ==> #[trigger] ps@[k] < cs.values@.len(),
            forall|k: int| 0 <= k < i ==> #[trigger] ts@[k] == (1u64, ps@[k]),
            forall|k: int|
                0 <= k < i ==> cs.wires()[#[trigger] ps@[k] as int] == pre.wires()[a@[k] as int]
                    * pre.wires()[b@[k] as int],
            forall|k: int|
                0 <= k < i ==> cs.gates@[pre.gates@.len() + k] == (Gate::Mul {
                    a: a@[k],
                    b: b@[k],
                    c: #[trigger] ps@[k],
                }),
            acc == inner_prod(pre.wires(), a@, b@, i as int),
            acc <= i * (12289 * 12289),
            cs.ok() <==> pre.ok(),
        decreases n - i,
    {
        let ghost prev = *cs;
        let ai = a[i];
        let bi = b[i];
        proof {
            lemma_extends_wire(pre, *cs, ai as int);
            lemma_extends_wire(pre, *cs, bi as int);
            lemma_cap_small();
            vstd::arithmetic::mul::lemma_mul_upper_bound(
                pre.wires()[ai as int] as int,
                12288,
                pre.wires()[bi as int] as int,
                12288,
            );
            assert(i * (12289 * 12289) <= 1024 * (12289 * 12289)) by (nonlinear_arith)
                requires
                    0 <= i <= 1024,
            ;
        }
        let av64 = cs.value_of(ai).to_u64();
        let bv64 = cs.value_of(bi).to_u64();
        let p = cs.mul_gate(ai, bi);
        acc = acc + av64 * bv64;
        ps.push(p);
        ts.push((1, p));
        i = i + 1;
        proof {
            lemma_extends_trans(pre, prev, *cs);
            assert(inner_prod(pre.wires(), a@, b@, i as int) == inner_prod(
                pre.wires(),
                a@,
                b@,
                i - 1,
            ) + pre.wires()[a@[i - 1] as int] * pre.wires()[b@[i - 1] as int]);
            assert((i - 1) * (12289 * 12289) + 12289 * 12289 == i * (12289 * 12289))
                by (nonlinear_arith);
            assert forall|k: int| 0 <= k < i implies cs.wires()[#[trigger] ps@[k] as int]
                == pre.wires()[a@[k] as int] * pre.wires()[b@[k] as int] by {
                if k < i - 1 {
                    lemma_extends_wire(prev, *cs, ps@[k] as int);
                }
            }
        }
    }
    let ghost mid0 = *cs;
    let sum = Wide::from_u64(acc);
    let (tq, rm) = sum.divmod_small(MODULUS as u64);
    proof {
        lemma_cap_small();
        assert(tq.val() <= sum.val()) by (nonlinear_arith)
            requires
                tq.val() * 12289 + rm == sum.val(),
        ;
    }
    let t = cs.alloc_witness(tq);
    let c = cs.alloc_witness(Wide::from_u64(rm));
    let ghost mid = *cs;
    let neg = t2(MODULUS as u64, t, 1, c);
    let zero = Wide::zero();
    let zero2 = Wide::zero();
    proof {
        assert(ts@.len() <= max_terms());
    }
    cs.assert_lin(ts, neg, zero, zero2);
    let ghost mid2 = *cs;
    enforce_less_than_q(cs, c);
    proof {
        lemma_extends_trans(pre, mid0, mid);
        lemma_extends_trans(pre, mid, mid2);
        lemma_extends_trans(pre, mid2, *cs);
        assert(ts@.take(n as int) =~= ts@);
        assert forall|k: int| 0 <= k < n implies wire_val(mid.wires(), #[trigger] ps@[k])
            == wire_val(mid.wires(), a@[k]) * wire_val(mid.wires(), b@[k]) by {
            lemma_extends_wire(mid0, mid, ps@[k] as int);
            lemma_extends_wire(pre, mid, a@[k] as int);
            lemma_extends_wire(pre, mid, b@[k] as int);
        }
        lemma_inner_prod_same(pre.wires(), mid.wires(), a@, b@, n as int);
        lemma_term_sum_products(ts@, ps@, a@, b@, mid.wires(), n as int);
        lemma_term_sum2(MODULUS as u64, t, 1, c, mid.wires());
        vstd::arithmetic::div_mod::lemma_fundamental_div_mod_converse_mod(
            inner_prod(mid.wires(), a@, b@, n as int) as int,
            MODULUS as int,
            tq.val() as int,
            rm as int,
        );
        assert(mid2.wires() == mid.wires());
        assert(mid2.wires()[c as int] == mod_q_spec(inner_prod(pre.wires(), a@, b@, n as int)));
        lemma_extends_wire(mid2, *cs, c as int);
        assert forall|w: Seq<nat>| #[trigger] holds_all(new_gates(pre, *cs), w) implies (wire_val(
            w,
            c,
        ) == mod_q_spec(inner_prod(w, a@, b@, n as int)) && wire_val(w, c) < MODULUS) by {
            lemma_new_gates_split(pre, mid2, *cs, w);
            lemma_new_gates_split(pre, mid, mid2, w);
            lemma_new_gates_split(pre, mid0, mid, w);
            assert forall|k: int| 0 <= k < n implies wire_val(w, #[trigger] ps@[k]) == wire_val(
                w,
                a@[k],
            ) * wire_val(w, b@[k]) by {
                assert(new_gates(pre, mid0)[k] == mid0.gates@[pre.gates@.len() + k]);
                assert(gate_holds(mid0.gates@[pre.gates@.len() + k], w));
            }
            lemma_term_sum_products(ts@, ps@, a@, b@, w, n as int);
            lemma_term_sum2(MODULUS as u64, t, 1, c, w);
            assert(gate_holds(new_gates(mid, mid2)[0], w));
            vstd::arithmetic::div_mod::lemma_fundamental_div_mod_converse_mod(
                inner_prod(w, a@, b@, n as int) as int,
                MODULUS as int,
                wire_val(w, t) as int,
                wire_val(w, c) as int,
            );
        }
    }
    c
}

/// Inner products only read the named signals, so an extension of the
/// assignment leaves them unchanged.
proof fn lemma_inner_prod_same(w1: Seq<nat>, w2: Seq<nat>, aa: Seq<usize>, bb: Seq<usize>, k: int)
    requires
        0 <= k <= aa.len(),
        k <= bb.len(),
        forall|i: int| 0 <= i < k ==> wire_val(w1, #[trigger] aa[i]) == wire_val(w2, aa[i]),
        forall|i: int| 0 <= i < k ==> wire_val(w1, #[trigger] bb[i]) == wire_val(w2, bb[i]),
    ensures
        inner_prod(w1, aa, bb, k) == inner_prod(w2, aa, bb, k),
    decreases k,
{
    if k > 0 {
        lemma_inner_prod_same(w1, w2, aa, bb, k - 1);
    }
}

} // verus!
