//! Norm gadgets: the squared l2 norm of signal lists, with the
//! centering select the circuits use.

use vstd::prelude::*;
use crate::nums::Wide;
use crate::params::MODULUS;
use crate::cs::{
    extends, lemma_extends_trans, lemma_extends_wire, lemma_term_sum1, lemma_term_sum3,
    max_terms, t1, t3, wire_val, CircuitBuilder,
};
use crate::poly_var::{sig_vals, sigs_ok};
use crate::gadget_range::is_less_than_6144;
use crate::gadget_bits::lemma_cap_small;

verus! {

/// The square of the centered lift the norm circuit applies: values
/// below (q - 1) / 2 count as themselves, the rest as `q - x`.
pub open spec fn select_sq(x: nat) -> nat {
    if x < 6144 {
        x * x
    } else {
        ((MODULUS - x) as nat) * ((MODULUS - x) as nat)
    }
}

/// The sum of centered squares of the first `k` values.
pub open spec fn select_sq_sum(vals: Seq<nat>, k: int) -> nat
    decreases k,
{
    if k <= 0 {
        0
    } else {
        select_sq_sum(vals, k - 1) + select_sq(vals[k - 1])
    }
}

/// The sum of plain squares of the first `k` values.
pub open spec fn sq_sum(vals: Seq<nat>, k: int) -> nat
    decreases k,
{
    if k <= 0 {
        0
    } else {
        sq_sum(vals, k - 1) + vals[k - 1] * vals[k - 1]
    }
}

/// A fresh signal carrying the squared l2 norm of the centered lifts
/// of reduced input signals: each coefficient is selected as itself
/// or `q - x` by the half-modulus test, squared, and accumulated.
#[verifier::rlimit(100)]
pub fn l2_norm_var(cs: &mut CircuitBuilder, inputs: &Vec<usize>) -> (res: usize)
    requires
        old(cs).wf(),
        0 < inputs@.len() <= 2048,
        sigs_ok(inputs@, old(cs).values@.len() as nat),
        forall|i: int|
            0 <= i < inputs@.len() ==> sig_vals(old(cs).wires(), inputs@)[i] < MODULUS,
    ensures
        final(cs).wf(),
        extends(*old(cs), *final(cs)),
        final(cs).publics@ == old(cs).publics@,
        final(cs).ok() <==> old(cs).ok(),
        res < final(cs).values@.len(),
        wire_val(final(cs).wires(), res) == select_sq_sum(
            sig_vals(old(cs).wires(), inputs@),
            inputs@.len() as int,
        ),
{
    let ghost pre = *cs;
    let ghost vals = sig_vals(pre.wires(), inputs@);
    let n = inputs.len();
    let mut ts: Vec<(u64, usize)> = Vec::new();
    let mut acc: u64 = 0;
    let mut i: usize = 0;
    while i < n
        invariant
            pre.wf(),
            cs.wf(),
            extends(pre, *cs),
            cs.publics@ == pre.publics@,
            cs.ok() <==> pre.ok(),
            n == inputs@.len(),
            0 < n <= 2048,
            vals == sig_vals(pre.wires(), inputs@),
            sigs_ok(inputs@, pre.values@.len() as nat),
            forall|k: int| 0 <= k < n ==> vals[k] < MODULUS,
            i <= n,
            ts@.len() == i,
            forall|k: int| 0 <= k < i ==> (#[trigger] ts@[k]).0 == 1,
            forall|k: int| 0 <= k < i ==> (#[trigger] ts@[k]).1 < cs.values@.len(),
            forall|k: int|
                0 <= k < i ==> wire_val(cs.wires(), (#[trigger] ts@[k]).1) == select_sq(vals[k]),
            acc == select_sq_sum(vals, i as int),
            acc <= i * (6145 * 6145),
        decreases n - i,
    {
        let ghost prev = *cs;
        let e = inputs[i];
        proof {
            lemma_extends_wire(pre, *cs, e as int);
            assert(sig_vals(pre.wires(), inputs@)[i as int] == wire_val(pre.wires(), e));
        }
        let b = is_less_than_6144(cs, e);
        let ghost s1 = *cs;
        // sel + e + q * b == 2 * d + q, so sel is e or q - e by the test
        proof {
            lemma_extends_wire(prev, s1, e as int);
            vstd::arithmetic::power2::lemma2_to64();
            lemma_cap_small();
            vstd::arithmetic::mul::lemma_mul_basics(wire_val(prev.wires(), e) as int);
        }
        let d = cs.mul_gate(b, e);
        let ghost s2 = *cs;
        let ev = cs.value_of(e);
        let sel_v: u64 = if ev.to_u64() < 6144 {
            ev.to_u64()
        } else {
            MODULUS as u64 - ev.to_u64()
        };
        let sel = cs.alloc_witness(Wide::from_u64(sel_v));
        let ghost s3 = *cs;
        let pos_t = t3(1, sel, 1, e, MODULUS as u64, b);
        let neg_t = t1(2, d);
        let zero = Wide::zero();
        let qc = Wide::from_u64(MODULUS as u64);
        cs.assert_lin(pos_t, neg_t, zero, qc);
        let ghost s4 = *cs;
        proof {
            lemma_term_sum3(1, sel, 1, e, MODULUS as u64, b, s3.wires());
            lemma_term_sum1(2, d, s3.wires());
            lemma_extends_trans(prev, s1, s2);
            lemma_extends_trans(s1, s2, s3);
            lemma_extends_trans(prev, s2, s3);
            lemma_extends_wire(s1, s3, b as int);
            lemma_extends_wire(s2, s3, d as int);
            lemma_extends_wire(prev, s3, e as int);
        }
        proof {
            lemma_extends_trans(prev, s3, s4);
            assert(wire_val(s4.wires(), sel) == sel_v);
            vstd::arithmetic::mul::lemma_mul_upper_bound(sel_v as int, 12289, sel_v as int, 12289);
        }
        let sq = cs.mul_gate(sel, sel);
        proof {
            lemma_extends_trans(prev, s4, *cs);
            lemma_extends_trans(pre, prev, *cs);
            assert(wire_val(cs.wires(), sq) == select_sq(vals[i as int])) by {
                assert(sel_v as nat * sel_v as nat == select_sq(vals[i as int]));
            }
            assert(select_sq(vals[i as int]) <= 6145 * 6145) by (nonlinear_arith)
                requires
                    select_sq(vals[i as int]) == if vals[i as int] < 6144 {
                        vals[i as int] * vals[i as int]
                    } else {
                        ((MODULUS - vals[i as int]) as nat) * ((MODULUS - vals[i as int]) as nat)
                    },
                    vals[i as int] < 12289,
            ;
            assert(i * (6145 * 6145) + (6145 * 6145) == (i + 1) * (6145 * 6145))
                by (nonlinear_arith);
            assert(sel_v * sel_v <= 6145 * 6145) by (nonlinear_arith)
                requires
                    sel_v <= 6145,
            ;
        }
        acc = acc + sel_v * sel_v;
        ts.push((1, sq));
        proof {
            assert forall|k: int|
                0 <= k < i + 1 implies wire_val(cs.wires(), (#[trigger] ts@[k]).1) == select_sq(
                vals[k],
            ) by {
                if k < i {
                    lemma_extends_wire(prev, *cs, ts@[k].1 as int);
                }
            }
        }
        i = i + 1;
    }
    proof {
        lemma_cap_small();
        assert(acc <= 2048 * (6145 * 6145)) by (nonlinear_arith)
            requires
                acc <= n * (6145 * 6145),
                n <= 2048,
        ;
    }
    let ghost lend = *cs;
    let res = cs.alloc_witness(Wide::from_u64(acc));
    let ghost mid = *cs;
    let neg_t = t1(1, res);
    let zero = Wide::zero();
    let zero2 = Wide::zero();
    proof {
        assert(ts@.len() <= max_terms());
    }
    cs.assert_lin(ts, neg_t, zero, zero2);
    proof {
        lemma_extends_trans(pre, mid, *cs);
        lemma_term_sum1(1, res, mid.wires());
        lemma_unit_term_sum(ts@, mid.wires(), n as int);
        assert forall|k: int| 0 <= k < n implies wire_val(mid.wires(), (#[trigger] ts@[k]).1)
            == select_sq(vals[k]) by {
            lemma_extends_wire(lend, mid, ts@[k].1 as int);
        }
        lemma_sq_sum_eq(ts@, mid.wires(), vals, n as int);
        assert(ts@.take(n as int) =~= ts@);
        assert(crate::cs::term_sum(ts@, mid.wires()) == acc);
        assert(wire_val(mid.wires(), res) == acc);
    }
    res
}

/// A unit-coefficient term list sums the named signals' values.
proof fn lemma_unit_term_sum(ts: Seq<(u64, usize)>, w: Seq<nat>, k: int)
    requires
        0 <= k <= ts.len(),
        forall|i: int| 0 <= i < k ==> (#[trigger] ts[i]).0 == 1,
    ensures
        crate::cs::term_sum(ts.take(k), w) == unit_sum(ts, w, k),
    decreases k,
{
    if k == 0 {
        assert(ts.take(0) =~= Seq::<(u64, usize)>::empty());
    } else {
        lemma_unit_term_sum(ts, w, k - 1);
        assert(ts.take(k).drop_last() =~= ts.take(k - 1));
        assert(ts.take(k).last() == ts[k - 1]);
    }
}

/// The sum of the values of the signals a term list names.
pub open spec fn unit_sum(ts: Seq<(u64, usize)>, w: Seq<nat>, k: int) -> nat
    decreases k,
{
    if k <= 0 {
        0
    } else {
        unit_sum(ts, w, k - 1) + wire_val(w, ts[k - 1].1)
    }
}

/// Term signals carrying centered squares sum to the centered-square
/// norm.
proof fn lemma_sq_sum_eq(ts: Seq<(u64, usize)>, w: Seq<nat>, vals: Seq<nat>, k: int)
    requires
        0 <= k <= ts.len(),
        k <= vals.len(),
        forall|i: int|
            0 <= i < k ==> wire_val(w, (#[trigger] ts[i]).1) == select_sq(vals[i]),
    ensures
        unit_sum(ts, w, k) == select_sq_sum(vals, k),
    decreases k,
{
    if k > 0 {
        lemma_sq_sum_eq(ts, w, vals, k - 1);
    }
}

/// The centered-square norm of reduced values is bounded by the
/// count times the largest centered square.
pub proof fn lemma_select_sq_sum_bound(vals: Seq<nat>, k: int)
    requires
        0 <= k <= vals.len(),
        forall|i: int| 0 <= i < vals.len() ==> #[trigger] vals[i] < MODULUS,
    ensures
        select_sq_sum(vals, k) <= k * (6145 * 6145),
    decreases k,
{
    if k > 0 {
        lemma_select_sq_sum_bound(vals, k - 1);
        assert(select_sq(vals[k - 1]) <= 6145 * 6145) by (nonlinear_arith)
            requires
                vals[k - 1] < 12289,
                select_sq(vals[k - 1]) == if vals[k - 1] < 6144 {
                    vals[k - 1] * vals[k - 1]
                } else {
                    ((MODULUS - vals[k - 1]) as nat) * ((MODULUS - vals[k - 1]) as nat)
                },
        ;
        assert((k - 1) * (6145 * 6145) + 6145 * 6145 == k * (6145 * 6145)) by (nonlinear_arith);
    }
}

/// A fresh signal carrying the plain sum of squares of the input
/// signals, used where every coefficient is separately bounded.
pub fn l2_norm_var_without_range_check(cs: &mut CircuitBuilder, inputs: &Vec<usize>) -> (res:
    usize)
    requires
        old(cs).wf(),
        0 < inputs@.len() <= 4096,
        sigs_ok(inputs@, old(cs).values@.len() as nat),
        forall|i: int|
            0 <= i < inputs@.len() ==> sig_vals(old(cs).wires(), inputs@)[i] < MODULUS,
    ensures
        final(cs).wf(),
        extends(*old(cs), *final(cs)),
        final(cs).publics@ == old(cs).publics@,
        final(cs).ok() <==> old(cs).ok(),
        res < final(cs).values@.len(),
        wire_val(final(cs).wires(), res) == sq_sum(
            sig_vals(old(cs).wires(), inputs@),
            inputs@.len() as int,
        ),
{
    let ghost pre = *cs;
    let ghost vals = sig_vals(pre.wires(), inputs@);
    let n = inputs.len();
    let mut ts: Vec<(u64, usize)> = Vec::new();
    let mut acc: u64 = 0;
    let mut i: usize = 0;
    while i < n
        invariant
            pre.wf(),
            cs.wf(),
            extends(pre, *cs),
            cs.publics@ == pre.publics@,
            cs.ok() <==> pre.ok(),
            n == inputs@.len(),
            0 < n <= 4096,
            vals == sig_vals(pre.wires(), inputs@),
            sigs_ok(inputs@, pre.values@.len() as nat),
            forall|k: int| 0 <= k < n ==> vals[k] < MODULUS,
            i <= n,
            ts@.len() == i,
            forall|k: int| 0 <= k < i ==> (#[trigger] ts@[k]).0 == 1,
            forall|k: int| 0 <= k < i ==> (#[trigger] ts@[k]).1 < cs.values@.len(),
            forall|k: int|
                0 <= k < i ==> wire_val(cs.wires(), (#[trigger] ts@[k]).1) == vals[k] * vals[k],
            acc == sq_sum(vals, i as int),
            acc <= i * (12288 * 12288),
        decreases n - i,
    {
        let ghost prev = *cs;
        let e = inputs[i];
        proof {
            lemma_extends_wire(pre, *cs, e as int);
            assert(sig_vals(pre.wires(), inputs@)[i as int] == wire_val(pre.wires(), e));
            lemma_cap_small();
            vstd::arithmetic::mul::lemma_mul_upper_bound(
                vals[i as int] as int,
                12288,
                vals[i as int] as int,
                12288,
            );
            assert(i * (12288 * 12288) + (12288 * 12288) == (i + 1) * (12288 * 12288))
                by (nonlinear_arith);
        }
        let ev = cs.value_of(e).to_u64();
        let sq = cs.mul_gate(e, e);
        acc = acc + ev * ev;
        ts.push((1, sq));
        proof {
            lemma_extends_trans(pre, prev, *cs);
            assert forall|k: int|
                0 <= k < i + 1 implies wire_val(cs.wires(), (#[trigger] ts@[k]).1) == vals[k]
                * vals[k] by {
                if k < i {
                    lemma_extends_wire(prev, *cs, ts@[k].1 as int);
                }
            }
        }
        i = i + 1;
    }
    proof {
        lemma_cap_small();
        assert(acc <= 4096 * (12288 * 12288)) by (nonlinear_arith)
            requires
                acc <= n * (12288 * 12288),
                n <= 4096,
        ;
    }
    let ghost lend = *cs;
    let res = cs.alloc_witness(Wide::from_u64(acc));
    let ghost mid = *cs;
    let neg_t = t1(1, res);
    let zero = Wide::zero();
    let zero2 = Wide::zero();
    proof {
        assert(ts@.len() <= max_terms());
    }
    cs.assert_lin(ts, neg_t, zero, zero2);
    proof {
        lemma_extends_trans(pre, mid, *cs);
        lemma_term_sum1(1, res, mid.wires());
        lemma_unit_term_sum(ts@, mid.wires(), n as int);
        assert forall|k: int| 0 <= k < n implies wire_val(mid.wires(), (#[trigger] ts@[k]).1)
            == vals[k] * vals[k] by {
            lemma_extends_wire(lend, mid, ts@[k].1 as int);
        }
        lemma_plain_sq_sum_eq(ts@, mid.wires(), vals, n as int);
        assert(ts@.take(n as int) =~= ts@);
        assert(crate::cs::term_sum(ts@, mid.wires()) == acc);
        assert(wire_val(mid.wires(), res) == acc);
    }
    res
}

/// Term signals carrying plain squares sum to the plain square norm.
proof fn lemma_plain_sq_sum_eq(ts: Seq<(u64, usize)>, w: Seq<nat>, vals: Seq<nat>, k: int)
    requires
        0 <= k <= ts.len(),
        k <= vals.len(),
        forall|i: int|
            0 <= i < k ==> wire_val(w, (#[trigger] ts[i]).1) == vals[i] * vals[i],
    ensures
        unit_sum(ts, w, k) == sq_sum(vals, k),
    decreases k,
{
    if k > 0 {
        lemma_plain_sq_sum_eq(ts, w, vals, k - 1);
    }
}

} // verus!
