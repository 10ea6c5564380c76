//! The in-circuit number-theoretic transform.
//!
//! The circuit mirrors the cleartext butterfly network but defers
//! every modular reduction to the end: a butterfly combines signals
//! with `u' = u + tw * v` and `v' = u + (B - tw * v)`, where `B` is a
//! stage constant `q * 2^(l+1) * q^(l+1)` large enough that the
//! subtraction never goes below zero.  Signal values therefore grow
//! by a factor of about `2q` per stage and stay below the signal
//! capacity for both supported dimensions, which this module proves
//! rather than assumes.  A single reduction per output signal after
//! the last stage brings the result into the ring.

use vstd::prelude::*;
use vstd::arithmetic::power::pow;
use vstd::arithmetic::power2::pow2;
use crate::nums::Wide;
use crate::params::{fwd_twiddle, ntt_table, ParamSet, MODULUS};
use crate::cs::{
    cap, const_cap, extends, holds_all, gate_holds, lemma_extends_trans, lemma_extends_wire,
    lemma_new_gates_split, lemma_term_sum1, lemma_term_sum2, new_gates, t1, t2, wire_val,
    CircuitBuilder,
};
use crate::poly_var::{sig_vals, sigs_ok, NTTPolyVar, PolyVar};
use crate::transforms::{coeffs_ok, fwd_stage, fwd_stages, lemma_fwd_stage_ok, lemma_pair_index, ntt_spec};

verus! {

/// `q^e`.
pub open spec fn qpow(e: nat) -> nat {
    pow(MODULUS as int, e) as nat
}

/// The bound on signal values entering stage `l`: `2^(l+1) * q^(l+1)`.
pub open spec fn cbound(l: nat) -> nat {
    pow2((l + 1) as nat) * qpow((l + 1) as nat)
}

/// Every coefficient of an assignment sequence reduced mod q.
pub open spec fn mod_q_map(s: Seq<nat>) -> Seq<nat> {
    s.map_values(|x: nat| x % (MODULUS as nat))
}

/// One growth step of the stage bound: `cbound(l + 1)` is `2q` times
/// `cbound(l)`, and `q * cbound(l)` is the stage constant.
proof fn lemma_cbound_step(l: nat)
    ensures
        cbound((l + 1) as nat) == 2 * ((MODULUS as nat) * cbound(l)),
        cbound(l) >= 2,
{
    vstd::arithmetic::power2::lemma_pow2_unfold((l + 2) as nat);
    vstd::arithmetic::power::lemma_pow_adds(MODULUS as int, (l + 1) as nat, 1);
    vstd::arithmetic::power::lemma_pow1(MODULUS as int);
    vstd::arithmetic::power::lemma_pow_positive(MODULUS as int, (l + 1) as nat);
    vstd::arithmetic::power2::lemma_pow2_pos((l + 1) as nat);
    assert(qpow((l + 2) as nat) == qpow((l + 1) as nat) * 12289);
    let p2a = pow2((l + 1) as nat);
    let qa = qpow((l + 1) as nat);
    assert((2 * p2a) * (qa * 12289) == 2 * (12289 * (p2a * qa))) by (nonlinear_arith);
    vstd::arithmetic::power2::lemma_pow2_strictly_increases(0, (l + 1) as nat);
    vstd::arithmetic::power2::lemma2_to64();
    assert(qa >= 1);
    assert(p2a * qa >= 2 * 1) by (nonlinear_arith)
        requires
            p2a >= 2,
            qa >= 1,
    ;
}

/// `q^e` is below `2^(14 e)`.
proof fn lemma_qpow_le(e: nat)
    ensures
        qpow(e) <= pow2(14 * e),
    decreases e,
{
    if e == 0 {
        vstd::arithmetic::power::lemma_pow0(MODULUS as int);
        vstd::arithmetic::power2::lemma2_to64();
    } else {
        lemma_qpow_le((e - 1) as nat);
        vstd::arithmetic::power::lemma_pow_adds(MODULUS as int, (e - 1) as nat, 1);
        vstd::arithmetic::power::lemma_pow1(MODULUS as int);
        vstd::arithmetic::power::lemma_pow_positive(MODULUS as int, (e - 1) as nat);
        assert(qpow(e) == qpow((e - 1) as nat) * 12289);
        vstd::arithmetic::power2::lemma_pow2_adds((14 * e - 14) as nat, 14);
        vstd::arithmetic::power2::lemma2_to64();
        assert(qpow((e - 1) as nat) * 12289 <= pow2((14 * e - 14) as nat) * 16384)
            by (nonlinear_arith)
            requires
                qpow((e - 1) as nat) <= pow2((14 * e - 14) as nat),
        ;
    }
}

/// The stage bounds stay below the signal capacity for every stage of
/// both dimensions.
proof fn lemma_cbound_cap(l: nat)
    requires
        l <= 10,
    ensures
        cbound(l) < cap(),
        (MODULUS as nat) * cbound(l) < const_cap(),
        l <= 9 ==> (MODULUS as nat) * cbound(l) < cap(),
{
    lemma_qpow_le((l + 1) as nat);
    vstd::arithmetic::power2::lemma_pow2_pos((l + 1) as nat);
    vstd::arithmetic::power2::lemma_pow2_pos((14 * (l + 1)) as nat);
    assert(cbound(l) <= pow2((l + 1) as nat) * pow2((14 * (l + 1)) as nat)) by (nonlinear_arith)
        requires
            qpow((l + 1) as nat) <= pow2((14 * (l + 1)) as nat),
            pow2((l + 1) as nat) >= 1,
    ;
    vstd::arithmetic::power2::lemma_pow2_adds((l + 1) as nat, (14 * (l + 1)) as nat);
    assert(cbound(l) <= pow2((15 * (l + 1)) as nat));
    vstd::arithmetic::power2::lemma_pow2_adds(14, (15 * (l + 1)) as nat);
    vstd::arithmetic::power2::lemma2_to64();
    assert((MODULUS as nat) * cbound(l) <= 16384 * pow2((15 * (l + 1)) as nat))
        by (nonlinear_arith)
        requires
            cbound(l) <= pow2((15 * (l + 1)) as nat),
    ;
    assert((MODULUS as nat) * cbound(l) <= pow2((14 + 15 * (l + 1)) as nat));
    vstd::arithmetic::power2::lemma_pow2_strictly_increases((15 * (l + 1)) as nat, 170);
    if 14 + 15 * (l + 1) < 170 {
        vstd::arithmetic::power2::lemma_pow2_strictly_increases((14 + 15 * (l + 1)) as nat, 170);
    }
    vstd::arithmetic::power2::lemma_pow2_strictly_increases((14 + 15 * (l + 1)) as nat, 230);
    lemma_pow2_170_230();
    vstd::arithmetic::power2::lemma_pow2_strictly_increases(170, 230);
}

/// The capacity constants as powers of two.
proof fn lemma_pow2_170_230()
    ensures
        pow2(170) == cap(),
        pow2(230) == const_cap(),
{
    vstd::arithmetic::power2::lemma2_to64();
    vstd::arithmetic::power2::lemma_pow2_adds(64, 64);
    vstd::arithmetic::power2::lemma_pow2_adds(128, 42);
    vstd::arithmetic::power2::lemma_pow2_adds(128, 64);
    vstd::arithmetic::power2::lemma_pow2_adds(192, 38);
    vstd::arithmetic::power2::lemma2_to64_rest();
}

/// One butterfly's low output is congruent mod q to the reduced
/// butterfly of the reduced inputs.
proof fn lemma_bfly_low(u: nat, v: nat, ur: nat, vr: nat, tw: nat)
    requires
        u % (MODULUS as nat) == ur,
        v % (MODULUS as nat) == vr,
        tw < MODULUS,
    ensures
        (u + tw * v) % (MODULUS as nat) == ((ur + (vr * tw) % (MODULUS as nat)) as nat) % (
        MODULUS as nat),
{
    let q = MODULUS as int;
    vstd::arithmetic::div_mod::lemma_add_mod_noop(u as int, (tw * v) as int, q);
    vstd::arithmetic::div_mod::lemma_mul_mod_noop_right(tw as int, v as int, q);
    vstd::arithmetic::mul::lemma_mul_is_commutative(tw as int, vr as int);
    vstd::arithmetic::div_mod::lemma_mod_twice((tw * vr) as int, q);
    vstd::arithmetic::div_mod::lemma_add_mod_noop(ur as int, ((vr * tw) as int % q), q);
    vstd::arithmetic::div_mod::lemma_mod_twice(u as int, q);
    vstd::arithmetic::div_mod::lemma_mod_division_less_than_divisor(u as int, q);
}

/// One butterfly's high output, with the stage constant added to keep
/// it non-negative, is congruent mod q to the reduced form.
proof fn lemma_bfly_high(u: nat, v: nat, ur: nat, vr: nat, tw: nat, bk: nat)
    requires
        u % (MODULUS as nat) == ur,
        v % (MODULUS as nat) == vr,
        tw < MODULUS,
        tw * v <= (MODULUS as nat) * bk,
    ensures
        ((u + (MODULUS as nat) * bk - tw * v) as nat) % (MODULUS as nat) == ((ur + MODULUS - (vr
            * tw) % (MODULUS as nat)) as nat) % (MODULUS as nat),
{
    let q = MODULUS as int;
    let tv = (tw * v) as int;
    let m = (vr * tw) as int % q;
    // left side: drop the multiple of q, then reduce u and tv
    vstd::arithmetic::div_mod::lemma_mod_multiples_vanish(bk as int, u as int - tv, q);
    assert(q * bk + (u - tv) == u + q * bk - tv);
    vstd::arithmetic::div_mod::lemma_sub_mod_noop(u as int, tv, q);
    // tv reduces to m
    vstd::arithmetic::div_mod::lemma_mul_mod_noop_right(tw as int, v as int, q);
    vstd::arithmetic::mul::lemma_mul_is_commutative(tw as int, vr as int);
    vstd::arithmetic::div_mod::lemma_mod_twice((tw * vr) as int, q);
    vstd::arithmetic::div_mod::lemma_mod_twice(u as int, q);
    // right side: drop the added q, then reduce the pieces
    vstd::arithmetic::div_mod::lemma_mod_add_multiples_vanish(ur as int - m, q);
    vstd::arithmetic::div_mod::lemma_sub_mod_noop(ur as int, m, q);
    vstd::arithmetic::div_mod::lemma_mod_twice(m, q);
    vstd::arithmetic::div_mod::lemma_mod_division_less_than_divisor(ur as int, q);
    vstd::arithmetic::div_mod::lemma_mod_division_less_than_divisor(m, q);
}

/// One deferred butterfly stage of the circuit: a fresh signal per
/// position, constrained linearly to the butterfly of the previous
/// layer, with values tracked exactly and congruences to the reduced
/// stage maintained.
#[verifier::rlimit(100)]
fn ntt_stage_gadget(
    cs: &mut CircuitBuilder,
    cur: &Vec<usize>,
    l: usize,
    table: &Vec<u16>,
    n: usize,
    bw: Wide,
    Ghost(sv): Ghost<Seq<nat>>,
) -> (out: Vec<usize>)
    requires
        old(cs).wf(),
        cur@.len() == n,
        sigs_ok(cur@, old(cs).values@.len() as nat),
        table@.len() == n,
        forall|x: int| 0 <= x < table@.len() ==> table@[x] == fwd_twiddle(x as nat),
        forall|x: int| 0 <= x < table@.len() ==> table@[x] < MODULUS,
        l < 10,
        pow2(l as nat) * 2 <= n,
        (n as nat) % pow2((l + 1) as nat) == 0,
        bw.val() == (MODULUS as nat) * cbound(l as nat),
        coeffs_ok(sv, n as nat),
        forall|idx: int|
            0 <= idx < n ==> wire_val(old(cs).wires(), #[trigger] cur@[idx]) < cbound(l as nat),
        forall|idx: int|
            0 <= idx < n ==> wire_val(old(cs).wires(), #[trigger] cur@[idx]) % (MODULUS as nat)
                == sv[idx],
    ensures
        final(cs).wf(),
        extends(*old(cs), *final(cs)),
        final(cs).publics@ == old(cs).publics@,
        final(cs).ok() <==> old(cs).ok(),
        out@.len() == n,
        sigs_ok(out@, final(cs).values@.len() as nat),
        forall|idx: int|
            0 <= idx < n ==> wire_val(final(cs).wires(), #[trigger] out@[idx]) < cbound(
                (l + 1) as nat,
            ),
        forall|idx: int|
            0 <= idx < n ==> wire_val(final(cs).wires(), #[trigger] out@[idx]) % (MODULUS as nat)
                == fwd_stage(sv, l as nat)[idx],
{
    let ghost pre = *cs;
    let m = crate::transforms::pow2_usize(l);
    proof {
        vstd::arithmetic::power2::lemma_pow2_unfold((l + 1) as nat);
    }
    let t = n / m;
    let ht = t / 2;
    proof {
        let p1 = pow2((l + 1) as nat) as int;
        let k = n as int / p1;
        vstd::arithmetic::power2::lemma_pow2_pos((l + 1) as nat);
        vstd::arithmetic::div_mod::lemma_fundamental_div_mod(n as int, p1);
        assert(n == p1 * k);
        assert(n == (k * 2) * pow2(l as nat)) by (nonlinear_arith)
            requires
                n == (2 * pow2(l as nat)) * k,
        ;
        vstd::arithmetic::power2::lemma_pow2_pos(l as nat);
        vstd::arithmetic::div_mod::lemma_div_by_multiple(k * 2, pow2(l as nat) as int);
        assert(t == k * 2);
        assert(ht == k);
        assert(m * t == n) by (nonlinear_arith)
            requires
                n == (k * 2) * pow2(l as nat),
                t == k * 2,
                m == pow2(l as nat),
        ;
        assert(ht * 2 == t);
        lemma_cbound_cap(l as nat);
        lemma_cbound_cap((l + 1) as nat);
        lemma_cbound_step(l as nat);
    }
    let mut out: Vec<usize> = Vec::new();
    let mut idx: usize = 0;
    while idx < n
        invariant
            pre.wf(),
            cs.wf(),
            extends(pre, *cs),
            cs.publics@ == pre.publics@,
            cs.ok() <==> pre.ok(),
            cur@.len() == n,
            sigs_ok(cur@, pre.values@.len() as nat),
            table@.len() == n,
            forall|x: int| 0 <= x < table@.len() ==> table@[x] == fwd_twiddle(x as nat),
            forall|x: int| 0 <= x < table@.len() ==> table@[x] < MODULUS,
            l < 10,
            m == pow2(l as nat),
            m >= 1,
            m * 2 <= n,
            t == n / m,
            t == n as int / pow2(l as nat) as int,
            ht * 2 == t,
            ht == t / 2,
            m * t == n,
            bw.val() == (MODULUS as nat) * cbound(l as nat),
            cbound(l as nat) < cap(),
            cbound((l + 1) as nat) < cap(),
            (MODULUS as nat) * cbound(l as nat) < const_cap(),
            (MODULUS as nat) * cbound(l as nat) < cap(),
            cbound((l + 1) as nat) == 2 * ((MODULUS as nat) * cbound(l as nat)),
            cbound(l as nat) >= 2,
            coeffs_ok(sv, n as nat),
            forall|k: int|
                0 <= k < n ==> wire_val(pre.wires(), #[trigger] cur@[k]) < cbound(l as nat),
            forall|k: int|
                0 <= k < n ==> wire_val(pre.wires(), #[trigger] cur@[k]) % (MODULUS as nat)
                    == sv[k],
            idx <= n,
            out@.len() == idx,
            sigs_ok(out@, cs.values@.len() as nat),
            forall|k: int|
                0 <= k < idx ==> wire_val(cs.wires(), #[trigger] out@[k]) < cbound(
                    (l + 1) as nat,
                ),
            forall|k: int|
                0 <= k < idx ==> wire_val(cs.wires(), #[trigger] out@[k]) % (MODULUS as nat)
                    == fwd_stage(sv, l as nat)[k],
        decreases n - idx,
    {
        let ghost prev = *cs;
        proof {
            vstd::arithmetic::div_mod::lemma_fundamental_div_mod(idx as int, t as int);
            vstd::arithmetic::div_mod::lemma_mod_division_less_than_divisor(idx as int, t as int);
            vstd::arithmetic::mul::lemma_mul_is_commutative(m as int, t as int);
            vstd::arithmetic::div_mod::lemma_multiply_divide_lt(idx as int, t as int, m as int);
        }
        let i = idx / t;
        let r = idx % t;
        let tw = table[m + i];
        let s: usize;
        if r < ht {
            proof {
                lemma_pair_index(idx as int, t as int, ht as int, m as int, n as int, true);
                lemma_extends_wire(pre, *cs, cur@[idx as int] as int);
                lemma_extends_wire(pre, *cs, cur@[idx + ht] as int);
                vstd::arithmetic::mul::lemma_mul_upper_bound(
                    wire_val(pre.wires(), cur@[idx + ht]) as int,
                    cbound(l as nat) as int - 1,
                    tw as int,
                    12288,
                );
                assert((cbound(l as nat) - 1) * 12288 < (MODULUS as nat) * cbound(l as nat))
                    by (nonlinear_arith)
                    requires
                        cbound(l as nat) >= 2,
                ;
            }
            let u = cs.value_of(cur[idx]);
            let v = cs.value_of(cur[idx + ht]);
            let prod = v.mul_small(tw as u64);
            let x = u.add_w(&prod);
            s = cs.alloc_witness(x);
            let pos = t2(1, cur[idx], tw as u64, cur[idx + ht]);
            let neg = t1(1, s);
            let zero = Wide::zero();
            let zero2 = Wide::zero();
            let ghost mid = *cs;
            cs.assert_lin(pos, neg, zero, zero2);
            proof {
                lemma_term_sum2(1, cur@[idx as int], tw as u64, cur@[idx + ht], mid.wires());
                lemma_term_sum1(1, s, mid.wires());
                lemma_extends_trans(prev, mid, *cs);
                lemma_extends_trans(pre, prev, *cs);
                lemma_bfly_low(
                    wire_val(pre.wires(), cur@[idx as int]),
                    wire_val(pre.wires(), cur@[idx + ht]),
                    sv[idx as int],
                    sv[idx + ht],
                    tw as nat,
                );
                vstd::arithmetic::mul::lemma_mul_is_commutative(
                    wire_val(pre.wires(), cur@[idx + ht]) as int,
                    tw as int,
                );
            }
        } else {
            proof {
                lemma_pair_index(idx as int, t as int, ht as int, m as int, n as int, false);
                lemma_extends_wire(pre, *cs, cur@[idx as int] as int);
                lemma_extends_wire(pre, *cs, cur@[idx - ht] as int);
                vstd::arithmetic::mul::lemma_mul_upper_bound(
                    wire_val(pre.wires(), cur@[idx as int]) as int,
                    cbound(l as nat) as int - 1,
                    tw as int,
                    12288,
                );
                assert((cbound(l as nat) - 1) * 12288 < (MODULUS as nat) * cbound(l as nat))
                    by (nonlinear_arith)
                    requires
                        cbound(l as nat) >= 2,
                ;
            }
            let u = cs.value_of(cur[idx - ht]);
            let v = cs.value_of(cur[idx]);
            let prod = v.mul_small(tw as u64);
            let x = u.add_w(&bw.sub_w(&prod));
            s = cs.alloc_witness(x);
            let pos = t1(1, cur[idx - ht]);
            let neg = t2(tw as u64, cur[idx], 1, s);
            let zero = Wide::zero();
            let ghost mid = *cs;
            cs.assert_lin(pos, neg, bw, zero);
            proof {
                lemma_term_sum1(1, cur@[idx - ht], mid.wires());
                lemma_term_sum2(tw as u64, cur@[idx as int], 1, s, mid.wires());
                lemma_extends_trans(prev, mid, *cs);
                lemma_extends_trans(pre, prev, *cs);
                lemma_bfly_high(
                    wire_val(pre.wires(), cur@[idx - ht]),
                    wire_val(pre.wires(), cur@[idx as int]),
                    sv[idx - ht],
                    sv[idx as int],
                    tw as nat,
                    cbound(l as nat),
                );
                vstd::arithmetic::mul::lemma_mul_is_commutative(
                    wire_val(pre.wires(), cur@[idx as int]) as int,
                    tw as int,
                );
            }
        }
        out.push(s);
        proof {
            assert forall|k: int|
                0 <= k < idx + 1 implies wire_val(cs.wires(), #[trigger] out@[k]) < cbound(
                (l + 1) as nat,
            ) && wire_val(cs.wires(), out@[k]) % (MODULUS as nat) == fwd_stage(sv, l as nat)[
            k] by {
                if k < idx {
                    lemma_extends_wire(prev, *cs, out@[k] as int);
                }
            }
        }
        idx = idx + 1;
    }
    out
}

/// The transform circuit without the final reduction: the raw
/// butterfly network, whose output signals are congruent mod q to the
/// transform of the input values' residues and bounded by the final
/// stage bound.
pub fn ntt_circuit_defer_range_check(cs: &mut CircuitBuilder, input: &PolyVar, p: ParamSet) -> (r:
    NTTPolyVar)
    requires
        old(cs).wf(),
        input.coeff@.len() == p.n_spec(),
        sigs_ok(input.coeff@, old(cs).values@.len() as nat),
        forall|i: int|
            0 <= i < input.coeff@.len() ==> wire_val(old(cs).wires(), #[trigger] input.coeff@[i])
                < 2 * MODULUS,
    ensures
        final(cs).wf(),
        extends(*old(cs), *final(cs)),
        final(cs).publics@ == old(cs).publics@,
        final(cs).ok() <==> old(cs).ok(),
        r.coeff@.len() == p.n_spec(),
        sigs_ok(r.coeff@, final(cs).values@.len() as nat),
        forall|i: int|
            0 <= i < r.coeff@.len() ==> wire_val(final(cs).wires(), #[trigger] r.coeff@[i]) % (
            MODULUS as nat) == ntt_spec(
                mod_q_map(sig_vals(old(cs).wires(), input.coeff@)),
                p.log_n_spec(),
            )[i],
        forall|i: int|
            0 <= i < r.coeff@.len() ==> wire_val(final(cs).wires(), #[trigger] r.coeff@[i])
                < cap(),
{
    let ghost pre = *cs;
    let ghost in_mod = mod_q_map(sig_vals(pre.wires(), input.coeff@));
    let n = p.n();
    let logn = p.log_n();
    let table = ntt_table(p);
    let mut cur: Vec<usize> = clone_sigs(&input.coeff);
    let mut bw = Wide::from_u64((2 * MODULUS * MODULUS) as u64);
    let mut l: usize = 0;
    proof {
        lemma_cbound0();
        assert forall|k: int| 0 <= k < n implies wire_val(pre.wires(), #[trigger] cur@[k])
            < cbound(0) && wire_val(pre.wires(), cur@[k]) % (MODULUS as nat) == in_mod[k] by {
            assert(sig_vals(pre.wires(), input.coeff@)[k] == wire_val(
                pre.wires(),
                input.coeff@[k],
            ));
            vstd::arithmetic::div_mod::lemma_mod_division_less_than_divisor(
                wire_val(pre.wires(), cur@[k]) as int,
                MODULUS as int,
            );
        }
        assert(coeffs_ok(in_mod, n as nat)) by {
            assert forall|k: int| 0 <= k < in_mod.len() implies #[trigger] in_mod[k]
                < MODULUS by {
                vstd::arithmetic::div_mod::lemma_mod_division_less_than_divisor(
                    sig_vals(pre.wires(), input.coeff@)[k] as int,
                    MODULUS as int,
                );
            }
        }
    }
    while l < logn
        invariant
            pre.wf(),
            cs.wf(),
            extends(pre, *cs),
            cs.publics@ == pre.publics@,
            cs.ok() <==> pre.ok(),
            n == p.n_spec(),
            logn == p.log_n_spec(),
            table@.len() == n,
            forall|x: int| 0 <= x < table@.len() ==> table@[x] == fwd_twiddle(x as nat),
            forall|x: int| 0 <= x < table@.len() ==> table@[x] < MODULUS,
            l <= logn,
            cur@.len() == n,
            sigs_ok(cur@, cs.values@.len() as nat),
            bw.val() == (MODULUS as nat) * cbound(l as nat),
            coeffs_ok(in_mod, n as nat),
            coeffs_ok(fwd_stages(in_mod, l as nat), n as nat),
            forall|k: int|
                0 <= k < n ==> wire_val(cs.wires(), #[trigger] cur@[k]) < cbound(l as nat),
            forall|k: int|
                0 <= k < n ==> wire_val(cs.wires(), #[trigger] cur@[k]) % (MODULUS as nat)
                    == fwd_stages(in_mod, l as nat)[k],
        decreases logn - l,
    {
        let ghost prev = *cs;
        proof {
            crate::transforms::lemma_dim_pow2(p, l as nat);
            lemma_cbound_step(l as nat);
            lemma_cbound_cap(l as nat);
            lemma_cbound_cap((l + 1) as nat);
        }
        let next = ntt_stage_gadget(
            cs,
            &cur,
            l,
            &table,
            n,
            bw,
            Ghost(fwd_stages(in_mod, l as nat)),
        );
        proof {
            lemma_extends_trans(pre, prev, *cs);
            lemma_fwd_stage_ok(fwd_stages(in_mod, l as nat), l as nat, n as nat);
        }
        cur = next;
        bw = bw.mul_small(2 * MODULUS as u64);
        proof {
            assert(2 * ((MODULUS as nat) * cbound(l as nat)) * 12289 < cap() * 12289)
                by (nonlinear_arith)
                requires
                    2 * ((MODULUS as nat) * cbound(l as nat)) == cbound((l + 1) as nat),
                    cbound((l + 1) as nat) < cap(),
            ;
            assert((MODULUS as nat) * cbound(l as nat) * (2 * 12289) == (MODULUS as nat) * (2 * (
            (MODULUS as nat) * cbound(l as nat)))) by (nonlinear_arith);
        }
        l = l + 1;
    }
    NTTPolyVar { coeff: cur }
}

/// The full transform circuit: the deferred butterfly network
/// followed by one modular reduction per output signal, so the result
/// signals carry exactly the transform of the input values' residues.
pub fn ntt_circuit(cs: &mut CircuitBuilder, input: &PolyVar, p: ParamSet) -> (r: NTTPolyVar)
    requires
        old(cs).wf(),
        input.coeff@.len() == p.n_spec(),
        sigs_ok(input.coeff@, old(cs).values@.len() as nat),
        forall|i: int|
            0 <= i < input.coeff@.len() ==> wire_val(old(cs).wires(), #[trigger] input.coeff@[i])
                < 2 * MODULUS,
    ensures
        final(cs).wf(),
        extends(*old(cs), *final(cs)),
        final(cs).publics@ == old(cs).publics@,
        final(cs).ok() <==> old(cs).ok(),
        r.coeff@.len() == p.n_spec(),
        sigs_ok(r.coeff@, final(cs).values@.len() as nat),
        sig_vals(final(cs).wires(), r.coeff@) == ntt_spec(
            mod_q_map(sig_vals(old(cs).wires(), input.coeff@)),
            p.log_n_spec(),
        ),
        forall|i: int|
            0 <= i < r.coeff@.len() ==> sig_vals(final(cs).wires(), r.coeff@)[i] < MODULUS,
{
    let ghost pre = *cs;
    let ghost spec_out = ntt_spec(mod_q_map(sig_vals(pre.wires(), input.coeff@)), p.log_n_spec());
    let raw = ntt_circuit_defer_range_check(cs, input, p);
    let ghost mid = *cs;
    let reduced = NTTPolyVar::mod_q(cs, &raw);
    proof {
        lemma_extends_trans(pre, mid, *cs);
        lemma_spec_out_ok(mod_q_map(sig_vals(pre.wires(), input.coeff@)), p);
        lemma_stages_len(mod_q_map(sig_vals(pre.wires(), input.coeff@)), p.log_n_spec());
        assert forall|i: int| 0 <= i < reduced.coeff@.len() implies sig_vals(
            cs.wires(),
            reduced.coeff@,
        )[i] == spec_out[i] && sig_vals(cs.wires(), reduced.coeff@)[i] < MODULUS by {
            assert(sig_vals(mid.wires(), raw.coeff@)[i] == wire_val(mid.wires(), raw.coeff@[i]));
        }
        assert(sig_vals(cs.wires(), reduced.coeff@) =~= spec_out);
    }
    reduced
}

/// The transform of reduced coefficients is reduced.
proof fn lemma_spec_out_ok(s: Seq<nat>, p: ParamSet)
    ensures
        forall|i: int|
            0 <= i < ntt_spec(s, p.log_n_spec()).len() ==> #[trigger] ntt_spec(
                s,
                p.log_n_spec(),
            )[i] < MODULUS,
{
    lemma_stages_reduced(s, p.log_n_spec());
    assert(p.log_n_spec() > 0);
}

/// The stages keep the sequence length.
pub proof fn lemma_stages_len(s: Seq<nat>, l: nat)
    ensures
        fwd_stages(s, l).len() == s.len(),
    decreases l,
{
    if l > 0 {
        lemma_stages_len(s, (l - 1) as nat);
    }
}

/// Every stage past the first produces reduced values.
proof fn lemma_stages_reduced(s: Seq<nat>, l: nat)
    ensures
        forall|i: int|
            0 <= i < fwd_stages(s, l).len() ==> #[trigger] fwd_stages(s, l)[i] < MODULUS || l
                == 0,
    decreases l,
{
    if l > 0 {
        lemma_stages_reduced(s, (l - 1) as nat);
        assert forall|i: int| 0 <= i < fwd_stages(s, l).len() implies #[trigger] fwd_stages(
            s,
            l,
        )[i] < MODULUS by {
            vstd::arithmetic::div_mod::lemma_mod_division_less_than_divisor(
                fwd_stages(s, l)[i] as int,
                MODULUS as int,
            );
        }
    }
}

/// The bound before the first stage, `2q`, and the first stage
/// constant, `2q^2`.
proof fn lemma_cbound0()
    ensures
        cbound(0) == 2 * (MODULUS as nat),
        (MODULUS as nat) * cbound(0) == 2 * (MODULUS as nat) * (MODULUS as nat),
{
    vstd::arithmetic::power2::lemma2_to64();
    vstd::arithmetic::power::lemma_pow1(MODULUS as int);
    assert((MODULUS as nat) * (2 * (MODULUS as nat)) == 2 * (MODULUS as nat) * (MODULUS as nat))
        by (nonlinear_arith);
}

/// A plain copy of a signal vector.
fn clone_sigs(v: &Vec<usize>) -> (r: Vec<usize>)
    ensures
        r@ == v@,
{
    let mut out: Vec<usize> = Vec::new();
    let mut i: usize = 0;
    while i < v.len()
        invariant
            i <= v@.len(),
            out@.len() == i,
            forall|k: int| 0 <= k < i ==> out@[k] == v@[k],
        decreases v@.len() - i,
    {
        out.push(v[i]);
        i = i + 1;
    }
    proof {
        assert(out@ =~= v@);
    }
    out
}

} // verus!
