//! Range proofs.
//!
//! The comparison against a constant is synthesized mechanically from
//! the constant's binary digits: walking the bits from least to most
//! significant, a set bit of the bound contributes an OR branch and a
//! clear bit an AND constraint, which reproduces, for each concrete
//! bound, the disjunction a hand-specialized comparator would use.
//! One verified construction therefore serves the modulus bound, the
//! half-modulus test, and both norm bounds.  The small bound 765 uses
//! the cheaper three-limb decomposition over the backend's native
//! 8-bit range gate.

use vstd::prelude::*;
use vstd::arithmetic::power2::pow2;
use crate::nums::Wide;
use crate::params::ParamSet;
use crate::cs::{
    extends, gate_holds, holds_all, lemma_extends_trans, lemma_extends_wire,
    lemma_new_gates_split, lemma_term_sum1, lemma_term_sum3, new_gates, t1, t3, term_sum,
    wire_val, CircuitBuilder,
};
use crate::gadget_bits::{
    assert_const_sig, bit_of, bits_value, bool_and, bool_not, bool_or, enforce_decompose,
    lemma_bits_value_bound, lemma_cap_small,
};

verus! {

/// The low `i+1` bits of `x` split into the low `i` bits and bit `i`.
proof fn lemma_mod_split(x: nat, i: nat)
    ensures
        x % pow2(i + 1) == x % pow2(i) + pow2(i) * bit_of(x, i),
{
    vstd::arithmetic::power2::lemma_pow2_pos(i);
    vstd::arithmetic::div_mod::lemma_mod_breakdown(x as int, pow2(i) as int, 2);
    vstd::arithmetic::power2::lemma_pow2_adds(i, 1);
    assert(pow2(1) == 2) by {
        vstd::arithmetic::power2::lemma2_to64();
    }
}

/// One step of the bit-walk: comparing `i + 1`-bit prefixes reduces
/// to the top bits and the `i`-bit comparison below them.
proof fn lemma_cmp_step(x_i: nat, b: nat, lb_i: nat, beta: nat, p: nat)
    requires
        x_i < p,
        lb_i < p,
        b <= 1,
        beta <= 1,
        p > 0,
    ensures
        beta == 1 ==> ((x_i + p * b < lb_i + p * beta) <==> (b == 0 || x_i < lb_i)),
        beta == 0 ==> ((x_i + p * b < lb_i + p * beta) <==> (b == 0 && x_i < lb_i)),
{
}

/// A fresh 0/1 signal that is 1 exactly when `a` is below `bound`,
/// synthesized from the bound's binary digits.  The gadget also
/// forces `a` below `2^nbits` through its bit decomposition.
#[verifier::rlimit(60)]
pub fn is_less_than_const(cs: &mut CircuitBuilder, a: usize, bound: u64, nbits: usize) -> (r:
    usize)
    requires
        old(cs).wf(),
        a < old(cs).values@.len(),
        0 < nbits < 64,
        0 < bound < pow2(nbits as nat),
        old(cs).wires()[a as int] < 0x1_0000_0000_0000_0000,
    ensures
        final(cs).wf(),
        extends(*old(cs), *final(cs)),
        final(cs).publics@ == old(cs).publics@,
        r < final(cs).values@.len(),
        final(cs).wires()[r as int] <= 1,
        old(cs).wires()[a as int] < pow2(nbits as nat) ==> final(cs).wires()[r as int] == (
        if old(cs).wires()[a as int] < bound {
            1nat
        } else {
            0nat
        }),
        final(cs).ok() <==> (old(cs).ok() && old(cs).wires()[a as int] < pow2(nbits as nat)),
        forall|w: Seq<nat>|
            #[trigger] holds_all(new_gates(*old(cs), *final(cs)), w) ==> (wire_val(w, a) < pow2(
                nbits as nat,
            ) && wire_val(w, r) <= 1 && (wire_val(w, r) == 1 <==> wire_val(w, a) < bound)),
{
    let ghost pre = *cs;
    let ghost v = pre.wires()[a as int];
    let bits = enforce_decompose(cs, a, nbits);
    let ghost dend = *cs;
    let mut t: usize = 0;
    let mut have: bool = false;
    let mut i: usize = 0;
    proof {
        vstd::arithmetic::power2::lemma2_to64();
    }
    while i < nbits
        invariant
            pre.wf(),
            cs.wf(),
            extends(pre, dend),
            extends(dend, *cs),
            extends(pre, *cs),
            cs.publics@ == pre.publics@,
            a < pre.values@.len(),
            0 < nbits < 64,
            0 < bound < pow2(nbits as nat),
            v == pre.wires()[a as int],
            v < 0x1_0000_0000_0000_0000,
            i <= nbits,
            bits@.len() == nbits,
            forall|k: int| 0 <= k < nbits ==> #[trigger] bits@[k] < dend.values@.len(),
            forall|k: int|
                0 <= k < nbits ==> dend.wires()[#[trigger] bits@[k] as int] == bit_of(
                    v,
                    k as nat,
                ),
            cs.ok() <==> dend.ok(),
            dend.ok() <==> (pre.ok() && v < pow2(nbits as nat)),
            !have ==> (bound as nat) % pow2(i as nat) == 0,
            have ==> t < cs.values@.len(),
            have ==> cs.wires()[t as int] <= 1,
            have ==> cs.wires()[t as int] == (if v % pow2(i as nat) < (bound as nat) % pow2(
                i as nat,
            ) {
                1nat
            } else {
                0nat
            }),
            forall|w: Seq<nat>|
                #[trigger] holds_all(new_gates(pre, *cs), w) ==> ((forall|k: int|
                    0 <= k < nbits ==> wire_val(w, #[trigger] bits@[k]) <= 1) && wire_val(w, a)
                    == bits_value(bits@, w, nbits as int) && wire_val(w, a) < pow2(nbits as nat)
                    && (have ==> (wire_val(w, t) <= 1 && (wire_val(w, t) == 1 <==> bits_value(
                    bits@,
                    w,
                    i as int,
                ) < (bound as nat) % pow2(i as nat))))),
        decreases nbits - i,
    {
        let ghost prev = *cs;
        let ghost told: usize = t;
        let ghost hold: bool = have;
        let beta: u64 = (bound >> (i as u64)) & 1;
        proof {
            vstd::bits::lemma_u64_shr_is_div(bound, i as u64);
            vstd::bits::lemma_u64_low_bits_mask_is_mod(bound >> (i as u64), 1);
            vstd::bits::lemma_low_bits_mask_values();
            assert(pow2(1) == 2) by {
                vstd::arithmetic::power2::lemma2_to64();
            }
            assert(beta == bit_of(bound as nat, i as nat));
            lemma_extends_wire(dend, *cs, bits@[i as int] as int);
            assert(cs.wires()[bits@[i as int] as int] == bit_of(v, i as nat));
        }
        let bi = bits[i];
        let nb = bool_not(cs, bi);
        let ghost s1 = *cs;
        if beta == 1 {
            if have {
                proof {
                    lemma_extends_wire(prev, s1, t as int);
                }
                t = bool_or(cs, nb, t);
            } else {
                t = nb;
            }
            have = true;
        } else {
            if have {
                proof {
                    lemma_extends_wire(prev, s1, t as int);
                }
                t = bool_and(cs, nb, t);
            }
        }
        proof {
            lemma_extends_trans(prev, s1, *cs);
            lemma_extends_trans(pre, prev, *cs);
            lemma_extends_trans(dend, prev, *cs);
            let p = pow2(i as nat);
            let lb_i = (bound as nat) % p;
            let lb_i1 = (bound as nat) % pow2((i + 1) as nat);
            let v_i = v % p;
            let v_i1 = v % pow2((i + 1) as nat);
            let b = bit_of(v, i as nat);
            lemma_mod_split(bound as nat, i as nat);
            lemma_mod_split(v, i as nat);
            vstd::arithmetic::power2::lemma_pow2_pos(i as nat);
            vstd::arithmetic::div_mod::lemma_mod_division_less_than_divisor(v as int, p as int);
            vstd::arithmetic::div_mod::lemma_mod_division_less_than_divisor(
                bound as int,
                p as int,
            );
            assert(b <= 1);
            lemma_cmp_step(v_i, b, lb_i, beta as nat, p);
            vstd::arithmetic::mul::lemma_mul_basics(p as int);
            assert(v_i1 == v_i + p * b);
            assert(lb_i1 == lb_i + p * beta);
            if b == 0 {
                assert(p * b == 0);
            } else {
                assert(p * b == p);
            }
            if beta == 0 {
                assert(p * (beta as nat) == 0);
            } else {
                assert(p * (beta as nat) == p);
            }
            if hold {
                lemma_extends_wire(prev, *cs, told as int);
            }
            // the recorded value of the new chain head
            assert(have ==> cs.wires()[t as int] == (if v_i1 < lb_i1 {
                1nat
            } else {
                0nat
            }));
            // soundness of the new chain head for any assignment
            assert forall|w: Seq<nat>| #[trigger] holds_all(new_gates(pre, *cs), w) implies ((
            forall|k: int| 0 <= k < nbits ==> wire_val(w, #[trigger] bits@[k]) <= 1) && wire_val(
                w,
                a,
            ) == bits_value(bits@, w, nbits as int) && wire_val(w, a) < pow2(nbits as nat) && (
            have ==> (wire_val(w, t) <= 1 && (wire_val(w, t) == 1 <==> bits_value(
                bits@,
                w,
                (i + 1) as int,
            ) < lb_i1)))) by {
                lemma_new_gates_split(pre, prev, *cs, w);
                lemma_new_gates_split(prev, s1, *cs, w);
                lemma_bits_value_bound(bits@, w, i as int);
                assert(bits_value(bits@, w, (i + 1) as int) == bits_value(bits@, w, i as int)
                    + pow2(i as nat) * wire_val(w, bits@[i as int]));
                lemma_cmp_step(
                    bits_value(bits@, w, i as int),
                    wire_val(w, bits@[i as int]),
                    lb_i,
                    beta as nat,
                    p,
                );
            }
        }
        i = i + 1;
    }
    proof {
        if !have {
            vstd::arithmetic::div_mod::lemma_small_mod(bound as nat, pow2(nbits as nat));
            assert(false);
        }
        if v < pow2(nbits as nat) {
            vstd::arithmetic::div_mod::lemma_small_mod(v, pow2(nbits as nat));
        }
        vstd::arithmetic::div_mod::lemma_small_mod(bound as nat, pow2(nbits as nat));
    }
    t
}

/// Forces a signal below a constant bound.
pub fn enforce_less_than_const(cs: &mut CircuitBuilder, a: usize, bound: u64, nbits: usize)
    requires
        old(cs).wf(),
        a < old(cs).values@.len(),
        0 < nbits < 64,
        0 < bound < pow2(nbits as nat),
        old(cs).wires()[a as int] < 0x1_0000_0000_0000_0000,
    ensures
        final(cs).wf(),
        extends(*old(cs), *final(cs)),
        final(cs).publics@ == old(cs).publics@,
        final(cs).ok() <==> (old(cs).ok() && old(cs).wires()[a as int] < bound),
        forall|w: Seq<nat>|
            #[trigger] holds_all(new_gates(*old(cs), *final(cs)), w) ==> wire_val(w, a) < bound,
{
    let ghost pre = *cs;
    let r = is_less_than_const(cs, a, bound, nbits);
    let ghost mid = *cs;
    assert_const_sig(cs, r, 1);
    proof {
        lemma_extends_trans(pre, mid, *cs);
        assert forall|w: Seq<nat>| #[trigger] holds_all(new_gates(pre, *cs), w) implies wire_val(
            w,
            a,
        ) < bound by {
            lemma_new_gates_split(pre, mid, *cs, w);
        }
    }
}

/// Forces a signal below the ring modulus q = 12289, through a 14-bit
/// decomposition and the synthesized comparison.
pub fn enforce_less_than_q(cs: &mut CircuitBuilder, a: usize) -> (r: ())
    requires
        old(cs).wf(),
        a < old(cs).values@.len(),
        old(cs).wires()[a as int] < 0x1_0000_0000_0000_0000,
    ensures
        final(cs).wf(),
        extends(*old(cs), *final(cs)),
        final(cs).publics@ == old(cs).publics@,
        final(cs).ok() <==> (old(cs).ok() && old(cs).wires()[a as int] < 12289),
        forall|w: Seq<nat>|
            #[trigger] holds_all(new_gates(*old(cs), *final(cs)), w) ==> wire_val(w, a) < 12289,
{
    proof {
        vstd::arithmetic::power2::lemma2_to64();
    }
    enforce_less_than_const(cs, a, 12289, 14)
}

/// A fresh 0/1 signal that is 1 exactly when `a` is below
/// (q - 1) / 2 = 6144.
pub fn is_less_than_6144(cs: &mut CircuitBuilder, a: usize) -> (r: usize)
    requires
        old(cs).wf(),
        a < old(cs).values@.len(),
        old(cs).wires()[a as int] < 0x1_0000_0000_0000_0000,
    ensures
        final(cs).wf(),
        extends(*old(cs), *final(cs)),
        final(cs).publics@ == old(cs).publics@,
        r < final(cs).values@.len(),
        final(cs).wires()[r as int] <= 1,
        old(cs).wires()[a as int] < pow2(14) ==> final(cs).wires()[r as int] == (if old(
            cs,
        ).wires()[a as int] < 6144 {
            1nat
        } else {
            0nat
        }),
        final(cs).ok() <==> (old(cs).ok() && old(cs).wires()[a as int] < pow2(14)),
        forall|w: Seq<nat>|
            #[trigger] holds_all(new_gates(*old(cs), *final(cs)), w) ==> (wire_val(w, a) < pow2(
                14,
            ) && wire_val(w, r) <= 1 && (wire_val(w, r) == 1 <==> wire_val(w, a) < 6144)),
{
    proof {
        vstd::arithmetic::power2::lemma2_to64();
    }
    is_less_than_const(cs, a, 6144, 14)
}

/// Forces a signal below 1024 by a plain 10-bit decomposition.
pub fn enforce_less_than_1024(cs: &mut CircuitBuilder, a: usize)
    requires
        old(cs).wf(),
        a < old(cs).values@.len(),
        old(cs).wires()[a as int] < 0x1_0000_0000_0000_0000,
    ensures
        final(cs).wf(),
        extends(*old(cs), *final(cs)),
        final(cs).publics@ == old(cs).publics@,
        final(cs).ok() <==> (old(cs).ok() && old(cs).wires()[a as int] < 1024),
        forall|w: Seq<nat>|
            #[trigger] holds_all(new_gates(*old(cs), *final(cs)), w) ==> wire_val(w, a) < 1024,
{
    proof {
        vstd::arithmetic::power2::lemma2_to64();
    }
    let bits = enforce_decompose(cs, a, 10);
}

/// Forces a signal below the squared-norm bound of the 512-dimension
/// parameter set.
pub fn enforce_less_than_norm_bound_512(cs: &mut CircuitBuilder, a: usize)
    requires
        old(cs).wf(),
        a < old(cs).values@.len(),
        old(cs).wires()[a as int] < 0x1_0000_0000_0000_0000,
    ensures
        final(cs).wf(),
        extends(*old(cs), *final(cs)),
        final(cs).publics@ == old(cs).publics@,
        final(cs).ok() <==> (old(cs).ok() && old(cs).wires()[a as int] < 34034726),
        forall|w: Seq<nat>|
            #[trigger] holds_all(new_gates(*old(cs), *final(cs)), w) ==> wire_val(w, a)
                < 34034726,
{
    proof {
        vstd::arithmetic::power2::lemma2_to64();
        vstd::arithmetic::power2::lemma2_to64_rest();
    }
    enforce_less_than_const(cs, a, 34034726, 26)
}

/// Forces a signal below the squared-norm bound of the 1024-dimension
/// parameter set.
pub fn enforce_less_than_norm_bound_1024(cs: &mut CircuitBuilder, a: usize)
    requires
        old(cs).wf(),
        a < old(cs).values@.len(),
        old(cs).wires()[a as int] < 0x1_0000_0000_0000_0000,
    ensures
        final(cs).wf(),
        extends(*old(cs), *final(cs)),
        final(cs).publics@ == old(cs).publics@,
        final(cs).ok() <==> (old(cs).ok() && old(cs).wires()[a as int] < 70265242),
        forall|w: Seq<nat>|
            #[trigger] holds_all(new_gates(*old(cs), *final(cs)), w) ==> wire_val(w, a)
                < 70265242,
{
    proof {
        vstd::arithmetic::power2::lemma2_to64();
        vstd::arithmetic::power2::lemma2_to64_rest();
    }
    enforce_less_than_const(cs, a, 70265242, 27)
}

/// Forces a signal below the parameter set's squared-norm bound.
pub fn enforce_less_than_norm_bound(cs: &mut CircuitBuilder, p: ParamSet, a: usize)
    requires
        old(cs).wf(),
        a < old(cs).values@.len(),
        old(cs).wires()[a as int] < 0x1_0000_0000_0000_0000,
    ensures
        final(cs).wf(),
        extends(*old(cs), *final(cs)),
        final(cs).publics@ == old(cs).publics@,
        final(cs).ok() <==> (old(cs).ok() && old(cs).wires()[a as int] < p.sig_l2_bound_spec()),
        forall|w: Seq<nat>|
            #[trigger] holds_all(new_gates(*old(cs), *final(cs)), w) ==> wire_val(w, a)
                < p.sig_l2_bound_spec(),
{
    match p {
        ParamSet::Falcon512 => enforce_less_than_norm_bound_512(cs, a),
        ParamSet::Falcon1024 => enforce_less_than_norm_bound_1024(cs, a),
    }
}

/// Forces a signal to be at most 765 = 3 * 255 by decomposing it into
/// three limbs, each below 256 by the backend's native 8-bit range
/// gate.
#[verifier::rlimit(60)]
pub fn enforce_leq_765(cs: &mut CircuitBuilder, a: usize)
    requires
        old(cs).wf(),
        a < old(cs).values@.len(),
        old(cs).wires()[a as int] < 0x1_0000_0000_0000_0000,
    ensures
        final(cs).wf(),
        extends(*old(cs), *final(cs)),
        final(cs).publics@ == old(cs).publics@,
        final(cs).ok() <==> (old(cs).ok() && old(cs).wires()[a as int] <= 765),
        forall|w: Seq<nat>|
            #[trigger] holds_all(new_gates(*old(cs), *final(cs)), w) ==> wire_val(w, a) <= 765,
{
    let ghost pre = *cs;
    let ghost v = pre.wires()[a as int];
    let av = cs.value_of(a);
    let v64: u64 = av.l0;
    proof {
        assert(v64 == v);
        lemma_cap_small();
    }
    let (a1, a2, a3) = if v64 > 510 {
        (255u64, 255u64, v64 - 510)
    } else if v64 > 255 {
        (255u64, v64 - 255, 0u64)
    } else {
        (v64, 0u64, 0u64)
    };
    let s1 = cs.alloc_witness(Wide::from_u64(a1));
    let s2 = cs.alloc_witness(Wide::from_u64(a2));
    let s3 = cs.alloc_witness(Wide::from_u64(a3));
    cs.range_gate(s1, 8);
    cs.range_gate(s2, 8);
    cs.range_gate(s3, 8);
    let ghost mid = *cs;
    let pos = t3(1, s1, 1, s2, 1, s3);
    let neg = t1(1, a);
    let zero = Wide::zero();
    let zero2 = Wide::zero();
    cs.assert_lin(pos, neg, zero, zero2);
    proof {
        assert(pow2(8) == 256) by {
            vstd::arithmetic::power2::lemma2_to64();
        }
        lemma_term_sum3(1, s1, 1, s2, 1, s3, mid.wires());
        lemma_term_sum1(1, a, mid.wires());
        lemma_extends_trans(pre, mid, *cs);
        assert(mid.wires()[s1 as int] == a1);
        assert(mid.wires()[s2 as int] == a2);
        assert(mid.wires()[s3 as int] == a3);
        assert(wire_val(mid.wires(), a) == v);
        assert forall|w: Seq<nat>| #[trigger] holds_all(new_gates(pre, *cs), w) implies wire_val(
            w,
            a,
        ) <= 765 by {
            lemma_new_gates_split(pre, mid, *cs, w);
            assert(gate_holds(new_gates(pre, mid)[0], w));
            assert(gate_holds(new_gates(pre, mid)[1], w));
            assert(gate_holds(new_gates(pre, mid)[2], w));
            assert(gate_holds(new_gates(mid, *cs)[0], w));
            lemma_term_sum3(1, s1, 1, s2, 1, s3, w);
            lemma_term_sum1(1, a, w);
        }
    }
}

} // verus!
