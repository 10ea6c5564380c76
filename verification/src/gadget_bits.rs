//! Bit-level gadgets: boolean operators over 0/1 signals and the bit
//! decomposition that the range proofs build on.
//!
//! Each gadget states two sides.  Completeness: building it on a
//! satisfied circuit keeps the circuit satisfied whenever the recorded
//! input value meets the gadget's condition.  Soundness: *every*
//! assignment that satisfies the gates the gadget added is constrained
//! as stated, which is what makes the gadget a proof and not a
//! computation.

use vstd::prelude::*;
use vstd::arithmetic::power2::pow2;
use vstd::seq_lib::*;
use crate::nums::Wide;
use crate::cs::{
    cap, const_cap, extends, gate_holds, holds_all, lemma_extends_trans, lemma_gate_holds_extend,
    lemma_new_gates_split, lemma_term_sum1, lemma_term_sum2, max_terms, new_gates, t0, t1, t2,
    term_sum, wire_val, CircuitBuilder, Gate,
};

verus! {

/// The bit of `v` at position `i`.
pub open spec fn bit_of(v: nat, i: nat) -> nat {
    (v / pow2(i)) % 2
}

/// The value of the first `k` bit signals, least significant first.
pub open spec fn bits_value(bs: Seq<usize>, w: Seq<nat>, k: int) -> nat
    decreases k,
{
    if k <= 0 {
        0
    } else {
        (bits_value(bs, w, k - 1) + pow2((k - 1) as nat) * wire_val(w, bs[k - 1])) as nat
    }
}

/// Bit signals bound to 0 or 1 sum to less than `2^k`.
pub proof fn lemma_bits_value_bound(bs: Seq<usize>, w: Seq<nat>, k: int)
    requires
        0 <= k <= bs.len(),
        forall|i: int| 0 <= i < k ==> wire_val(w, #[trigger] bs[i]) <= 1,
    ensures
        bits_value(bs, w, k) < pow2(k as nat),
    decreases k,
{
    vstd::arithmetic::power2::lemma_pow2_pos(k as nat);
    if k > 0 {
        lemma_bits_value_bound(bs, w, k - 1);
        vstd::arithmetic::power2::lemma_pow2_unfold(k as nat);
        assert(pow2((k - 1) as nat) * wire_val(w, bs[k - 1]) <= pow2((k - 1) as nat)) by {
            vstd::arithmetic::mul::lemma_mul_upper_bound(
                pow2((k - 1) as nat) as int,
                pow2((k - 1) as nat) as int,
                wire_val(w, bs[k - 1]) as int,
                1,
            );
        }
    }
}

/// The first `k` bits of `v` sum to `v mod 2^k`.
pub proof fn lemma_bits_of_value(v: nat, bs: Seq<usize>, w: Seq<nat>, k: int)
    requires
        0 <= k <= bs.len(),
        forall|i: int| 0 <= i < k ==> wire_val(w, #[trigger] bs[i]) == bit_of(v, i as nat),
    ensures
        bits_value(bs, w, k) == v % pow2(k as nat),
    decreases k,
{
    if k == 0 {
        assert(pow2(0) == 1) by {
            vstd::arithmetic::power2::lemma2_to64();
        }
    } else {
        lemma_bits_of_value(v, bs, w, k - 1);
        let p = pow2((k - 1) as nat);
        vstd::arithmetic::power2::lemma_pow2_pos((k - 1) as nat);
        vstd::arithmetic::div_mod::lemma_mod_breakdown(v as int, p as int, 2);
        vstd::arithmetic::power2::lemma_pow2_adds((k - 1) as nat, 1);
        assert(pow2(1) == 2) by {
            vstd::arithmetic::power2::lemma2_to64();
        }
        assert(v % pow2(k as nat) == p * ((v / p) % 2) + v % p);
    }
}

/// `2^i` as a 64-bit constant.
pub fn pow2_u64(i: usize) -> (r: u64)
    requires
        i < 64,
    ensures
        r == pow2(i as nat),
{
    proof {
        vstd::arithmetic::power2::lemma_pow2_strictly_increases(i as nat, 64);
        vstd::arithmetic::power2::lemma2_to64_rest();
        vstd::bits::lemma_u64_shl_is_mul(1u64, i as u64);
    }
    1u64 << (i as u64)
}

/// Forces a signal to equal a small constant.
pub fn assert_const_sig(cs: &mut CircuitBuilder, a: usize, k: u64)
    requires
        old(cs).wf(),
        a < old(cs).values@.len(),
    ensures
        final(cs).wf(),
        extends(*old(cs), *final(cs)),
        final(cs).values@ == old(cs).values@,
        final(cs).publics@ == old(cs).publics@,
        final(cs).ok() <==> (old(cs).ok() && old(cs).wires()[a as int] == k),
        forall|w: Seq<nat>|
            #[trigger] holds_all(new_gates(*old(cs), *final(cs)), w) ==> wire_val(w, a) == k,
{
    let pos = t1(1, a);
    let neg = t0();
    let zero = Wide::zero();
    let kk = Wide::from_u64(k);
    proof {
        lemma_wide_const_cap(kk);
    }
    let ghost pre = *cs;
    cs.assert_lin(pos, neg, zero, kk);
    proof {
        lemma_term_sum1(1, a, pre.wires());
        assert forall|w: Seq<nat>| #[trigger] holds_all(new_gates(pre, *cs), w) implies wire_val(
            w,
            a,
        ) == k by {
            assert(new_gates(pre, *cs).len() == 1);
            assert(gate_holds(new_gates(pre, *cs)[0], w));
            lemma_term_sum1(1, a, w);
        }
    }
}

/// Forces two signals to carry the same value.
pub fn assert_eq_sig(cs: &mut CircuitBuilder, a: usize, b: usize)
    requires
        old(cs).wf(),
        a < old(cs).values@.len(),
        b < old(cs).values@.len(),
    ensures
        final(cs).wf(),
        extends(*old(cs), *final(cs)),
        final(cs).values@ == old(cs).values@,
        final(cs).publics@ == old(cs).publics@,
        final(cs).ok() <==> (old(cs).ok() && old(cs).wires()[a as int] == old(cs).wires()[b as int]),
        forall|w: Seq<nat>|
            #[trigger] holds_all(new_gates(*old(cs), *final(cs)), w) ==> wire_val(w, a)
                == wire_val(w, b),
{
    let pos = t1(1, a);
    let neg = t1(1, b);
    let zero = Wide::zero();
    let zero2 = Wide::zero();
    let ghost pre = *cs;
    cs.assert_lin(pos, neg, zero, zero2);
    proof {
        lemma_term_sum1(1, a, pre.wires());
        lemma_term_sum1(1, b, pre.wires());
        assert forall|w: Seq<nat>| #[trigger] holds_all(new_gates(pre, *cs), w) implies wire_val(
            w,
            a,
        ) == wire_val(w, b) by {
            assert(gate_holds(new_gates(pre, *cs)[0], w));
            lemma_term_sum1(1, a, w);
            lemma_term_sum1(1, b, w);
        }
    }
}

/// The negation of a 0/1 signal: a fresh signal carrying `1 - a`,
/// constrained by `a + r == 1`.
pub fn bool_not(cs: &mut CircuitBuilder, a: usize) -> (r: usize)
    requires
        old(cs).wf(),
        a < old(cs).values@.len(),
        old(cs).wires()[a as int] <= 1,
    ensures
        final(cs).wf(),
        extends(*old(cs), *final(cs)),
        final(cs).publics@ == old(cs).publics@,
        r < final(cs).values@.len(),
        final(cs).wires()[r as int] == 1 - old(cs).wires()[a as int],
        final(cs).ok() <==> old(cs).ok(),
        forall|w: Seq<nat>|
            #[trigger] holds_all(new_gates(*old(cs), *final(cs)), w) ==> wire_val(w, a) <= 1
                && wire_val(w, r) == 1 - wire_val(w, a),
{
    let ghost pre = *cs;
    let av = cs.value_of(a);
    let one = Wide::from_u64(1);
    let rv = one.sub_w(&av);
    proof {
        lemma_cap_small();
    }
    let r = cs.alloc_witness(rv);
    let ghost mid = *cs;
    let pos = t2(1, a, 1, r);
    let neg = t0();
    let zero = Wide::zero();
    let one2 = Wide::from_u64(1);
    proof {
        lemma_wide_const_cap(one2);
    }
    cs.assert_lin(pos, neg, zero, one2);
    proof {
        lemma_term_sum2(1, a, 1, r, mid.wires());
        assert(wire_val(mid.wires(), a) == pre.wires()[a as int]);
        assert forall|w: Seq<nat>| #[trigger] holds_all(new_gates(pre, *cs), w) implies wire_val(
            w,
            a,
        ) <= 1 && wire_val(w, r) == 1 - wire_val(w, a) by {
            lemma_new_gates_split(pre, mid, *cs, w);
            assert(gate_holds(new_gates(mid, *cs)[0], w));
            lemma_term_sum2(1, a, 1, r, w);
        }
    }
    r
}

/// The conjunction of two 0/1 signals, as a product gate.
pub fn bool_and(cs: &mut CircuitBuilder, a: usize, b: usize) -> (r: usize)
    requires
        old(cs).wf(),
        a < old(cs).values@.len(),
        b < old(cs).values@.len(),
        old(cs).wires()[a as int] <= 1,
        old(cs).wires()[b as int] <= 1,
    ensures
        final(cs).wf(),
        extends(*old(cs), *final(cs)),
        final(cs).publics@ == old(cs).publics@,
        r < final(cs).values@.len(),
        final(cs).wires()[r as int] == (if old(cs).wires()[a as int] == 1 && old(cs).wires()[b as int] == 1 {
            1nat
        } else {
            0nat
        }),
        final(cs).ok() <==> old(cs).ok(),
        forall|w: Seq<nat>|
            #[trigger] holds_all(new_gates(*old(cs), *final(cs)), w) ==> (wire_val(w, a) <= 1
                && wire_val(w, b) <= 1 ==> wire_val(w, r) == (if wire_val(w, a) == 1 && wire_val(
                w,
                b,
            ) == 1 {
                1nat
            } else {
                0nat
            })),
    {
    let ghost pre = *cs;
    proof {
        lemma_cap_small();
        vstd::arithmetic::mul::lemma_mul_basics(pre.wires()[a as int] as int);
        vstd::arithmetic::mul::lemma_mul_basics(pre.wires()[b as int] as int);
    }
    let r = cs.mul_gate(a, b);
    proof {
        assert forall|w: Seq<nat>| #[trigger] holds_all(new_gates(pre, *cs), w) implies (wire_val(
            w,
            a,
        ) <= 1 && wire_val(w, b) <= 1 ==> wire_val(w, r) == (if wire_val(w, a) == 1 && wire_val(
            w,
            b,
        ) == 1 {
            1nat
        } else {
            0nat
        })) by {
            assert(gate_holds(new_gates(pre, *cs)[0], w));
            vstd::arithmetic::mul::lemma_mul_basics(wire_val(w, a) as int);
            vstd::arithmetic::mul::lemma_mul_basics(wire_val(w, b) as int);
        }
    }
    r
}

/// The disjunction of two 0/1 signals: a fresh signal `r` with the
/// product `d = a * b` and the relation `a + b == r + d`.
pub fn bool_or(cs: &mut CircuitBuilder, a: usize, b: usize) -> (r: usize)
    requires
        old(cs).wf(),
        a < old(cs).values@.len(),
        b < old(cs).values@.len(),
        old(cs).wires()[a as int] <= 1,
        old(cs).wires()[b as int] <= 1,
    ensures
        final(cs).wf(),
        extends(*old(cs), *final(cs)),
        final(cs).publics@ == old(cs).publics@,
        r < final(cs).values@.len(),
        final(cs).wires()[r as int] == (if old(cs).wires()[a as int] == 1 || old(cs).wires()[b as int] == 1 {
            1nat
        } else {
            0nat
        }),
        final(cs).ok() <==> old(cs).ok(),
        forall|w: Seq<nat>|
            #[trigger] holds_all(new_gates(*old(cs), *final(cs)), w) ==> (wire_val(w, a) <= 1
                && wire_val(w, b) <= 1 ==> wire_val(w, r) == (if wire_val(w, a) == 1 || wire_val(
                w,
                b,
            ) == 1 {
                1nat
            } else {
                0nat
            })),
{
    let ghost pre = *cs;
    let d = bool_and(cs, a, b);
    let ghost mid = *cs;
    let av = cs.value_of(a);
    let bv = cs.value_of(b);
    let dv = cs.value_of(d);
    let rv = av.add_w(&bv).sub_w(&dv);
    proof {
        lemma_cap_small();
    }
    let r = cs.alloc_witness(rv);
    let ghost mid2 = *cs;
    let pos = t2(1, a, 1, b);
    let neg = t2(1, r, 1, d);
    let zero = Wide::zero();
    let zero2 = Wide::zero();
    cs.assert_lin(pos, neg, zero, zero2);
    proof {
        lemma_term_sum2(1, a, 1, b, mid2.wires());
        lemma_term_sum2(1, r, 1, d, mid2.wires());
        lemma_extends_trans(pre, mid, mid2);
        lemma_extends_trans(pre, mid2, *cs);
        assert forall|w: Seq<nat>| #[trigger] holds_all(new_gates(pre, *cs), w) implies (wire_val(
            w,
            a,
        ) <= 1 && wire_val(w, b) <= 1 ==> wire_val(w, r) == (if wire_val(w, a) == 1 || wire_val(
            w,
            b,
        ) == 1 {
            1nat
        } else {
            0nat
        })) by {
            lemma_new_gates_split(pre, mid2, *cs, w);
            lemma_new_gates_split(pre, mid, mid2, w);
            assert(holds_all(new_gates(pre, mid), w));
            assert(gate_holds(new_gates(mid2, *cs)[0], w));
            lemma_term_sum2(1, a, 1, b, w);
            lemma_term_sum2(1, r, 1, d, w);
            vstd::arithmetic::mul::lemma_mul_basics(wire_val(w, a) as int);
            vstd::arithmetic::mul::lemma_mul_basics(wire_val(w, b) as int);
        }
    }
    r
}

/// Decomposes a signal into `nbits` fresh bit signals.  Each bit is
/// range-constrained to one bit, and a linear gate forces the bits to
/// reconstruct the signal, so any satisfying assignment has the
/// signal below `2^nbits`.  The recorded bits are the low bits of the
/// recorded value; the reconstruction gate holds on the recorded
/// assignment exactly when that value is below `2^nbits`.
pub fn enforce_decompose(cs: &mut CircuitBuilder, a: usize, nbits: usize) -> (bits: Vec<usize>)
    requires
        old(cs).wf(),
        a < old(cs).values@.len(),
        0 < nbits < 64,
        old(cs).wires()[a as int] < 0x1_0000_0000_0000_0000,
    ensures
        final(cs).wf(),
        extends(*old(cs), *final(cs)),
        final(cs).publics@ == old(cs).publics@,
        bits@.len() == nbits,
        forall|i: int| 0 <= i < nbits ==> #[trigger] bits@[i] < final(cs).values@.len(),
        forall|i: int|
            0 <= i < nbits ==> final(cs).wires()[#[trigger] bits@[i] as int] == bit_of(
                old(cs).wires()[a as int],
                i as nat,
            ),
        final(cs).ok() <==> (old(cs).ok() && old(cs).wires()[a as int] < pow2(nbits as nat)),
        forall|w: Seq<nat>|
            #[trigger] holds_all(new_gates(*old(cs), *final(cs)), w) ==> ((forall|i: int|
                0 <= i < nbits ==> wire_val(w, #[trigger] bits@[i]) <= 1) && wire_val(w, a)
                == bits_value(bits@, w, nbits as int) && wire_val(w, a) < pow2(nbits as nat)),
{
    let ghost pre = *cs;
    let ghost v = pre.wires()[a as int];
    let av = cs.value_of(a);
    let low: u64 = av.l0;
    proof {
        assert(av.val() == v);
        assert(low == v);
    }
    let mut bits: Vec<usize> = Vec::new();
    let mut ts: Vec<(u64, usize)> = Vec::new();
    let mut i: usize = 0;
    while i < nbits
        invariant
            pre.wf(),
            cs.wf(),
            extends(pre, *cs),
            cs.publics@ == pre.publics@,
            a < pre.values@.len(),
            0 < nbits < 64,
            low == v,
            v < 0x1_0000_0000_0000_0000,
            v == pre.wires()[a as int],
            i <= nbits,
            bits@.len() == i,
            ts@.len() == i,
            cs.gates@.len() == pre.gates@.len() + i,
            cs.values@.len() == pre.values@.len() + i,
            forall|k: int| 0 <= k < i ==> #[trigger] bits@[k] < cs.values@.len(),
            forall|k: int|
                0 <= k < i ==> cs.wires()[#[trigger] bits@[k] as int] == bit_of(v, k as nat),
            forall|k: int| 0 <= k < i ==> #[trigger] ts@[k] == (pow2(k as nat) as u64, bits@[k]),
            forall|k: int|
                0 <= k < i ==> cs.gates@[pre.gates@.len() + k] == (Gate::Range {
                    a: #[trigger] bits@[k],
                    bits: 1,
                }),
            cs.ok() <==> pre.ok(),
        decreases nbits - i,
    {
        let ghost prev = *cs;
        let bitval: u64 = (low >> (i as u64)) & 1;
        proof {
            vstd::bits::lemma_u64_shr_is_div(low, i as u64);
            vstd::bits::lemma_u64_low_bits_mask_is_mod(low >> (i as u64), 1);
            vstd::bits::lemma_low_bits_mask_values();
            assert(pow2(1) == 2) by {
                vstd::arithmetic::power2::lemma2_to64();
            }
            assert(bitval == bit_of(v, i as nat));
            lemma_cap_small();
        }
        let b = cs.alloc_witness(Wide::from_u64(bitval));
        cs.range_gate(b, 1);
        proof {
            assert(cs.wires()[b as int] == bit_of(v, i as nat));
            assert(bit_of(v, i as nat) < 2) by {
                vstd::arithmetic::power2::lemma_pow2_pos(i as nat);
            }
            assert(pow2(1) == 2) by {
                vstd::arithmetic::power2::lemma2_to64();
            }
            lemma_extends_trans(pre, prev, *cs);
        }
        let p = pow2_u64(i);
        bits.push(b);
        ts.push((p, b));
        i = i + 1;
    }
    let ghost mid = *cs;
    let neg = t1(1, a);
    let zero = Wide::zero();
    let zero2 = Wide::zero();
    proof {
        assert(ts@.len() <= max_terms());
        assert forall|k: int| 0 <= k < nbits implies #[trigger] pow2(k as nat)
            < 0x1_0000_0000_0000_0000 by {
            vstd::arithmetic::power2::lemma_pow2_strictly_increases(k as nat, 64);
            vstd::arithmetic::power2::lemma2_to64_rest();
        }
    }
    cs.assert_lin(ts, neg, zero, zero2);
    proof {
        lemma_extends_trans(pre, mid, *cs);
        assert(ts@.take(nbits as int) =~= ts@);
        // the reconstruction gate on the recorded assignment
        lemma_term_sum_as_bits(ts@, bits@, mid.wires(), nbits as int);
        lemma_term_sum1(1, a, mid.wires());
        assert(wire_val(mid.wires(), a) == v);
        assert forall|k: int| 0 <= k < nbits implies wire_val(mid.wires(), #[trigger] bits@[k])
            == bit_of(v, k as nat) by {
            assert(mid.wires()[bits@[k] as int] == bit_of(v, k as nat));
        }
        lemma_bits_of_value(v, bits@, mid.wires(), nbits as int);
        vstd::arithmetic::power2::lemma_pow2_pos(nbits as nat);
        vstd::arithmetic::div_mod::lemma_mod_division_less_than_divisor(
            v as int,
            pow2(nbits as nat) as int,
        );
        if v < pow2(nbits as nat) {
            vstd::arithmetic::div_mod::lemma_small_mod(v, pow2(nbits as nat));
        }
        // soundness for an arbitrary assignment
        assert forall|w: Seq<nat>| #[trigger] holds_all(new_gates(pre, *cs), w) implies ((forall|
            i: int,
        |
            0 <= i < nbits ==> wire_val(w, #[trigger] bits@[i]) <= 1) && wire_val(w, a)
            == bits_value(bits@, w, nbits as int) && wire_val(w, a) < pow2(nbits as nat)) by {
            lemma_new_gates_split(pre, mid, *cs, w);
            assert forall|k: int| 0 <= k < nbits implies wire_val(w, #[trigger] bits@[k])
                <= 1 by {
                assert(new_gates(pre, mid)[k] == mid.gates@[pre.gates@.len() + k]);
                assert(gate_holds(mid.gates@[pre.gates@.len() + k], w));
                assert(pow2(1) == 2) by {
                    vstd::arithmetic::power2::lemma2_to64();
                }
            }
            assert(gate_holds(new_gates(mid, *cs)[0], w));
            lemma_term_sum_as_bits(ts@, bits@, w, nbits as int);
            lemma_term_sum1(1, a, w);
            lemma_bits_value_bound(bits@, w, nbits as int);
        }
    }
    bits
}

/// A term list whose entry `k` is `2^k` times bit signal `k` sums to
/// the value of those bits.
proof fn lemma_term_sum_as_bits(ts: Seq<(u64, usize)>, bs: Seq<usize>, w: Seq<nat>, k: int)
    requires
        0 <= k <= ts.len(),
        k <= bs.len(),
        forall|i: int| 0 <= i < k ==> #[trigger] ts[i] == (pow2(i as nat) as u64, bs[i]),
        forall|i: int| 0 <= i < k ==> #[trigger] pow2(i as nat) < 0x1_0000_0000_0000_0000,
    ensures
        term_sum(ts.take(k), w) == bits_value(bs, w, k),
    decreases k,
{
    if k == 0 {
        assert(ts.take(0) =~= Seq::<(u64, usize)>::empty());
    } else {
        lemma_term_sum_as_bits(ts, bs, w, k - 1);
        assert(ts.take(k).drop_last() =~= ts.take(k - 1));
        assert(ts.take(k).last() == ts[k - 1]);
    }
}

/// Values that fit in 128 bits sit below the signal capacity.
pub proof fn lemma_cap_small()
    ensures
        0x1_0000_0000_0000_0000_0000_0000_0000_0000 < cap(),
{
}

/// A 64-bit constant sits below the linear-gate constant bound.
proof fn lemma_wide_const_cap(x: Wide)
    requires
        x.l1 == 0,
        x.l2 == 0,
        x.l3 == 0,
    ensures
        x.val() < const_cap(),
{
}

} // verus!
