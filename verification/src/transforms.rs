//! The number-theoretic transform over the ring coefficients.
//!
//! The transform is specified stage by stage: each stage applies one
//! layer of radix-2 butterflies, described pointwise over the
//! coefficient sequence, and the full transform is the fold of
//! `log2(N)` stages.  The executable transforms build each stage into
//! a fresh vector and are proved to match the specification exactly,
//! coefficient by coefficient.

use vstd::prelude::*;
use vstd::arithmetic::power2::pow2;
use crate::params::{fwd_twiddle, inv_twiddle, ntt_table, inv_ntt_table, ParamSet, MODULUS};

verus! {

/// One forward butterfly stage: at stage `l` the sequence splits into
/// `2^l` blocks; within each block, the upper half is multiplied by
/// the block's twiddle and folded into the lower half.
pub open spec fn fwd_stage(s: Seq<nat>, l: nat) -> Seq<nat> {
    let n = s.len() as int;
    let q = MODULUS as int;
    let t = n / pow2(l) as int;
    let ht = t / 2;
    Seq::new(s.len(), |idx: int|
        {
            let i = idx / t;
            let r = idx % t;
            let m = pow2(l) as int;
            if r < ht {
                ((s[idx] as int + (s[idx + ht] as int) * (fwd_twiddle((m + i) as nat) as int) % q)
                    % q) as nat
            } else {
                ((s[idx - ht] as int + q - (s[idx] as int) * (fwd_twiddle((m + i) as nat) as int)
                    % q) % q) as nat
            }
        },
    )
}

/// The first `l` forward stages.
pub open spec fn fwd_stages(s: Seq<nat>, l: nat) -> Seq<nat>
    decreases l,
{
    if l == 0 {
        s
    } else {
        fwd_stage(fwd_stages(s, (l - 1) as nat), (l - 1) as nat)
    }
}

/// The forward transform of a coefficient sequence of length `2^logn`.
pub open spec fn ntt_spec(s: Seq<nat>, logn: nat) -> Seq<nat> {
    fwd_stages(s, logn)
}

/// One inverse butterfly stage: at stage `l` pairs at distance `2^l`
/// are recombined, and the upper element is multiplied by the inverse
/// twiddle of its block.
pub open spec fn inv_stage(s: Seq<nat>, l: nat) -> Seq<nat> {
    let n = s.len() as int;
    let q = MODULUS as int;
    let t = pow2(l) as int;
    let dt = 2 * t;
    Seq::new(s.len(), |idx: int|
        {
            let i = idx / dt;
            let r = idx % dt;
            let hm = n / dt;
            if r < t {
                ((s[idx] as int + s[idx + t] as int) % q) as nat
            } else {
                (((s[idx - t] as int + q - s[idx] as int) % q) * (inv_twiddle((hm + i) as nat)
                    as int) % q) as nat
            }
        },
    )
}

/// The first `l` inverse stages.
pub open spec fn inv_stages(s: Seq<nat>, l: nat) -> Seq<nat>
    decreases l,
{
    if l == 0 {
        s
    } else {
        inv_stage(inv_stages(s, (l - 1) as nat), (l - 1) as nat)
    }
}

/// The inverse transform: the inverse stages followed by scaling
/// every coefficient by 1/N mod q.
pub open spec fn inv_ntt_spec(s: Seq<nat>, p: ParamSet) -> Seq<nat> {
    inv_stages(s, p.log_n_spec()).map_values(
        |x: nat| x * p.one_over_n_spec() % (MODULUS as nat),
    )
}

/// Whether a sequence holds `n` coefficients, all reduced mod q.
pub open spec fn coeffs_ok(s: Seq<nat>, n: nat) -> bool {
    s.len() == n && forall|i: int| 0 <= i < s.len() ==> #[trigger] s[i] < MODULUS
}

/// The view of packed 16-bit coefficients as a coefficient sequence.
pub open spec fn view16(v: Seq<u16>) -> Seq<nat> {
    v.map_values(|x: u16| x as nat)
}

/// A forward stage keeps coefficients reduced.
pub proof fn lemma_fwd_stage_ok(s: Seq<nat>, l: nat, n: nat)
    requires
        coeffs_ok(s, n),
    ensures
        coeffs_ok(fwd_stage(s, l), n),
{
    assert forall|i: int| 0 <= i < fwd_stage(s, l).len() implies #[trigger] fwd_stage(s, l)[i]
        < MODULUS by {
        vstd::arithmetic::div_mod::lemma_mod_division_less_than_divisor(
            (fwd_stage(s, l)[i]) as int,
            MODULUS as int,
        );
    }
}

/// `2^l` as a machine word, for stage arithmetic.
pub fn pow2_usize(l: usize) -> (r: usize)
    requires
        l < 32,
    ensures
        r == pow2(l as nat),
        r >= 1,
{
    proof {
        vstd::arithmetic::power2::lemma_pow2_strictly_increases(l as nat, 32);
        vstd::arithmetic::power2::lemma2_to64();
        vstd::arithmetic::power2::lemma_pow2_pos(l as nat);
    }
    let mut r: usize = 1;
    let mut i: usize = 0;
    while i < l
        invariant
            i <= l,
            l < 32,
            r == pow2(i as nat),
            r <= pow2(l as nat),
        decreases l - i,
    {
        proof {
            vstd::arithmetic::power2::lemma_pow2_unfold((i + 1) as nat);
            vstd::arithmetic::power2::lemma_pow2_strictly_increases(l as nat, 32);
            vstd::arithmetic::power2::lemma2_to64();
            if i + 1 <= l {
                if i + 1 < l {
                    vstd::arithmetic::power2::lemma_pow2_strictly_increases(
                        (i + 1) as nat,
                        l as nat,
                    );
                }
            }
        }
        r = r * 2;
        i = i + 1;
    }
    r
}

/// One executable forward stage over 16-bit coefficients.
fn fwd_stage_exec(cur: &Vec<u16>, l: usize, table: &Vec<u16>, n: usize) -> (r: Vec<u16>)
    requires
        coeffs_ok(view16(cur@), n as nat),
        n == cur@.len(),
        table@.len() == n,
        forall|x: int| 0 <= x < table@.len() ==> table@[x] == fwd_twiddle(x as nat),
        forall|x: int| 0 <= x < table@.len() ==> table@[x] < MODULUS,
        l < 31,
        pow2(l as nat) * 2 <= n,
        (n as nat) % pow2((l + 1) as nat) == 0,
    ensures
        r@.len() == n,
        view16(r@) == fwd_stage(view16(cur@), l as nat),
        coeffs_ok(view16(r@), n as nat),
{
    let ghost s = view16(cur@);
    let ghost target = fwd_stage(view16(cur@), l as nat);
    let m = pow2_usize(l);
    proof {
        vstd::arithmetic::power2::lemma_pow2_unfold((l + 1) as nat);
        vstd::arithmetic::div_mod::lemma_div_multiples_vanish_quotient(
            pow2((l + 1) as nat) as int,
            n as int,
            2,
        );
    }
    let t = n / m;
    let ht = t / 2;
    proof {
        let p1 = pow2((l + 1) as nat) as int;
        let k = n as int / p1;
        vstd::arithmetic::power2::lemma_pow2_pos((l + 1) as nat);
        vstd::arithmetic::div_mod::lemma_fundamental_div_mod(n as int, p1);
        assert(n == p1 * k);
        assert(p1 == 2 * pow2(l as nat));
        assert(n == (k * 2) * pow2(l as nat)) by (nonlinear_arith)
            requires
                n == (2 * pow2(l as nat)) * k,
        ;
        vstd::arithmetic::power2::lemma_pow2_pos(l as nat);
        vstd::arithmetic::div_mod::lemma_div_by_multiple(k * 2, pow2(l as nat) as int);
        assert(t == k * 2);
        assert(ht == k);
        assert(m * t == n) by (nonlinear_arith)
            requires
                n == (k * 2) * pow2(l as nat),
                t == k * 2,
                m == pow2(l as nat),
        ;
        assert(ht * 2 == t);
    }
    let mut out: Vec<u16> = Vec::new();
    let mut idx: usize = 0;
    while idx < n
        invariant
            coeffs_ok(s, n as nat),
            s == view16(cur@),
            n == cur@.len(),
            table@.len() == n,
            forall|x: int| 0 <= x < table@.len() ==> table@[x] == fwd_twiddle(x as nat),
            forall|x: int| 0 <= x < table@.len() ==> table@[x] < MODULUS,
            l < 31,
            m == pow2(l as nat),
            m >= 1,
            m * 2 <= n,
            t == n / m,
            t == n as int / pow2(l as nat) as int,
            ht * 2 == t,
            ht == t / 2,
            m * t == n,
            target == fwd_stage(s, l as nat),
            target.len() == n,
            idx <= n,
            out@.len() == idx,
            forall|k: int| 0 <= k < idx ==> view16(out@)[k] == target[k],
            forall|k: int| 0 <= k < idx ==> #[trigger] out@[k] < MODULUS,
        decreases n - idx,
    {
        proof {
            vstd::arithmetic::div_mod::lemma_fundamental_div_mod(idx as int, t as int);
            vstd::arithmetic::div_mod::lemma_mod_division_less_than_divisor(idx as int, t as int);
            vstd::arithmetic::mul::lemma_mul_is_commutative(m as int, t as int);
            vstd::arithmetic::div_mod::lemma_multiply_divide_lt(idx as int, t as int, m as int);
        }
        let i = idx / t;
        let r = idx % t;
        let tw = table[m + i];
        let q32 = MODULUS;
        let v: u16;
        if r < ht {
            proof {
                lemma_pair_index(idx as int, t as int, ht as int, m as int, n as int, true);
                vstd::arithmetic::mul::lemma_mul_upper_bound(
                    view16(cur@)[idx + ht] as int,
                    12288,
                    tw as int,
                    12288,
                );
            }
            let u = cur[idx];
            let prod: u32 = (cur[idx + ht] as u32) * (tw as u32) % q32;
            v = (((u as u32) + prod) % q32) as u16;
        } else {
            proof {
                lemma_pair_index(idx as int, t as int, ht as int, m as int, n as int, false);
                vstd::arithmetic::mul::lemma_mul_upper_bound(
                    view16(cur@)[idx as int] as int,
                    12288,
                    tw as int,
                    12288,
                );
            }
            let u = cur[idx - ht];
            let prod: u32 = (cur[idx] as u32) * (tw as u32) % q32;
            v = (((u as u32) + q32 - prod) % q32) as u16;
        }
        out.push(v);
        proof {
            assert(view16(out@)[idx as int] == target[idx as int]);
            assert forall|k: int| 0 <= k < idx + 1 implies view16(out@)[k] == target[k] by {
                if k < idx {
                    assert(view16(out@)[k] == view16(out@.drop_last())[k]);
                }
            }
        }
        idx = idx + 1;
    }
    proof {
        assert(view16(out@) =~= target);
    }
    out
}

/// Position arithmetic of a butterfly pair: the partner index stays
/// inside the block and the sequence.
pub(crate) proof fn lemma_pair_index(idx: int, t: int, ht: int, m: int, n: int, low: bool)
    requires
        t > 0,
        ht * 2 == t,
        m * t == n,
        0 <= idx < n,
        low == (idx % t < ht),
    ensures
        low ==> idx + ht < n && (idx + ht) / t == idx / t && (idx + ht) % t == idx % t + ht,
        !low ==> idx - ht >= 0 && (idx - ht) / t == idx / t && (idx - ht) % t == idx % t - ht,
        idx / t < m,
    decreases 0int,
{
    vstd::arithmetic::div_mod::lemma_fundamental_div_mod(idx as int, t);
    vstd::arithmetic::div_mod::lemma_mod_division_less_than_divisor(idx, t);
    vstd::arithmetic::mul::lemma_mul_is_commutative(m, t);
    vstd::arithmetic::div_mod::lemma_multiply_divide_lt(idx, t, m);
    let i = idx / t;
    let r = idx % t;
    if low {
        vstd::arithmetic::div_mod::lemma_fundamental_div_mod_converse(
            idx + ht,
            t,
            i,
            r + ht,
        );
        assert(idx + ht == i * t + (r + ht));
        assert(i < m);
        assert(idx + ht < n) by (nonlinear_arith)
            requires
                idx + ht == i * t + r + ht,
                i < m,
                m * t == n,
                r + ht < t,
                t > 0,
                i >= 0,
        ;
    } else {
        vstd::arithmetic::div_mod::lemma_fundamental_div_mod_converse(
            idx - ht,
            t,
            i,
            r - ht,
        );
    }
}

/// The executable forward transform over 16-bit coefficients.
pub fn ntt_u16(input: &Vec<u16>, p: ParamSet) -> (r: Vec<u16>)
    requires
        coeffs_ok(view16(input@), p.n_spec()),
    ensures
        coeffs_ok(view16(r@), p.n_spec()),
        view16(r@) == ntt_spec(view16(input@), p.log_n_spec()),
{
    let n = p.n();
    let logn = p.log_n();
    let table = ntt_table(p);
    let mut cur: Vec<u16> = Vec::new();
    let mut j: usize = 0;
    while j < input.len()
        invariant
            j <= input@.len(),
            cur@.len() == j,
            forall|k: int| 0 <= k < j ==> cur@[k] == input@[k],
        decreases input@.len() - j,
    {
        cur.push(input[j]);
        j = j + 1;
    }
    proof {
        assert(cur@ =~= input@);
    }
    let mut l: usize = 0;
    while l < logn
        invariant
            coeffs_ok(view16(input@), p.n_spec()),
            n == p.n_spec(),
            logn == p.log_n_spec(),
            table@.len() == n,
            forall|x: int| 0 <= x < table@.len() ==> table@[x] == fwd_twiddle(x as nat),
            forall|x: int| 0 <= x < table@.len() ==> table@[x] < MODULUS,
            l <= logn,
            cur@.len() == n,
            coeffs_ok(view16(cur@), p.n_spec()),
            view16(cur@) == fwd_stages(view16(input@), l as nat),
        decreases logn - l,
    {
        proof {
            lemma_dim_pow2(p, l as nat);
        }
        let next = fwd_stage_exec(&cur, l, &table, n);
        cur = next;
        l = l + 1;
    }
    cur
}

/// One executable inverse stage over 16-bit coefficients.
fn inv_stage_exec(cur: &Vec<u16>, l: usize, table: &Vec<u16>, n: usize) -> (r: Vec<u16>)
    requires
        coeffs_ok(view16(cur@), n as nat),
        n == cur@.len(),
        table@.len() == n,
        forall|x: int| 0 <= x < table@.len() ==> table@[x] == inv_twiddle(x as nat),
        forall|x: int| 0 <= x < table@.len() ==> table@[x] < MODULUS,
        l < 31,
        pow2(l as nat) * 2 <= n,
        (n as nat) % pow2((l + 1) as nat) == 0,
    ensures
        r@.len() == n,
        view16(r@) == inv_stage(view16(cur@), l as nat),
        coeffs_ok(view16(r@), n as nat),
{
    let ghost s = view16(cur@);
    let ghost target = inv_stage(view16(cur@), l as nat);
    let t = pow2_usize(l);
    let dt = t * 2;
    let hm = n / dt;
    proof {
        let p1 = pow2((l + 1) as nat) as int;
        vstd::arithmetic::power2::lemma_pow2_pos((l + 1) as nat);
        vstd::arithmetic::power2::lemma_pow2_unfold((l + 1) as nat);
        vstd::arithmetic::div_mod::lemma_fundamental_div_mod(n as int, p1);
        assert(dt == p1);
        assert(hm * dt == n) by (nonlinear_arith)
            requires
                n == dt * (n as int / dt as int),
                hm == n as int / dt as int,
        ;
        assert(hm * 2 <= n) by (nonlinear_arith)
            requires
                hm * dt == n,
                dt >= 2,
                hm >= 0,
        ;
    }
    let mut out: Vec<u16> = Vec::new();
    let mut idx: usize = 0;
    while idx < n
        invariant
            coeffs_ok(s, n as nat),
            s == view16(cur@),
            n == cur@.len(),
            table@.len() == n,
            forall|x: int| 0 <= x < table@.len() ==> table@[x] == inv_twiddle(x as nat),
            forall|x: int| 0 <= x < table@.len() ==> table@[x] < MODULUS,
            l < 31,
            t == pow2(l as nat),
            t >= 1,
            dt == t * 2,
            hm * dt == n,
            hm == n as int / dt as int,
            hm * 2 <= n,
            target == inv_stage(s, l as nat),
            target.len() == n,
            idx <= n,
            out@.len() == idx,
            forall|k: int| 0 <= k < idx ==> view16(out@)[k] == target[k],
            forall|k: int| 0 <= k < idx ==> #[trigger] out@[k] < MODULUS,
        decreases n - idx,
    {
        proof {
            vstd::arithmetic::div_mod::lemma_fundamental_div_mod(idx as int, dt as int);
            vstd::arithmetic::div_mod::lemma_mod_division_less_than_divisor(
                idx as int,
                dt as int,
            );
            vstd::arithmetic::mul::lemma_mul_is_commutative(hm as int, dt as int);
            vstd::arithmetic::div_mod::lemma_multiply_divide_lt(idx as int, dt as int, hm as int);
        }
        let i = idx / dt;
        let r = idx % dt;
        let q32 = MODULUS;
        let v: u16;
        if r < t {
            proof {
                lemma_pair_index(idx as int, dt as int, t as int, hm as int, n as int, true);
            }
            let u = cur[idx];
            let w = cur[idx + t];
            v = (((u as u32) + (w as u32)) % q32) as u16;
        } else {
            proof {
                lemma_pair_index(idx as int, dt as int, t as int, hm as int, n as int, false);
                assert(s[idx as int] < MODULUS);
                assert(s[idx - t] < MODULUS);
            }
            let u = cur[idx - t];
            let w = cur[idx];
            let d: u32 = ((u as u32) + q32 - (w as u32)) % q32;
            let tw = table[hm + i];
            proof {
                vstd::arithmetic::mul::lemma_mul_upper_bound(d as int, 12288, tw as int, 12288);
            }
            v = ((d * (tw as u32)) % q32) as u16;
        }
        out.push(v);
        proof {
            assert(view16(out@)[idx as int] == target[idx as int]);
            assert forall|k: int| 0 <= k < idx + 1 implies view16(out@)[k] == target[k] by {
                if k < idx {
                    assert(view16(out@)[k] == view16(out@.drop_last())[k]);
                }
            }
        }
        idx = idx + 1;
    }
    proof {
        assert(view16(out@) =~= target);
    }
    out
}

/// The executable inverse transform over 16-bit coefficients.
pub fn inv_ntt_u16(input: &Vec<u16>, p: ParamSet) -> (r: Vec<u16>)
    requires
        coeffs_ok(view16(input@), p.n_spec()),
    ensures
        coeffs_ok(view16(r@), p.n_spec()),
        view16(r@) == inv_ntt_spec(view16(input@), p),
{
    let n = p.n();
    let logn = p.log_n();
    let table = inv_ntt_table(p);
    let mut cur: Vec<u16> = Vec::new();
    let mut j: usize = 0;
    while j < input.len()
        invariant
            j <= input@.len(),
            cur@.len() == j,
            forall|k: int| 0 <= k < j ==> cur@[k] == input@[k],
        decreases input@.len() - j,
    {
        cur.push(input[j]);
        j = j + 1;
    }
    proof {
        assert(cur@ =~= input@);
    }
    let mut l: usize = 0;
    while l < logn
        invariant
            coeffs_ok(view16(input@), p.n_spec()),
            n == p.n_spec(),
            logn == p.log_n_spec(),
            table@.len() == n,
            forall|x: int| 0 <= x < table@.len() ==> table@[x] == inv_twiddle(x as nat),
            forall|x: int| 0 <= x < table@.len() ==> table@[x] < MODULUS,
            l <= logn,
            cur@.len() == n,
            coeffs_ok(view16(cur@), p.n_spec()),
            view16(cur@) == inv_stages(view16(input@), l as nat),
        decreases logn - l,
    {
        proof {
            lemma_dim_pow2(p, l as nat);
        }
        let next = inv_stage_exec(&cur, l, &table, n);
        cur = next;
        l = l + 1;
    }
    let inv_n = p.one_over_n();
    let mut out: Vec<u16> = Vec::new();
    let ghost pre_scale = view16(cur@);
    let mut j2: usize = 0;
    while j2 < n
        invariant
            n == p.n_spec(),
            cur@.len() == n,
            coeffs_ok(pre_scale, p.n_spec()),
            pre_scale == view16(cur@),
            inv_n == p.one_over_n_spec(),
            inv_n < MODULUS,
            j2 <= n,
            out@.len() == j2,
            forall|k: int|
                0 <= k < j2 ==> view16(out@)[k] == pre_scale[k] * p.one_over_n_spec() % (
                MODULUS as nat),
            forall|k: int| 0 <= k < j2 ==> #[trigger] out@[k] < MODULUS,
        decreases n - j2,
    {
        proof {
            assert(pre_scale[j2 as int] < MODULUS);
            vstd::arithmetic::mul::lemma_mul_upper_bound(
                view16(cur@)[j2 as int] as int,
                12288,
                inv_n as int,
                12288,
            );
        }
        let v = (((cur[j2] as u32) * inv_n) % MODULUS) as u16;
        let ghost oldout = out@;
        out.push(v);
        proof {
            assert(view16(out@)[j2 as int] == v as nat);
            assert(v as nat == pre_scale[j2 as int] * p.one_over_n_spec() % (MODULUS as nat));
            assert forall|k: int|
                0 <= k < j2 + 1 implies view16(out@)[k] == pre_scale[k] * p.one_over_n_spec() % (
            MODULUS as nat) by {
                if k < j2 {
                    assert(out@[k] == oldout[k]);
                    assert(view16(oldout)[k] == pre_scale[k] * p.one_over_n_spec() % (
                    MODULUS as nat));
                }
            }
        }
        j2 = j2 + 1;
    }
    proof {
        assert(view16(out@) =~= inv_ntt_spec(view16(input@), p));
    }
    out
}

/// The stage arithmetic of both dimensions: `2^(l+1)` divides N for
/// every stage `l < log2(N)`.
pub(crate) proof fn lemma_dim_pow2(p: ParamSet, l: nat)
    requires
        l < p.log_n_spec(),
    ensures
        pow2(l) * 2 <= p.n_spec(),
        p.n_spec() % pow2((l + 1) as nat) == 0,
        pow2(p.log_n_spec()) == p.n_spec(),
{
    vstd::arithmetic::power2::lemma2_to64();
    vstd::arithmetic::power2::lemma2_to64_rest();
    vstd::arithmetic::power2::lemma_pow2_unfold((l + 1) as nat);
    vstd::arithmetic::power2::lemma_pow2_pos(l);
    if l + 1 <= p.log_n_spec() {
        vstd::arithmetic::power2::lemma_pow2_subtracts((l + 1) as nat, p.log_n_spec());
        vstd::arithmetic::power2::lemma_pow2_adds(
            (l + 1) as nat,
            (p.log_n_spec() - l - 1) as nat,
        );
        vstd::arithmetic::div_mod::lemma_mod_multiples_basic(
            pow2((p.log_n_spec() - l - 1) as nat) as int,
            pow2((l + 1) as nat) as int,
        );
        vstd::arithmetic::power2::lemma_pow2_pos((p.log_n_spec() - l - 1) as nat);
        assert(pow2((l + 1) as nat) * pow2((p.log_n_spec() - l - 1) as nat) == p.n_spec());
        vstd::arithmetic::mul::lemma_mul_is_commutative(
            pow2((l + 1) as nat) as int,
            pow2((p.log_n_spec() - l - 1) as nat) as int,
        );
        vstd::arithmetic::mul::lemma_mul_increases(
            pow2((p.log_n_spec() - l - 1) as nat) as int,
            pow2((l + 1) as nat) as int,
        );
    }
}

} // verus!
