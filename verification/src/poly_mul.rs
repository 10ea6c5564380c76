//! Polynomial multiplication over plain word vectors: the transform
//! pair on 32-bit words, pointwise transform-domain multiplication,
//! and the signed schoolbook product used on decoded signatures.

use vstd::prelude::*;
use crate::params::{ParamSet, MODULUS};
use crate::poly::{conv_at, pointwise_mul, pointwise_mul_spec, Polynomial};
use crate::transforms::{coeffs_ok, inv_ntt_spec, inv_ntt_u16, ntt_spec, ntt_u16, view16};

verus! {

/// The view of 32-bit words as a coefficient sequence.
pub open spec fn view32(v: Seq<u32>) -> Seq<nat> {
    v.map_values(|x: u32| x as nat)
}

/// 32-bit words narrowed to 16 bits; coefficients are below q.
fn narrow(v: &Vec<u32>) -> (r: Vec<u16>)
    requires
        forall|i: int| 0 <= i < v@.len() ==> #[trigger] v@[i] < MODULUS,
    ensures
        r@.len() == v@.len(),
        view16(r@) == view32(v@),
        forall|i: int| 0 <= i < r@.len() ==> #[trigger] r@[i] < MODULUS,
{
    let mut out: Vec<u16> = Vec::new();
    let mut i: usize = 0;
    while i < v.len()
        invariant
            forall|k: int| 0 <= k < v@.len() ==> #[trigger] v@[k] < MODULUS,
            i <= v@.len(),
            out@.len() == i,
            forall|k: int| 0 <= k < i ==> out@[k] == v@[k],
        decreases v@.len() - i,
    {
        out.push(v[i] as u16);
        i = i + 1;
    }
    proof {
        assert(view16(out@) =~= view32(v@));
    }
    out
}

/// 16-bit coefficients widened back to 32 bits.
fn widen(v: &Vec<u16>) -> (r: Vec<u32>)
    ensures
        r@.len() == v@.len(),
        view32(r@) == view16(v@),
        forall|i: int| 0 <= i < r@.len() ==> #[trigger] r@[i] == v@[i],
{
    let mut out: Vec<u32> = Vec::new();
    let mut i: usize = 0;
    while i < v.len()
        invariant
            i <= v@.len(),
            out@.len() == i,
            forall|k: int| 0 <= k < i ==> out@[k] == v@[k],
        decreases v@.len() - i,
    {
        out.push(v[i] as u32);
        i = i + 1;
    }
    proof {
        assert(view32(out@) =~= view16(v@));
    }
    out
}

/// The forward transform over 32-bit words.
pub fn ntt(input: &Vec<u32>, p: ParamSet) -> (r: Vec<u32>)
    requires
        input@.len() == p.n_spec(),
        forall|i: int| 0 <= i < input@.len() ==> #[trigger] input@[i] < MODULUS,
    ensures
        r@.len() == p.n_spec(),
        view32(r@) == ntt_spec(view32(input@), p.log_n_spec()),
        forall|i: int| 0 <= i < r@.len() ==> #[trigger] r@[i] < MODULUS,
{
    let x = narrow(input);
    proof {
        assert forall|i: int| 0 <= i < view16(x@).len() implies #[trigger] view16(x@)[i]
            < MODULUS by {
            assert(view16(x@)[i] == x@[i] as nat);
        }
    }
    let y = ntt_u16(&x, p);
    proof {
        assert forall|i: int| 0 <= i < y@.len() implies #[trigger] y@[i] < MODULUS by {
            assert(view16(y@)[i] == y@[i] as nat);
        }
    }
    widen(&y)
}

/// The inverse transform over 32-bit words.
pub fn inv_ntt(input: &Vec<u32>, p: ParamSet) -> (r: Vec<u32>)
    requires
        input@.len() == p.n_spec(),
        forall|i: int| 0 <= i < input@.len() ==> #[trigger] input@[i] < MODULUS,
    ensures
        r@.len() == p.n_spec(),
        view32(r@) == inv_ntt_spec(view32(input@), p),
        forall|i: int| 0 <= i < r@.len() ==> #[trigger] r@[i] < MODULUS,
{
    let x = narrow(input);
    proof {
        assert forall|i: int| 0 <= i < view16(x@).len() implies #[trigger] view16(x@)[i]
            < MODULUS by {
            assert(view16(x@)[i] == x@[i] as nat);
        }
    }
    let y = inv_ntt_u16(&x, p);
    proof {
        assert forall|i: int| 0 <= i < y@.len() implies #[trigger] y@[i] < MODULUS by {
            assert(view16(y@)[i] == y@[i] as nat);
        }
    }
    widen(&y)
}

/// The pointwise product mod q of two transform-domain word vectors.
pub fn ntt_mul(a: &Vec<u32>, b: &Vec<u32>) -> (r: Vec<u32>)
    requires
        a@.len() == b@.len(),
        forall|i: int| 0 <= i < a@.len() ==> #[trigger] a@[i] < MODULUS,
        forall|i: int| 0 <= i < b@.len() ==> #[trigger] b@[i] < MODULUS,
    ensures
        r@.len() == a@.len(),
        view32(r@) == pointwise_mul_spec(view32(a@), view32(b@)),
        forall|i: int| 0 <= i < r@.len() ==> #[trigger] r@[i] < MODULUS,
{
    let x = narrow(a);
    let y = narrow(b);
    let z = pointwise_mul(&x, &y);
    proof {
        assert forall|i: int| 0 <= i < z@.len() implies #[trigger] z@[i] < MODULUS by {
            assert(view16(z@)[i] == z@[i] as nat);
        }
    }
    let r = widen(&z);
    proof {
        assert(view32(r@) =~= pointwise_mul_spec(view32(a@), view32(b@)));
    }
    r
}

/// The mod-q residue of a signed 16-bit coefficient.
pub open spec fn lift_i16(x: i16) -> nat {
    if x >= 0 {
        (x as nat) % (MODULUS as nat)
    } else {
        (((MODULUS as int) - ((-(x as int)) % (MODULUS as int))) % (MODULUS as int)) as nat
    }
}

/// The mod-q residues of a signed coefficient vector.
pub open spec fn lift_i16_seq(v: Seq<i16>) -> Seq<nat> {
    v.map_values(|x: i16| lift_i16(x))
}

/// The centered negacyclic schoolbook product of an unsigned and a
/// signed coefficient vector: output coefficients lie in
/// [-(q-1)/2, (q-1)/2] and are congruent mod q to the wrapped
/// convolution of the inputs' residues.
pub fn schoolbook_mul(a: &Vec<u16>, b: &Vec<i16>) -> (r: Vec<i16>)
    requires
        a@.len() == b@.len(),
        a@.len() == 512 || a@.len() == 1024,
        forall|i: int| 0 <= i < a@.len() ==> #[trigger] a@[i] < MODULUS,
    ensures
        r@.len() == a@.len(),
        forall|k: int| 0 <= k < r@.len() ==> -6144 <= #[trigger] r@[k] <= 6144,
        forall|k: int|
            0 <= k < r@.len() ==> (((#[trigger] r@[k] + MODULUS) as int % (MODULUS as int))
                + conv_at(view16(a@), lift_i16_seq(b@), k + a@.len())) % (MODULUS as int)
                == (conv_at(view16(a@), lift_i16_seq(b@), k) as int) % (MODULUS as int),
{
    let n = a.len();
    let mut bm: Vec<u16> = Vec::new();
    let mut i: usize = 0;
    while i < n
        invariant
            n == b@.len(),
            i <= n,
            bm@.len() == i,
            forall|k: int| 0 <= k < i ==> view16(bm@)[k] == lift_i16(b@[k]),
            forall|k: int| 0 <= k < i ==> #[trigger] bm@[k] < MODULUS,
        decreases n - i,
    {
        let x = b[i];
        let m: u16;
        if x >= 0 {
            m = ((x as u32) % MODULUS) as u16;
        } else {
            m = ((MODULUS - (((-(x as i32)) as u32) % MODULUS)) % MODULUS) as u16;
        }
        let ghost oldb = bm@;
        bm.push(m);
        proof {
            assert forall|k: int| 0 <= k < i + 1 implies view16(bm@)[k] == lift_i16(b@[k]) by {
                if k < i {
                    assert(bm@[k] == oldb[k]);
                    assert(view16(oldb)[k] == lift_i16(b@[k]));
                }
            }
        }
        i = i + 1;
    }
    proof {
        assert(view16(bm@) =~= lift_i16_seq(b@));
    }
    let pa = Polynomial { coeffs: clone16(a) };
    let pb = Polynomial { coeffs: bm };
    proof {
        assert(coeffs_ok(pa.view(), n as nat));
        assert(coeffs_ok(pb.view(), n as nat));
    }
    let prod = Polynomial::schoolbook_mul(&pa, &pb);
    let mut out: Vec<i16> = Vec::new();
    let mut k: usize = 0;
    while k < n
        invariant
            n == prod.coeffs@.len(),
            n == a@.len(),
            prod.wf(),
            pa.view() == view16(a@),
            pb.view() == lift_i16_seq(b@),
            forall|kk: int|
                0 <= kk < n ==> ((#[trigger] prod.view()[kk] + conv_at(
                    view16(a@),
                    lift_i16_seq(b@),
                    kk + n,
                )) % (MODULUS as nat) == conv_at(view16(a@), lift_i16_seq(b@), kk) % (
                MODULUS as nat)) && prod.view()[kk] < MODULUS,
            k <= n,
            out@.len() == k,
            forall|kk: int| 0 <= kk < k ==> -6144 <= #[trigger] out@[kk] <= 6144,
            forall|kk: int|
                0 <= kk < k ==> ((#[trigger] out@[kk] + MODULUS) as int % (MODULUS as int))
                    == prod.view()[kk],
        decreases n - k,
    {
        proof {
            assert(prod.view()[k as int] < MODULUS);
        }
        let v = prod.coeffs[k];
        let c: i16;
        if v > MODULUS_MINUS_1_OVER_TWO_U16 {
            c = (v as i32 - MODULUS as i32) as i16;
        } else {
            c = v as i16;
        }
        let ghost oldo = out@;
        out.push(c);
        proof {
            vstd::arithmetic::div_mod::lemma_small_mod(
                ((c + MODULUS) as int % (MODULUS as int)) as nat,
                MODULUS as nat,
            );
            assert((c + MODULUS) as int % (MODULUS as int) == prod.view()[k as int]) by {
                if v > 6144 {
                    assert(c == v - 12289);
                    assert((c + 12289) as int == v as int);
                    vstd::arithmetic::div_mod::lemma_small_mod(v as nat, MODULUS as nat);
                } else {
                    assert((c + 12289) as int == v + 12289);
                    vstd::arithmetic::div_mod::lemma_mod_add_multiples_vanish(v as int, 12289);
                    vstd::arithmetic::div_mod::lemma_small_mod(v as nat, MODULUS as nat);
                }
            }
            assert forall|kk: int|
                0 <= kk < k + 1 implies -6144 <= #[trigger] out@[kk] <= 6144 && ((out@[kk]
                + MODULUS) as int % (MODULUS as int)) == prod.view()[kk] by {
                if kk < k {
                    assert(out@[kk] == oldo[kk]);
                }
            }
        }
        k = k + 1;
    }
    out
}

/// (q - 1) / 2 as a 16-bit constant.
pub const MODULUS_MINUS_1_OVER_TWO_U16: u16 = 6144;

/// A plain copy of a coefficient vector.
fn clone16(v: &Vec<u16>) -> (r: Vec<u16>)
    ensures
        r@ == v@,
{
    let mut out: Vec<u16> = Vec::new();
    let mut i: usize = 0;
    while i < v.len()
        invariant
            i <= v@.len(),
            out@.len() == i,
            forall|k: int| 0 <= k < i ==> out@[k] == v@[k],
        decreases v@.len() - i,
    {
        out.push(v[i]);
        i = i + 1;
    }
    proof {
        assert(out@ =~= v@);
    }
    out
}

} // verus!
