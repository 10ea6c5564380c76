//! Key and signature containers, their unpacking, and plain
//! (non-circuit) signature verification.
//!
//! A public key is a header byte holding log2(N) followed by the
//! 14-bit packing of the key polynomial.  A signature is a header
//! byte, a 40-byte nonce, and the sign-magnitude compressed
//! coefficients.  Verification hashes the message under the nonce,
//! forms `v = hm - s * h`, and checks the squared norm of `(s, v)`
//! against the scheme bound.

use vstd::prelude::*;
use crate::params::{ParamSet, MODULUS};
use crate::decoder::{comp_decode, comp_decode_ok, cd_all, field14, mod_q_decode, mod_q_decode_ok};
use crate::poly::{poly_mul_spec, poly_sub_spec, sq_norm, Polynomial};
use crate::poly_mul::lift_i16;
use crate::transforms::{coeffs_ok, view16};
use crate::dual_poly::DualPolynomial;

verus! {

/// The nonce length of a signature, in bytes.
pub const NONCE_LEN: usize = 40;

/// Which parameter set an encoded public key of this length belongs
/// to, if any.
pub open spec fn pk_param(pkb: Seq<u8>) -> Option<ParamSet> {
    if pkb.len() == 897 {
        Some(ParamSet::Falcon512)
    } else if pkb.len() == 1793 {
        Some(ParamSet::Falcon1024)
    } else {
        None
    }
}

/// Whether an encoded public key unpacks: a known length, the header
/// byte holding log2(N), and a valid 14-bit packing after it.
pub open spec fn pk_ok(pkb: Seq<u8>) -> bool {
    match pk_param(pkb) {
        Option::None => false,
        Option::Some(p) => pkb[0] == p.log_n_spec() && mod_q_decode_ok(
            pkb.skip(1),
            p.n_spec() as int,
        ),
    }
}

/// The key polynomial an encoded public key packs.
pub open spec fn pk_poly_spec(pkb: Seq<u8>, p: ParamSet) -> Seq<nat> {
    Seq::new(p.n_spec(), |i: int| field14(pkb.skip(1), i))
}

/// Whether an encoded signature unpacks for dimension N: long enough
/// for its header and nonce, and a valid compressed coefficient
/// stream after them.
pub open spec fn sig_ok(sigb: Seq<u8>, p: ParamSet) -> bool {
    sigb.len() > 41 && comp_decode_ok(sigb.skip(41), p.n_spec() as int)
}

/// The mod-q residue of a decoded (signed) coefficient.
pub open spec fn lift_int(v: int) -> nat {
    (((v % (MODULUS as int)) + MODULUS) % (MODULUS as int)) as nat
}

/// The signature polynomial an encoded signature packs, as mod-q
/// residues.
pub open spec fn sig_poly_spec(sigb: Seq<u8>, p: ParamSet) -> Seq<nat> {
    Seq::new(
        p.n_spec(),
        |i: int| lift_int(cd_all(sigb.skip(41), 0, p.n_spec() as int).unwrap().0[i]),
    )
}

/// The hashed message of a verification: hash-to-point over the
/// signature's nonce and the message.
pub open spec fn hm_spec(sigb: Seq<u8>, msg: Seq<u8>, p: ParamSet) -> Seq<nat> {
    crate::poly::htp_padded(sigb.subrange(1, 41) + msg, p.n_spec())
}

/// The plain verification relation: everything unpacks, and with
/// `v = hm - s * h`, the squared norm of `(s, v)` is at most the
/// scheme bound.
pub open spec fn verify_rust_spec(pkb: Seq<u8>, msg: Seq<u8>, sigb: Seq<u8>) -> bool {
    match pk_param(pkb) {
        Option::None => false,
        Option::Some(p) => {
            &&& pk_ok(pkb)
            &&& sig_ok(sigb, p)
            &&& {
                let h = pk_poly_spec(pkb, p);
                let s = sig_poly_spec(sigb, p);
                let hm = hm_spec(sigb, msg, p);
                let v = poly_sub_spec(hm, poly_mul_spec(s, h, p));
                sq_norm(s) + sq_norm(v) <= p.sig_l2_bound_spec()
            }
        },
    }
}

/// The positive part of the sign split of reduced coefficients.
pub open spec fn dual_pos_spec(s: Seq<nat>) -> Seq<nat> {
    Seq::new(s.len(), |i: int| if s[i] < 6144 { s[i] } else { 0nat })
}

/// The negative part of the sign split of reduced coefficients.
pub open spec fn dual_neg_spec(s: Seq<nat>) -> Seq<nat> {
    Seq::new(s.len(), |i: int| if s[i] < 6144 { 0nat } else { (MODULUS - s[i]) as nat })
}

/// The sign-split verification relation: as `verify_rust_spec`, but
/// with the products of the two split parts formed separately and
/// recombined, and the norm taken over the split parts.
pub open spec fn verify_parsed_spec(pkb: Seq<u8>, msg: Seq<u8>, sigb: Seq<u8>) -> bool {
    match pk_param(pkb) {
        Option::None => false,
        Option::Some(p) => {
            &&& pk_ok(pkb)
            &&& sig_ok(sigb, p)
            &&& {
                let h = pk_poly_spec(pkb, p);
                let s = sig_poly_spec(sigb, p);
                let pos = dual_pos_spec(s);
                let neg = dual_neg_spec(s);
                let hm = hm_spec(sigb, msg, p);
                let v = crate::poly::poly_add_spec(
                    poly_sub_spec(hm, poly_mul_spec(pos, h, p)),
                    poly_mul_spec(neg, h, p),
                );
                sq_norm(pos) + sq_norm(neg) + sq_norm(v) <= p.sig_l2_bound_spec()
            }
        },
    }
}

/// An encoded public key.
pub struct PublicKey {
    pub bytes: Vec<u8>,
}

/// An encoded signature.
pub struct Signature {
    pub bytes: Vec<u8>,
}

/// An encoded secret key; signing itself is the reference
/// implementation's job and stays outside this library.
pub struct SecretKey {
    pub bytes: Vec<u8>,
}

impl Signature {
    /// The nonce bytes of the signature.
    pub fn nonce(&self) -> (r: Vec<u8>)
        requires
            self.bytes@.len() > 41,
        ensures
            r@ == self.bytes@.subrange(1, 41),
    {
        copy_range(&self.bytes, 1, 41)
    }

    /// Unpacks the compressed coefficients, as signed values.
    pub fn unpack(&self, p: ParamSet) -> (r: Option<Vec<i16>>)
        requires
            self.bytes@.len() < 0x100_0000,
        ensures
            r is Some <==> sig_ok(self.bytes@, p),
            r is Some ==> {
                let v = r.unwrap();
                &&& v@.len() == p.n_spec()
                &&& forall|i: int|
                    0 <= i < v@.len() ==> #[trigger] v@[i] == cd_all(
                        self.bytes@.skip(41),
                        0,
                        p.n_spec() as int,
                    ).unwrap().0[i]
                &&& forall|i: int| 0 <= i < v@.len() ==> -2047 <= #[trigger] v@[i] <= 2047
            },
    {
        if self.bytes.len() <= 41 {
            return None;
        }
        let tail = copy_range(&self.bytes, 41, self.bytes.len());
        proof {
            assert(tail@ =~= self.bytes@.skip(41));
        }
        comp_decode(&tail, p)
    }
}

impl PublicKey {
    /// The raw encoded bytes.
    pub fn as_bytes(&self) -> (r: &Vec<u8>)
        ensures
            r@ == self.bytes@,
    {
        &self.bytes
    }

    /// Unpacks the key polynomial, checking the header byte and the
    /// packing.
    pub fn unpack(&self) -> (r: Option<Polynomial>)
        requires
            self.bytes@.len() < 0x100_0000,
        ensures
            r is Some <==> pk_ok(self.bytes@),
            r is Some ==> {
                let p = pk_param(self.bytes@).unwrap();
                &&& r.unwrap().wf()
                &&& r.unwrap().param_spec() == p
                &&& r.unwrap().view() == pk_poly_spec(self.bytes@, p)
            },
    {
        let p: ParamSet;
        if self.bytes.len() == 897 {
            p = ParamSet::Falcon512;
        } else if self.bytes.len() == 1793 {
            p = ParamSet::Falcon1024;
        } else {
            return None;
        }
        if self.bytes[0] as usize != p.log_n() {
            return None;
        }
        let tail = copy_range(&self.bytes, 1, self.bytes.len());
        proof {
            assert(tail@ =~= self.bytes@.skip(1));
        }
        match mod_q_decode(&tail, p) {
            Option::Some(coeffs) => {
                let poly = Polynomial { coeffs };
                proof {
                    assert(poly.view() =~= pk_poly_spec(self.bytes@, p));
                    assert(coeffs_ok(poly.view(), p.n_spec()));
                }
                Some(poly)
            },
            Option::None => None,
        }
    }

    /// Plain signature verification: unpack everything, hash the
    /// message under the signature's nonce, form `v = hm - s * h`,
    /// and compare the squared norm of `(s, v)` against the bound.
    pub fn verify_rust(&self, message: &[u8], sig: &Signature) -> (r: bool)
        requires
            self.bytes@.len() < 0x100_0000,
            sig.bytes@.len() < 0x100_0000,
        ensures
            r == verify_rust_spec(self.bytes@, message@, sig.bytes@),
    {
        let pk_poly = match self.unpack() {
            Option::Some(pp) => pp,
            Option::None => {
                return false;
            },
        };
        let p = pk_poly.param();
        let sig_ints = match sig.unpack(p) {
            Option::Some(si) => si,
            Option::None => {
                return false;
            },
        };
        let sig_poly = lift_signed_pub(&sig_ints);
        proof {
            lemma_lift_matches(sig_ints@);
            assert forall|i: int| 0 <= i < sig_poly.view().len() implies sig_poly.view()[i]
                == sig_poly_spec(sig.bytes@, p)[i] by {
                assert(sig_poly.view()[i] == lift_i16(sig_ints@[i]));
                assert(lift_i16(sig_ints@[i]) == lift_int(sig_ints@[i] as int));
                assert(sig_ints@[i] == cd_all(sig.bytes@.skip(41), 0, p.n_spec() as int).unwrap().0[i]);
            }
            assert(sig_poly.view() =~= sig_poly_spec(sig.bytes@, p));
            assert(coeffs_ok(sig_poly.view(), p.n_spec()));
        }
        let nonce = sig.nonce();
        let hm = Polynomial::from_hash_of_message(message, nonce.as_slice(), p);
        proof {
            assert(nonce@ + message@ =~= sig.bytes@.subrange(1, 41) + message@);
        }
        let uh = sig_poly.mul(&pk_poly);
        let v = hm.sub(&uh);
        let n1 = sig_poly.l2_norm();
        let n2 = v.l2_norm();
        proof {
            crate::dual_poly::lemma_sq_norm_bound(sig_poly.view());
            crate::dual_poly::lemma_sq_norm_bound(v.view());
        }
        let norm = n1 + n2;
        norm <= p.sig_l2_bound() as u64
    }

    /// Verification through the sign-split representation: the
    /// products with each part are formed separately and recombined,
    /// which mirrors what the sign-split circuit proves.
    pub fn verify_parsed_sig(&self, message: &[u8], sig: &Signature) -> (r: bool)
        requires
            self.bytes@.len() < 0x100_0000,
            sig.bytes@.len() < 0x100_0000,
        ensures
            r == verify_parsed_spec(self.bytes@, message@, sig.bytes@),
    {
        let pk_poly = match self.unpack() {
            Option::Some(pp) => pp,
            Option::None => {
                return false;
            },
        };
        let p = pk_poly.param();
        let sig_ints = match sig.unpack(p) {
            Option::Some(si) => si,
            Option::None => {
                return false;
            },
        };
        let sig_poly = lift_signed_pub(&sig_ints);
        proof {
            lemma_lift_matches(sig_ints@);
            assert forall|i: int| 0 <= i < sig_poly.view().len() implies sig_poly.view()[i]
                == sig_poly_spec(sig.bytes@, p)[i] by {
                assert(sig_poly.view()[i] == lift_i16(sig_ints@[i]));
                assert(lift_i16(sig_ints@[i]) == lift_int(sig_ints@[i] as int));
                assert(sig_ints@[i] == cd_all(sig.bytes@.skip(41), 0, p.n_spec() as int).unwrap().0[i]);
            }
            assert(sig_poly.view() =~= sig_poly_spec(sig.bytes@, p));
            assert(coeffs_ok(sig_poly.view(), p.n_spec()));
        }
        let dual = DualPolynomial::from_poly(&sig_poly);
        proof {
            assert(dual.pos.view() =~= dual_pos_spec(sig_poly.view()));
            assert(dual.neg.view() =~= dual_neg_spec(sig_poly.view()));
        }
        let nonce = sig.nonce();
        let hm = Polynomial::from_hash_of_message(message, nonce.as_slice(), p);
        proof {
            assert(nonce@ + message@ =~= sig.bytes@.subrange(1, 41) + message@);
        }
        let uh_pos = dual.pos.mul(&pk_poly);
        let uh_neg = dual.neg.mul(&pk_poly);
        let v = hm.sub(&uh_pos).add(&uh_neg);
        let n1 = dual.l2_norm();
        let n2 = v.l2_norm();
        proof {
            crate::dual_poly::lemma_sq_norm_bound(dual.pos.view());
            crate::dual_poly::lemma_sq_norm_bound(dual.neg.view());
            crate::dual_poly::lemma_sq_norm_bound(v.view());
        }
        let norm = n1 + n2;
        norm <= p.sig_l2_bound() as u64
    }
}

/// The view of the lifted signature equals the decoded-signature
/// polynomial of the raw bytes.
pub proof fn lemma_sig_poly_view(v: Seq<i16>, poly: Polynomial, sigb: Seq<u8>, p: ParamSet)
    requires
        v.len() == p.n_spec(),
        poly.coeffs@.len() == v.len(),
        poly.wf(),
        forall|i: int| 0 <= i < v.len() ==> poly.view()[i] == lift_i16(#[trigger] v[i]),
        forall|i: int| 0 <= i < v.len() ==> -2047 <= #[trigger] v[i] <= 2047,
        forall|i: int|
            0 <= i < v.len() ==> #[trigger] v[i] == cd_all(
                sigb.skip(41),
                0,
                p.n_spec() as int,
            ).unwrap().0[i],
    ensures
        poly.view() == sig_poly_spec(sigb, p),
        poly.param_spec() == p,
{
    lemma_lift_matches(v);
    assert forall|i: int| 0 <= i < poly.view().len() implies poly.view()[i] == sig_poly_spec(
        sigb,
        p,
    )[i] by {
        assert(poly.view()[i] == lift_i16(v[i]));
        assert(lift_i16(v[i]) == lift_int(v[i] as int));
    }
    assert(poly.view() =~= sig_poly_spec(sigb, p));
}

/// The branching residue of a small signed value agrees with the
/// euclidean one.
proof fn lemma_lift_matches(v: Seq<i16>)
    ensures
        forall|i: int|
            0 <= i < v.len() && -2047 <= v[i] <= 2047 ==> lift_i16(#[trigger] v[i]) == lift_int(
                v[i] as int,
            ),
{
    assert forall|i: int| 0 <= i < v.len() && -2047 <= v[i] <= 2047 implies lift_i16(
        #[trigger] v[i],
    ) == lift_int(v[i] as int) by {
        let x = v[i] as int;
        if x >= 0 {
            vstd::arithmetic::div_mod::lemma_small_mod(x as nat, MODULUS as nat);
            vstd::arithmetic::div_mod::lemma_mod_add_multiples_vanish(x, MODULUS as int);
        } else {
            vstd::arithmetic::div_mod::lemma_small_mod((-x) as nat, MODULUS as nat);
            vstd::arithmetic::div_mod::lemma_small_mod((MODULUS + x) as nat, MODULUS as nat);
            vstd::arithmetic::div_mod::lemma_mod_add_multiples_vanish(x, MODULUS as int);
        }
    }
}

/// Lifts signed coefficients to their mod-q residues.
pub fn lift_signed_pub(v: &Vec<i16>) -> (r: Polynomial)
    requires
        v@.len() == 512 || v@.len() == 1024,
        forall|i: int| 0 <= i < v@.len() ==> -2047 <= #[trigger] v@[i] <= 2047,
    ensures
        r.coeffs@.len() == v@.len(),
        r.wf(),
        forall|i: int| 0 <= i < v@.len() ==> r.view()[i] == lift_i16(#[trigger] v@[i]),
{
    let n = v.len();
    let mut coeffs: Vec<u16> = Vec::new();
    let mut i: usize = 0;
    while i < n
        invariant
            n == v@.len(),
            forall|k: int| 0 <= k < n ==> -2047 <= #[trigger] v@[k] <= 2047,
            i <= n,
            coeffs@.len() == i,
            forall|k: int| 0 <= k < i ==> view16(coeffs@)[k] == lift_i16(v@[k]),
            forall|k: int| 0 <= k < i ==> #[trigger] coeffs@[k] < MODULUS,
        decreases n - i,
    {
        let x = v[i];
        let m: u16;
        if x >= 0 {
            m = ((x as u32) % (MODULUS)) as u16;
        } else {
            m = ((MODULUS - (((-(x as i32)) as u32) % MODULUS)) % MODULUS) as u16;
        }
        let ghost oldc = coeffs@;
        coeffs.push(m);
        proof {
            assert forall|k: int| 0 <= k < i + 1 implies view16(coeffs@)[k] == lift_i16(
                v@[k],
            ) by {
                if k < i {
                    assert(coeffs@[k] == oldc[k]);
                    assert(view16(oldc)[k] == lift_i16(v@[k]));
                }
            }
        }
        i = i + 1;
    }
    let r = Polynomial { coeffs };
    proof {
        assert(coeffs_ok(r.view(), n as nat));
    }
    r
}

/// A copy of a byte range.
fn copy_range(v: &Vec<u8>, from: usize, to: usize) -> (r: Vec<u8>)
    requires
        from <= to <= v@.len(),
    ensures
        r@ == v@.subrange(from as int, to as int),
{
    let mut out: Vec<u8> = Vec::new();
    let mut i: usize = from;
    while i < to
        invariant
            from <= i <= to <= v@.len(),
            out@.len() == i - from,
            forall|k: int| 0 <= k < i - from ==> out@[k] == v@[from + k],
        decreases to - i,
    {
        out.push(v[i]);
        i = i + 1;
    }
    proof {
        assert(out@ =~= v@.subrange(from as int, to as int));
    }
    out
}

} // verus!
