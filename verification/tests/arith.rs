//! Cleartext ring arithmetic: transform round trips, multiplication
//! consistency, and the sign-split conversions.

use falcon_zk::poly_mul;
use falcon_zk::{
    inv_ntt, ntt, DualNTTPolynomial, DualPolynomial, NTTPolynomial, ParamSet, Polynomial, MODULUS,
};
use rand_chacha::ChaCha20Rng;
use rand_core::{RngCore, SeedableRng};

#[test]
fn test_ntt_conversion() {
    let mut rng = ChaCha20Rng::from_seed([0u8; 32]);
    for _ in 0..100 {
        let t = Polynomial::rand(&mut rng, ParamSet::Falcon512);
        let t_ntt = ntt(&t);
        let t_rec = inv_ntt(&t_ntt);
        assert_eq!(t.coeff(), t_rec.coeff());
    }
}

#[test]
fn test_polynomial_mul() {
    let mut rng = ChaCha20Rng::from_seed([0u8; 32]);
    for _ in 0..20 {
        let t1 = Polynomial::rand(&mut rng, ParamSet::Falcon512);
        let t2 = Polynomial::rand(&mut rng, ParamSet::Falcon512);
        let tt = Polynomial::schoolbook_mul(&t1, &t2);
        let t = t1.mul(&t2);
        assert_eq!(tt.coeff(), t.coeff());
    }
}

#[test]
fn test_ntt_clear() {
    let mut rng = ChaCha20Rng::from_seed([0u8; 32]);
    for _ in 0..100 {
        let input: Vec<u32> = (0..512).map(|_| rng.next_u32() % MODULUS).collect();
        let f = poly_mul::ntt(&input, ParamSet::Falcon512);
        let output = poly_mul::inv_ntt(&f, ParamSet::Falcon512);
        assert_eq!(input, output);
    }
}

#[test]
fn test_ntt_mul_matches_schoolbook() {
    let mut rng = ChaCha20Rng::from_seed([7u8; 32]);
    let a16: Vec<u16> = (0..512).map(|_| (rng.next_u32() % MODULUS) as u16).collect();
    let b16: Vec<i16> = (0..512).map(|_| (rng.next_u32() % 601) as i16 - 300).collect();
    let sb = poly_mul::schoolbook_mul(&a16, &b16);
    // the same product through the transform
    let a32: Vec<u32> = a16.iter().map(|&x| x as u32).collect();
    let b32: Vec<u32> = b16
        .iter()
        .map(|&x| if x >= 0 { x as u32 } else { (MODULUS as i32 + x as i32) as u32 })
        .collect();
    let fa = poly_mul::ntt(&a32, ParamSet::Falcon512);
    let fb = poly_mul::ntt(&b32, ParamSet::Falcon512);
    let fc = poly_mul::ntt_mul(&fa, &fb);
    let c = poly_mul::inv_ntt(&fc, ParamSet::Falcon512);
    for i in 0..512 {
        let centered = if c[i] > 6144 { c[i] as i32 - MODULUS as i32 } else { c[i] as i32 };
        assert_eq!(centered, sb[i] as i32);
    }
}

#[test]
fn test_dual_poly_conversion() {
    let mut rng = ChaCha20Rng::from_seed([0u8; 32]);
    for _ in 0..100 {
        let poly = Polynomial::rand(&mut rng, ParamSet::Falcon512);
        let dual = DualPolynomial::from_poly(&poly);
        let rec = dual.to_poly();
        assert_eq!(poly.coeff(), rec.coeff());
    }
}

#[test]
fn test_dual_mul_by_poly() {
    let mut rng = ChaCha20Rng::from_seed([4u8; 32]);
    let a = Polynomial::rand(&mut rng, ParamSet::Falcon512);
    let b = Polynomial::rand(&mut rng, ParamSet::Falcon512);
    let dual = DualPolynomial::from_poly(&a);
    let prod = dual.mul_by_poly(&b);
    // (pos - neg) * b recombines to a * b mod q
    let direct = a.mul(&b);
    let recombined = prod.pos.sub(&prod.neg);
    assert_eq!(direct.coeff(), recombined.coeff());
    // the transform-domain split multiplies the same way
    let dual_ntt = DualNTTPolynomial::from_dual(&dual);
    let prod_ntt = dual_ntt.mul_by_poly(&ntt(&b));
    let rec = prod_ntt.to_ntt_poly();
    assert_eq!(ntt(&direct).coeff(), rec.coeff());
}

#[test]
fn test_dual_ntt_poly_conversion() {
    let mut rng = ChaCha20Rng::from_seed([0u8; 32]);
    for _ in 0..100 {
        let poly = Polynomial::rand(&mut rng, ParamSet::Falcon512);
        let poly_ntt = ntt(&poly);
        let dual = DualPolynomial::from_poly(&poly);
        let dual_ntt = DualNTTPolynomial::from_dual(&dual);
        let rec = dual_ntt.to_ntt_poly();
        assert_eq!(poly_ntt.coeff(), rec.coeff());
    }
}

#[test]
fn test_poly_add_sub_cancel() {
    let mut rng = ChaCha20Rng::from_seed([1u8; 32]);
    let a = Polynomial::rand(&mut rng, ParamSet::Falcon512);
    let b = Polynomial::rand(&mut rng, ParamSet::Falcon512);
    let s = a.add(&b);
    let d = s.sub(&b);
    assert_eq!(a.coeff(), d.coeff());
}

#[test]
fn test_one_is_multiplicative_identity() {
    let mut rng = ChaCha20Rng::from_seed([2u8; 32]);
    let a = Polynomial::rand(&mut rng, ParamSet::Falcon512);
    let one = Polynomial::one(ParamSet::Falcon512);
    let prod = a.mul(&one);
    assert_eq!(a.coeff(), prod.coeff());
}

#[test]
fn test_neg_mod_q_and_norm() {
    let p = Polynomial::one(ParamSet::Falcon512);
    let n = p.neg_mod_q();
    assert_eq!(n.coeff()[0], MODULUS as u16 - 1);
    assert_eq!(n.coeff()[1], 0);
    // one squared coefficient of 1 in either sign
    assert_eq!(p.l2_norm(), 1);
    assert_eq!(n.l2_norm(), 1);
}

#[test]
fn test_hash_to_point_deterministic() {
    let a = Polynomial::from_hash_of_message(b"message", b"nonce", ParamSet::Falcon512);
    let b = Polynomial::from_hash_of_message(b"message", b"nonce", ParamSet::Falcon512);
    let c = Polynomial::from_hash_of_message(b"other", b"nonce", ParamSet::Falcon512);
    assert_eq!(a.coeff(), b.coeff());
    assert_ne!(a.coeff(), c.coeff());
    assert!(a.coeff().iter().all(|&x| x < MODULUS as u16));
}

#[test]
fn test_from_seed_deterministic() {
    let a = NTTPolynomial::from_seed(&[9u8; 32], ParamSet::Falcon512);
    let b = NTTPolynomial::from_seed(&[9u8; 32], ParamSet::Falcon512);
    assert_eq!(a.coeff(), b.coeff());
}

#[test]
fn test_to_bytes_layout() {
    let one = Polynomial::one(ParamSet::Falcon512);
    let bytes = one.to_bytes();
    assert_eq!(bytes.len(), 1024);
    assert_eq!(bytes[0], 0);
    assert_eq!(bytes[1], 1);
    assert_eq!(bytes[2], 0);
}

#[test]
fn test_l2_norm_slices() {
    let a: Vec<i16> = vec![3, -4];
    let b: Vec<i16> = vec![12];
    assert_eq!(falcon_zk::l2_norm(&a, &b), 9 + 16 + 144);
}
