//! Range proofs at their exact boundaries.

use falcon_zk::{
    assert_const_sig, enforce_leq_765, enforce_less_than_1024, enforce_less_than_norm_bound,
    enforce_less_than_norm_bound_512, enforce_less_than_q, is_less_than_6144, CircuitBuilder,
    ParamSet, Wide, MODULUS,
};
use rand_chacha::ChaCha20Rng;
use rand_core::{RngCore, SeedableRng};

fn check_leq_765(value: u64, satisfied: bool) {
    let mut cs = CircuitBuilder::new();
    let a = cs.alloc_witness(Wide::from_u64(value));
    enforce_leq_765(&mut cs, a);
    assert_eq!(cs.check_satisfied(&vec![]), satisfied);
}

#[test]
fn test_enforce_leq_765() {
    check_leq_765(42, true);
    check_leq_765(0, true);
    check_leq_765(764, true);
    check_leq_765(765, true);
    check_leq_765(766, false);
    check_leq_765(767, false);
    check_leq_765(MODULUS as u64, false);
    check_leq_765(2048, false);
    let mut rng = ChaCha20Rng::from_seed([0u8; 32]);
    for _ in 0..100 {
        let t = (rng.next_u32() % 2048) as u64;
        check_leq_765(t, t <= 765);
    }
}

fn check_less_than_q(value: u64, satisfied: bool) {
    let mut cs = CircuitBuilder::new();
    let a = cs.alloc_witness(Wide::from_u64(value));
    enforce_less_than_q(&mut cs, a);
    assert_eq!(cs.check_satisfied(&vec![]), satisfied);
}

#[test]
fn test_enforce_less_than_q() {
    check_less_than_q(42, true);
    check_less_than_q(0, true);
    check_less_than_q(12287, true);
    check_less_than_q(12288, true);
    check_less_than_q(12289, false);
    check_less_than_q(12290, false);
    let mut rng = ChaCha20Rng::from_seed([0u8; 32]);
    for _ in 0..100 {
        let t = (rng.next_u32() % (1 << 14)) as u64;
        check_less_than_q(t, t < MODULUS as u64);
    }
}

#[test]
fn test_range_proof_mod_q() {
    check_less_than_q(42, true);
    check_less_than_q(0, true);
    check_less_than_q(1 << 12, true);
    check_less_than_q(1 << 13, true);
    check_less_than_q(MODULUS as u64 - 1, true);
    check_less_than_q(MODULUS as u64, false);
    check_less_than_q(MODULUS as u64 + 1, false);
    check_less_than_q(MODULUS as u64 * 10000, false);
    let mut rng = ChaCha20Rng::from_seed([1u8; 32]);
    for _ in 0..100 {
        let t = (rng.next_u32() % (1 << 15)) as u64;
        check_less_than_q(t, t < MODULUS as u64);
    }
}

fn check_norm_bound(p: ParamSet, value: u64, satisfied: bool) {
    let mut cs = CircuitBuilder::new();
    let a = cs.alloc_witness(Wide::from_u64(value));
    enforce_less_than_norm_bound(&mut cs, p, a);
    assert_eq!(cs.check_satisfied(&vec![]), satisfied);
}

#[test]
fn test_range_proof_norm_bound() {
    let bound = 34034726u64;
    check_norm_bound(ParamSet::Falcon512, 42, true);
    check_norm_bound(ParamSet::Falcon512, 0, true);
    check_norm_bound(ParamSet::Falcon512, 1 << 25, true);
    check_norm_bound(ParamSet::Falcon512, 1 << 24, true);
    check_norm_bound(ParamSet::Falcon512, bound - 1, true);
    check_norm_bound(ParamSet::Falcon512, bound, false);
    check_norm_bound(ParamSet::Falcon512, bound + 1, false);
    check_norm_bound(ParamSet::Falcon512, 1 << 26, false);
    check_norm_bound(ParamSet::Falcon512, 1 << 27, false);
    let bound1024 = 70265242u64;
    check_norm_bound(ParamSet::Falcon1024, 1 << 26, true);
    check_norm_bound(ParamSet::Falcon1024, bound1024 - 1, true);
    check_norm_bound(ParamSet::Falcon1024, bound1024, false);
    check_norm_bound(ParamSet::Falcon1024, bound1024 + 1, false);
    check_norm_bound(ParamSet::Falcon1024, 1 << 27, false);
    let mut rng = ChaCha20Rng::from_seed([0u8; 32]);
    for _ in 0..50 {
        let t = (rng.next_u32() % (1 << 27)) as u64;
        check_norm_bound(ParamSet::Falcon512, t, t < bound);
    }
    // the hand-specialized variant agrees at the boundary
    let mut cs = CircuitBuilder::new();
    let a = cs.alloc_witness(Wide::from_u64(bound - 1));
    enforce_less_than_norm_bound_512(&mut cs, a);
    assert!(cs.check_satisfied(&vec![]));
}

fn check_half_q(value: u64, satisfied: bool) {
    let mut cs = CircuitBuilder::new();
    let a = cs.alloc_witness(Wide::from_u64(value));
    let is_less = is_less_than_6144(&mut cs, a);
    assert_const_sig(&mut cs, is_less, 1);
    assert_eq!(cs.check_satisfied(&vec![]), satisfied);
}

#[test]
fn test_range_proof_half_q() {
    check_half_q(42, true);
    check_half_q(0, true);
    check_half_q(6143, true);
    check_half_q(6144, false);
    check_half_q(6145, false);
    check_half_q(MODULUS as u64, false);
    let mut rng = ChaCha20Rng::from_seed([0u8; 32]);
    for _ in 0..100 {
        let t = (rng.next_u32() % (1 << 15)) as u64;
        check_half_q(t, t < 6144);
    }
}

fn check_less_1024(value: u64, satisfied: bool) {
    let mut cs = CircuitBuilder::new();
    let a = cs.alloc_witness(Wide::from_u64(value));
    enforce_less_than_1024(&mut cs, a);
    assert_eq!(cs.check_satisfied(&vec![]), satisfied);
}

#[test]
fn test_enforce_less_than_1024() {
    check_less_1024(42, true);
    check_less_1024(0, true);
    check_less_1024(1023, true);
    check_less_1024(1024, false);
    check_less_1024(1025, false);
    check_less_1024(MODULUS as u64, false);
    let mut rng = ChaCha20Rng::from_seed([0u8; 32]);
    for _ in 0..100 {
        let t = (rng.next_u32() % 2048) as u64;
        check_less_1024(t, t < 1024);
    }
}
