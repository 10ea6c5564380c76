//! Modular-arithmetic gadgets: satisfiability on the good paths and
//! unsatisfiability when a wrong output is forced.

use falcon_zk::{
    add_mod, assert_eq_sig, inner_product_mod, mod_q, mul_mod, sub_mod, CircuitBuilder, Wide,
    MODULUS,
};
use rand_chacha::ChaCha20Rng;
use rand_core::{RngCore, SeedableRng};

fn check_mod_q(a: u64, b: u64, satisfied: bool) {
    let mut cs = CircuitBuilder::new();
    let a_var = cs.alloc_witness(Wide::from_u64(a));
    let b_var = mod_q(&mut cs, a_var);
    let b_var2 = cs.alloc_witness(Wide::from_u64(b));
    assert_eq_sig(&mut cs, b_var, b_var2);
    assert_eq!(cs.check_satisfied(&vec![]), satisfied);
}

#[test]
fn test_mod_q() {
    check_mod_q(6, 6, true);
    check_mod_q(0, 0, true);
    check_mod_q(MODULUS as u64, 0, true);
    check_mod_q(MODULUS as u64 + 1, 1, true);
    check_mod_q(6, 7, false);
    check_mod_q(5, MODULUS as u64 - 1, false);
    let mut rng = ChaCha20Rng::from_seed([0u8; 32]);
    for _ in 0..100 {
        let t = (rng.next_u32() % (1 << 30)) as u64;
        check_mod_q(t, t % MODULUS as u64, true);
        check_mod_q(t, (t + 1) % MODULUS as u64, false);
    }
}

#[test]
fn arithmetics_test_mod_q() {
    // the wider random range of the other backend's exercise
    check_mod_q(42, 42, true);
    let mut rng = ChaCha20Rng::from_seed([3u8; 32]);
    for _ in 0..100 {
        let t = (rng.next_u32() % (1 << 30)) as u64;
        check_mod_q(t, t % MODULUS as u64, true);
    }
}

fn check_mul_mod(a: u64, b: u64, c: u64, satisfied: bool) {
    let mut cs = CircuitBuilder::new();
    let a_var = cs.alloc_witness(Wide::from_u64(a));
    let b_var = cs.alloc_witness(Wide::from_u64(b));
    let c_var = mul_mod(&mut cs, a_var, b_var);
    let c_var2 = cs.alloc_witness(Wide::from_u64(c));
    assert_eq_sig(&mut cs, c_var, c_var2);
    assert_eq!(cs.check_satisfied(&vec![]), satisfied);
}

#[test]
fn test_mul_mod() {
    check_mul_mod(6, 7, 42, true);
    check_mul_mod(0, 100, 0, true);
    check_mul_mod(100, 0, 0, true);
    check_mul_mod(5, 12288, 12284, true);
    check_mul_mod(6, 7, 41, false);
    check_mul_mod(5, 12288, 12283, false);
}

fn check_add_mod(a: u64, b: u64, c: u64, satisfied: bool) {
    let mut cs = CircuitBuilder::new();
    let a_var = cs.alloc_witness(Wide::from_u64(a));
    let b_var = cs.alloc_witness(Wide::from_u64(b));
    let c_var = add_mod(&mut cs, a_var, b_var);
    let c_var2 = cs.alloc_witness(Wide::from_u64(c));
    assert_eq_sig(&mut cs, c_var, c_var2);
    assert_eq!(cs.check_satisfied(&vec![]), satisfied);
}

#[test]
fn test_add_mod() {
    check_add_mod(6, 36, 42, true);
    check_add_mod(0, 100, 100, true);
    check_add_mod(100, 0, 100, true);
    check_add_mod(5, MODULUS as u64 - 1, 4, true);
    check_add_mod(6, 7, 41, false);
    check_add_mod(5, MODULUS as u64 - 1, 3, false);
    let mut rng = ChaCha20Rng::from_seed([0u8; 32]);
    for _ in 0..100 {
        let t1 = (rng.next_u32() % (1 << 30)) as u64;
        let t2 = (rng.next_u32() % (1 << 30)) as u64;
        check_add_mod(t1, t2, (t1 + t2) % MODULUS as u64, true);
        check_add_mod(t1, t2, (t1 + t2 + 1) % MODULUS as u64, false);
    }
}

fn check_sub_mod(a: u64, b: u64, c: u64, satisfied: bool) {
    let mut cs = CircuitBuilder::new();
    let a_var = cs.alloc_witness(Wide::from_u64(a));
    let b_var = cs.alloc_witness(Wide::from_u64(b));
    let c_var = sub_mod(&mut cs, a_var, b_var);
    let c_var2 = cs.alloc_witness(Wide::from_u64(c));
    assert_eq_sig(&mut cs, c_var, c_var2);
    assert_eq!(cs.check_satisfied(&vec![]), satisfied);
}

#[test]
fn test_sub_mod() {
    check_sub_mod(78, 36, 42, true);
    check_sub_mod(0, 0, 0, true);
    check_sub_mod(100, 0, 100, true);
    check_sub_mod(0, 100, 12189, true);
    check_sub_mod(6, 7, 41, false);
    check_sub_mod(5, MODULUS as u64 - 1, 3, false);
    let mut rng = ChaCha20Rng::from_seed([0u8; 32]);
    for _ in 0..100 {
        let t1 = (rng.next_u32() % MODULUS) as u64;
        let t2 = (rng.next_u32() % (1 << 30)) as u64;
        let q = MODULUS as u64;
        let expect = (t1 + q - t2 % q) % q;
        check_sub_mod(t1, t2, expect, true);
        check_sub_mod(t1, t2, (expect + 1) % q, false);
    }
}

#[test]
fn test_inner_product_mod() {
    let mut rng = ChaCha20Rng::from_seed([0u8; 32]);
    for i in 1..10u32 {
        let dim = 1usize << i;
        let mut cs = CircuitBuilder::new();
        let a: Vec<u64> = (0..dim).map(|_| (rng.next_u32() % MODULUS) as u64).collect();
        let b: Vec<u64> = (0..dim).map(|_| (rng.next_u32() % MODULUS) as u64).collect();
        let expect = a
            .iter()
            .zip(b.iter())
            .map(|(&x, &y)| x * y)
            .sum::<u64>() % MODULUS as u64;
        let a_vars: Vec<usize> = a.iter().map(|&x| cs.alloc_witness(Wide::from_u64(x))).collect();
        let b_vars: Vec<usize> = b.iter().map(|&x| cs.alloc_witness(Wide::from_u64(x))).collect();
        let c_var = inner_product_mod(&mut cs, &a_vars, &b_vars);
        let c_var2 = cs.alloc_witness(Wide::from_u64(expect));
        assert_eq_sig(&mut cs, c_var, c_var2);
        assert!(cs.check_satisfied(&vec![]));
        assert_eq!(cs.value_of(c_var), Wide::from_u64(expect));
        let bad = cs.alloc_witness(Wide::from_u64((expect + 1) % MODULUS as u64));
        assert_eq_sig(&mut cs, c_var, bad);
        assert!(!cs.check_satisfied(&vec![]));
    }
}

#[test]
fn test_public_input_mismatch() {
    let mut cs = CircuitBuilder::new();
    let _p = cs.alloc_public(Wide::from_u64(5));
    assert!(cs.check_satisfied(&vec![5]));
    assert!(!cs.check_satisfied(&vec![6]));
    assert!(!cs.check_satisfied(&vec![]));
}

#[test]
fn test_wide_arithmetic() {
    let a = Wide::from_u128(0x1234_5678_9abc_def0_1111_2222_3333_4444u128);
    let b = Wide::from_u64(0xffff_ffff_ffff_ffffu64);
    let s = a.add_w(&b);
    let d = s.sub_w(&b);
    assert_eq!(d, a);
    let m = b.mul_small(3);
    let (q, r) = m.divmod_small(7);
    let back = q.mul_small(7).add_w(&Wide::from_u64(r));
    assert_eq!(back, m);
}
