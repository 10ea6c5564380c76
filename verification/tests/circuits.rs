//! The in-circuit transform and the three full verification
//! circuits, end to end against the reference signer.

use falcon_zk::{
    ntt, CircuitBuilder, FalconNTTVerificationCircuit, FalconNTTVerificationWitness,
    FalconSchoolBookVerificationCircuit, ParamSet, PolyVar, Polynomial, PublicKey, Signature,
    Wide,
};
use pqcrypto_falcon::falcon512;
use pqcrypto_traits::sign::{DetachedSignature as _, PublicKey as _};
use rand_chacha::ChaCha20Rng;
use rand_core::SeedableRng;

#[test]
fn test_ntt_mul_circuit() {
    let mut rng = ChaCha20Rng::from_seed([0u8; 32]);
    for _ in 0..5 {
        let mut cs = CircuitBuilder::new();
        let poly = Polynomial::rand(&mut rng, ParamSet::Falcon512);
        let poly_var = PolyVar::alloc_vars(&mut cs, &poly);
        let output = ntt(&poly);
        let output_var = falcon_zk::ntt_circuit(&mut cs, &poly_var, ParamSet::Falcon512);
        for i in 0..512 {
            let v = cs.value_of(output_var.coeff()[i]);
            assert_eq!(v, Wide::from_u64(output.coeff()[i] as u64));
        }
        assert!(cs.check_satisfied(&vec![]));
    }
}

#[test]
fn poly_test_ntt_mul_circuit() {
    let mut rng = ChaCha20Rng::from_seed([5u8; 32]);
    let mut cs = CircuitBuilder::new();
    let poly = Polynomial::rand(&mut rng, ParamSet::Falcon512);
    let poly_var = PolyVar::alloc_vars(&mut cs, &poly);
    let output = ntt(&poly);
    let output_var = falcon_zk::ntt_circuit(&mut cs, &poly_var, ParamSet::Falcon512);
    for i in 0..512 {
        let v = cs.value_of(output_var.coeff()[i]);
        assert_eq!(v, Wide::from_u64(output.coeff()[i] as u64));
    }
    assert!(cs.check_satisfied(&vec![]));
}

fn reference_signature(message: &[u8]) -> (PublicKey, Signature) {
    let (pk, sk) = falcon512::keypair();
    let sig = falcon512::detached_sign(message, &sk);
    (
        PublicKey { bytes: pk.as_bytes().to_vec() },
        Signature { bytes: sig.as_bytes().to_vec() },
    )
}

fn ntt_public_inputs(pk: &PublicKey, message: &[u8], sig: &Signature) -> Vec<u64> {
    let pk_poly = pk.unpack().unwrap();
    let p = pk_poly.param();
    let hm = Polynomial::from_hash_of_message(message, &sig.nonce(), p);
    let mut out = Vec::new();
    for &e in ntt(&pk_poly).coeff().iter() {
        out.push(e as u64);
    }
    for &e in ntt(&hm).coeff().iter() {
        out.push(e as u64);
    }
    out
}

#[test]
fn test_ntt_verification_r1cs() {
    let message = "testing message".as_bytes();
    let (pk, sig) = reference_signature(message);
    assert!(pk.verify_rust(message, &sig));
    assert!(pk.verify_parsed_sig(message, &sig));

    let circuit = FalconNTTVerificationCircuit::build_circuit(
        PublicKey { bytes: pk.bytes.clone() },
        message.to_vec(),
        Signature { bytes: sig.bytes.clone() },
    );
    let mut cs = CircuitBuilder::new();
    assert!(circuit.generate_constraints(&mut cs));
    let publics = ntt_public_inputs(&pk, message, &sig);
    assert!(cs.check_satisfied(&publics));
    // any tampered public input breaks satisfiability
    let mut bad = publics.clone();
    bad[0] = (bad[0] + 1) % 12289;
    assert!(!cs.check_satisfied(&bad));
    let mut bad2 = publics.clone();
    bad2[700] = (bad2[700] + 1) % 12289;
    assert!(!cs.check_satisfied(&bad2));
}

#[test]
fn test_ntt_verification_plonk() {
    let message = "testing message".as_bytes();
    let (pk, sig) = reference_signature(message);
    assert!(pk.verify_rust(message, &sig));

    let witness = FalconNTTVerificationWitness::build_witness(
        PublicKey { bytes: pk.bytes.clone() },
        message.to_vec(),
        Signature { bytes: sig.bytes.clone() },
    );
    let mut cs = CircuitBuilder::new();
    assert!(witness.verification_circuit(&mut cs));
    let publics = ntt_public_inputs(&pk, message, &sig);
    assert!(cs.check_satisfied(&publics));
    let mut bad = publics.clone();
    bad[17] = (bad[17] + 1) % 12289;
    assert!(!cs.check_satisfied(&bad));
}

#[test]
fn test_schoolbook_verification_r1cs() {
    let message = "testing message".as_bytes();
    let (pk, sig) = reference_signature(message);
    assert!(pk.verify_rust(message, &sig));

    let circuit = FalconSchoolBookVerificationCircuit::build_circuit(
        PublicKey { bytes: pk.bytes.clone() },
        message.to_vec(),
        Signature { bytes: sig.bytes.clone() },
    );
    let mut cs = CircuitBuilder::new();
    assert!(circuit.generate_constraints(&mut cs));
    // the schoolbook variant's public inputs stay in the coefficient
    // domain
    let pk_poly = pk.unpack().unwrap();
    let hm = Polynomial::from_hash_of_message(
        message,
        &sig.nonce(),
        pk_poly.param(),
    );
    let mut publics = Vec::new();
    for &e in pk_poly.coeff().iter() {
        publics.push(e as u64);
    }
    for &e in hm.coeff().iter() {
        publics.push(e as u64);
    }
    assert!(cs.check_satisfied(&publics));
    let mut bad = publics.clone();
    bad[0] = (bad[0] + 1) % 12289;
    assert!(!cs.check_satisfied(&bad));
}

#[test]
fn test_circuit_rejects_other_message() {
    let message = "testing message".as_bytes();
    let other = "another testing message".as_bytes();
    let (pk, sig) = reference_signature(message);
    assert!(!pk.verify_rust(other, &sig));

    // building against the wrong message produces an unsatisfiable
    // witness: the derived remainder has a huge norm
    let circuit = FalconNTTVerificationCircuit::build_circuit(
        PublicKey { bytes: pk.bytes.clone() },
        other.to_vec(),
        Signature { bytes: sig.bytes.clone() },
    );
    let mut cs = CircuitBuilder::new();
    assert!(circuit.generate_constraints(&mut cs));
    let publics = ntt_public_inputs(&pk, other, &sig);
    assert!(!cs.check_satisfied(&publics));
}

#[test]
fn test_build_idempotent() {
    let message = "testing message".as_bytes();
    let (pk, sig) = reference_signature(message);
    let mut cs1 = CircuitBuilder::new();
    let mut cs2 = CircuitBuilder::new();
    let c1 = FalconNTTVerificationCircuit::build_circuit(
        PublicKey { bytes: pk.bytes.clone() },
        message.to_vec(),
        Signature { bytes: sig.bytes.clone() },
    );
    let c2 = FalconNTTVerificationCircuit::build_circuit(
        PublicKey { bytes: pk.bytes.clone() },
        message.to_vec(),
        Signature { bytes: sig.bytes.clone() },
    );
    assert!(c1.generate_constraints(&mut cs1));
    assert!(c2.generate_constraints(&mut cs2));
    assert_eq!(cs1.num_signals(), cs2.num_signals());
    assert_eq!(cs1.num_gates(), cs2.num_gates());
    let publics = ntt_public_inputs(&pk, message, &sig);
    assert!(cs1.check_satisfied(&publics));
    assert!(cs2.check_satisfied(&publics));
}

#[test]
fn test_l2_norm() {
    let mut rng = ChaCha20Rng::from_seed([0u8; 32]);
    let mut cs = CircuitBuilder::new();
    let u = Polynomial::rand(&mut rng, ParamSet::Falcon512);
    let v = Polynomial::rand(&mut rng, ParamSet::Falcon512);
    let dual_u = falcon_zk::DualPolynomial::from_poly(&u);
    let dual_v = falcon_zk::DualPolynomial::from_poly(&v);
    let u_var = falcon_zk::DualPolyVar::alloc_vars(&mut cs, &dual_u);
    let v_var = falcon_zk::DualPolyVar::alloc_vars(&mut cs, &dual_v);
    let mut sigs: Vec<usize> = Vec::new();
    sigs.extend_from_slice(&u_var.pos.coeff);
    sigs.extend_from_slice(&u_var.neg.coeff);
    sigs.extend_from_slice(&v_var.pos.coeff);
    sigs.extend_from_slice(&v_var.neg.coeff);
    let norm_var = falcon_zk::l2_norm_var_without_range_check(&mut cs, &sigs);
    let expect = dual_u.l2_norm() + dual_v.l2_norm();
    assert_eq!(cs.value_of(norm_var), Wide::from_u64(expect));
    assert!(cs.check_satisfied(&vec![]));
}
