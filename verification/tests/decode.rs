//! The byte decoders and the key/signature containers, against the
//! reference signer's real encodings.

use falcon_zk::{comp_decode, mod_q_decode, ParamSet, PublicKey, Signature, MODULUS};
use pqcrypto_falcon::falcon512;
use pqcrypto_traits::sign::{DetachedSignature as _, PublicKey as _};

#[test]
fn test_unpacking() {
    let message = "testing message".as_bytes();
    let (pk, sk) = falcon512::keypair();
    let sig = falcon512::detached_sign(message, &sk);
    let pk = PublicKey { bytes: pk.as_bytes().to_vec() };
    let sig = Signature { bytes: sig.as_bytes().to_vec() };
    let poly = pk.unpack().expect("a freshly generated key unpacks");
    assert_eq!(poly.coeff().len(), 512);
    assert!(poly.coeff().iter().all(|&c| c < MODULUS as u16));
    let ints = sig.unpack(ParamSet::Falcon512).expect("a fresh signature unpacks");
    assert_eq!(ints.len(), 512);
    assert!(ints.iter().all(|&c| -2047 <= c && c <= 2047));
    assert!(pk.verify_rust(message, &sig));
    assert!(pk.verify_parsed_sig(message, &sig));
}

#[test]
fn test_verify_rejects_wrong_message() {
    let message = "testing message".as_bytes();
    let message2 = "another testing message".as_bytes();
    let (pk, sk) = falcon512::keypair();
    let sig = falcon512::detached_sign(message, &sk);
    let pk = PublicKey { bytes: pk.as_bytes().to_vec() };
    let sig = Signature { bytes: sig.as_bytes().to_vec() };
    assert!(pk.verify_rust(message, &sig));
    assert!(!pk.verify_rust(message2, &sig));
}

#[test]
fn test_mod_q_decode_rejects_bad_input() {
    // wrong length
    assert!(mod_q_decode(&vec![0u8; 10], ParamSet::Falcon512).is_none());
    // a field at or above q: the first 14 bits all set
    let mut bad = vec![0u8; (14 * 512 + 7) / 8];
    bad[0] = 0xff;
    bad[1] = 0xff;
    assert!(mod_q_decode(&bad, ParamSet::Falcon512).is_none());
    // all zero fields decode to the zero vector
    let zeros = vec![0u8; (14 * 512 + 7) / 8];
    let out = mod_q_decode(&zeros, ParamSet::Falcon512).unwrap();
    assert!(out.iter().all(|&c| c == 0));
}

#[test]
fn test_mod_q_decode_first_field() {
    // first 14 bits encode 3: 0b00000000_000011 packed big-endian
    let mut bytes = vec![0u8; (14 * 512 + 7) / 8];
    bytes[1] = 0x0c;
    let out = mod_q_decode(&bytes, ParamSet::Falcon512).unwrap();
    assert_eq!(out[0], 3);
    assert_eq!(out[1], 0);
}

#[test]
fn test_comp_decode_rejects_truncated() {
    assert!(comp_decode(&vec![], ParamSet::Falcon512).is_none());
    assert!(comp_decode(&vec![0u8; 3], ParamSet::Falcon512).is_none());
}

#[test]
fn test_comp_decode_signs() {
    // 512 coefficients, each encoded as sign bit, 7 magnitude bits,
    // and an immediate closing 1: 9 bits per coefficient
    let total_bits = 9 * 512;
    let mut bytes = vec![0u8; (total_bits + 7) / 8];
    for i in 0..512 {
        // magnitude 1, positive: bits 0000000 1 after sign 0 -> set
        // the closing one and one magnitude bit
        let start = 9 * i;
        // sign bit stays 0; magnitude low bits 0000001; closing 1
        set_bit(&mut bytes, start + 7, 1);
        set_bit(&mut bytes, start + 8, 1);
    }
    let out = comp_decode(&bytes, ParamSet::Falcon512).unwrap();
    assert!(out.iter().all(|&c| c == 1));
}

fn set_bit(bytes: &mut Vec<u8>, i: usize, v: u8) {
    if v == 1 {
        bytes[i / 8] |= 1 << (7 - (i % 8));
    }
}

#[test]
fn test_signature_header_matches_reference() {
    let (_, sk) = falcon512::keypair();
    let sig = falcon512::detached_sign(b"x", &sk);
    let bytes = sig.as_bytes();
    // header nibble 3 (compressed) with log2(N) = 9
    assert_eq!(bytes[0], 0x39);
    assert!(bytes.len() > 41);
}
