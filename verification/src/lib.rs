//! Zero-knowledge gadgets for the Falcon signature scheme.
//!
//! The crate has two halves.  The cleartext half implements the ring
//! arithmetic of the scheme: polynomials over Z_q[x]/(x^N + 1) with
//! q = 12289 and N = 512 or 1024, the number-theoretic transform, the
//! byte decoders for public keys and signatures, and plain signature
//! verification.  The circuit half expresses the verification relation
//! as a set of algebraic constraints over a backend-agnostic constraint
//! system: range proofs, modular reduction, an in-circuit NTT with
//! deferred reduction, norm computations, and three complete circuit
//! variants.  A built circuit carries its witness assignment and can be
//! checked for satisfiability, or exported to an external proving
//! backend.

mod circuits;
mod cs;
mod gadget_arith;
mod gadget_bits;
mod gadget_norm;
mod gadget_range;
mod keys;
mod nums;
mod decoder;
mod dual_ntt_poly;
mod dual_poly;
mod dual_var;
mod ntt_poly;
mod ntt_var;
pub mod poly_mul;
mod poly_var;
mod laws;
mod params;
mod poly;
mod rng;
mod shake;
mod transforms;
mod utils;

pub use circuits::FalconNTTVerificationCircuit;
pub use circuits::FalconNTTVerificationWitness;
pub use circuits::FalconSchoolBookVerificationCircuit;
pub use cs::CircuitBuilder;
pub use cs::Gate;
pub use decoder::comp_decode;
pub use decoder::mod_q_decode;
pub use dual_ntt_poly::DualNTTPolynomial;
pub use dual_poly::DualPolynomial;
pub use dual_var::DualPolyVar;
pub use gadget_arith::add_mod;
pub use gadget_arith::inner_product_mod;
pub use gadget_arith::mod_q;
pub use gadget_arith::mul_mod;
pub use gadget_arith::sub_mod;
pub use gadget_bits::assert_const_sig;
pub use gadget_bits::assert_eq_sig;
pub use gadget_bits::enforce_decompose;
pub use gadget_norm::l2_norm_var;
pub use gadget_norm::l2_norm_var_without_range_check;
pub use gadget_range::enforce_leq_765;
pub use gadget_range::enforce_less_than_1024;
pub use gadget_range::enforce_less_than_norm_bound;
pub use gadget_range::enforce_less_than_norm_bound_1024;
pub use gadget_range::enforce_less_than_norm_bound_512;
pub use gadget_range::enforce_less_than_q;
pub use gadget_range::is_less_than_6144;
pub use keys::PublicKey;
pub use keys::SecretKey;
pub use keys::Signature;
pub use ntt_poly::inv_ntt;
pub use ntt_poly::ntt;
pub use ntt_poly::NTTPolynomial;
pub use ntt_var::ntt_circuit;
pub use ntt_var::ntt_circuit_defer_range_check;
pub use nums::Wide;
pub use params::MODULUS;
pub use params::MODULUS_MINUS_1_OVER_TWO;
pub use params::MODULUS_THRESHOLD;
pub use params::ParamSet;
pub use poly::Polynomial;
pub use laws::lemma_build_idempotent;
pub use laws::lemma_variants_share_publics;
pub use poly_var::NTTPolyVar;
pub use poly_var::PolyVar;
pub use utils::l2_norm;
