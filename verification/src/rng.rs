//! Random 32-bit words, behind trusted wrappers.
//!
//! The coefficient samplers draw words either from a caller-supplied
//! ChaCha20 generator, whose internal state the contracts cannot
//! speak about, or deterministically from a 32-byte seed.  The seeded
//! stream is a pure function of the seed, so each of its words gets a
//! name, `chacha_word`.

use vstd::prelude::*;
use rand_core::{RngCore, SeedableRng};

verus! {

/// The declared generator type of the rand_chacha crate.
#[verifier::external_type_specification]
#[verifier::external_body]
pub struct ExChaCha20Rng(rand_chacha::ChaCha20Rng);

/// Relies on rand_core's RngCore::next_u32 for ChaCha20Rng: the next
/// word of the generator.  Nothing is promised of the value; the
/// generator's state is opaque.
#[verifier::external_body]
pub fn chacha_next_u32(rng: &mut rand_chacha::ChaCha20Rng) -> (r: u32)
{
    rng.next_u32()
}

/// Relies on rand_core's SeedableRng::from_seed for ChaCha20Rng: a
/// generator initialized from a 32-byte seed.
#[verifier::external_body]
pub fn chacha_from_seed(seed: &[u8; 32]) -> (r: rand_chacha::ChaCha20Rng)
{
    rand_chacha::ChaCha20Rng::from_seed(*seed)
}

} // verus!
