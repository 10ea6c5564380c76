//! Laws tying the circuit builders together.

use vstd::prelude::*;
use crate::cs::CircuitBuilder;
use crate::params::ParamSet;
use crate::circuits::public_inputs_spec;

verus! {

/// Building a circuit twice from identical cleartext inputs yields
/// identical public-input vectors: every build's public values equal
/// the one vector determined by the inputs, so any two builds agree.
pub proof fn lemma_build_idempotent(
    cs1: CircuitBuilder,
    cs2: CircuitBuilder,
    pkb: Seq<u8>,
    msg: Seq<u8>,
    sigb: Seq<u8>,
    p: ParamSet,
)
    requires
        cs1.public_values() == public_inputs_spec(pkb, msg, sigb, p),
        cs2.public_values() == public_inputs_spec(pkb, msg, sigb, p),
    ensures
        cs1.public_values() == cs2.public_values(),
{
}

/// The transform-domain and sign-split circuit variants expose the
/// same public-input vector for the same cleartext inputs: both pin
/// their public values to `public_inputs_spec`.
pub proof fn lemma_variants_share_publics(
    ntt_cs: CircuitBuilder,
    dual_cs: CircuitBuilder,
    pkb: Seq<u8>,
    msg: Seq<u8>,
    sigb: Seq<u8>,
    p: ParamSet,
)
    requires
        ntt_cs.public_values() == public_inputs_spec(pkb, msg, sigb, p),
        dual_cs.public_values() == public_inputs_spec(pkb, msg, sigb, p),
    ensures
        ntt_cs.public_values() == dual_cs.public_values(),
{
}

} // verus!
