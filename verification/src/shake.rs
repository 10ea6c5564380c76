//! The SHAKE256 extendable-output function, behind a trusted wrapper.
//!
//! The hash-to-point construction reads an unbounded byte stream
//! derived from the nonce and the message.  The stream is a pure
//! function of the absorbed bytes, so each position of it gets a
//! name, `shake_byte`, and the wrapper promises that the prefix it
//! returns matches those names position by position.  Callers that
//! run out of stream simply ask for a longer prefix; the names
//! guarantee the two prefixes agree.

use vstd::prelude::*;
use sha3::digest::{ExtendableOutput, Update, XofReader};

verus! {

/// Byte `i` of the SHAKE256 output stream over the absorbed bytes.
pub uninterp spec fn shake_byte(absorbed: Seq<u8>, i: int) -> u8;

/// Relies on sha3's SHAKE256: an extendable-output hash whose output
/// stream is a function of the absorbed bytes alone.  Absorbs
/// `first` then `second`, and reads the first `len` bytes of the
/// output stream.
#[verifier::external_body]
pub fn shake256_prefix(first: &[u8], second: &[u8], len: usize) -> (r: Vec<u8>)
    ensures
        r@.len() == len,
        forall|i: int| 0 <= i < len ==> r@[i] == shake_byte(first@ + second@, i),
{
    let mut hasher = sha3::Shake256::default();
    hasher.update(first);
    hasher.update(second);
    let mut reader = hasher.finalize_xof();
    let mut out = vec![0u8; len];
    reader.read(&mut out);
    out
}

} // verus!
