//! Content hashing: object identities are SHA-256 digests.

use vstd::prelude::*;

use sha2::{Digest, Sha256};

verus! {

/// The SHA-256 digest of a byte sequence. The algorithm itself is not
/// restated here: the digest is a fixed 32-byte value determined by the
/// input bytes alone, and the hashing crate computes it.
pub uninterp spec fn sha256_of(bytes: Seq<u8>) -> Seq<u8>;

/// Relies on sha2's `Sha256::digest` (through the `Digest` trait): the
/// digest depends on the input bytes alone and is 32 bytes long.
#[verifier::external_body]
pub(crate) fn sha256(bytes: &[u8]) -> (r: Vec<u8>)
    ensures
        r@ == sha256_of(bytes@),
        r@.len() == 32,
{
    Sha256::digest(bytes).to_vec()
}

} // verus!
