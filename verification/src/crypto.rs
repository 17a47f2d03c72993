//! Trusted boundary to the outside cryptography: the Keccak-256 digest and
//! the random sampling of candidate secrets.

use vstd::prelude::*;
use sha3::Digest;

verus! {

/// The Keccak-256 digest of a byte sequence. The digest is a pure function
/// of the input bytes alone; no shorter statement of it exists, so it is
/// left uninterpreted and pinned down only by the wrapper below.
pub uninterp spec fn keccak256_of(input: Seq<u8>) -> Seq<u8>;

/// Relies on sha3's `Keccak256` (through the `Digest` trait): the digest is
/// 32 bytes and depends on the input bytes alone.
#[verifier::external_body]
pub(crate) fn keccak256(input: &Vec<u8>) -> (r: Vec<u8>)
    ensures
        r@ == keccak256_of(input@),
        r@.len() == 32,
{
    let mut hasher = sha3::Keccak256::new();
    hasher.update(input.as_slice());
    hasher.finalize().to_vec()
}

/// Relies on rand's `thread_rng` and `Rng::fill`: 32 bytes from the
/// thread-local cryptographically secure generator. Nothing is promised of
/// the values; the call diverges only if the entropy source fails
/// irrecoverably.
#[verifier::external_body]
pub(crate) fn random_secret() -> (r: Vec<u8>)
    ensures
        r@.len() == 32,
{
    let mut buf = [0u8; 32];
    rand::Rng::fill(&mut rand::thread_rng(), &mut buf[..]);
    buf.to_vec()
}

} // verus!
