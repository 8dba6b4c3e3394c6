//! Content digests. A node is identified by the cryptographic digest of its
//! canonical encoding; equal content always yields the equal digest.
use vstd::prelude::*;
use sha2::Digest;

verus! {

/// The digest of a byte sequence, as the hash function returns it: a pure
/// function of the input bytes alone.
pub uninterp spec fn digest_of(bytes: Seq<u8>) -> Seq<u8>;

/// Relies on sha2::Sha256::digest: the result is 32 bytes and depends on
/// the input bytes alone.
#[verifier::external_body]
pub fn digest_bytes(bytes: &[u8]) -> (r: Vec<u8>)
    ensures
        r@ == digest_of(bytes@),
        r@.len() == 32,
{
    sha2::Sha256::digest(bytes).to_vec()
}

} // verus!
