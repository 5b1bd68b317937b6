//! BLAKE3 hashing.

use vstd::prelude::*;

verus! {

/// The 32-byte BLAKE3 hash of `data` (unkeyed, default output length).
pub uninterp spec fn blake3_of(data: Seq<u8>) -> Seq<u8>;

/// Calls `blake3::hash`. Claims that the digest is the value of
/// [`blake3_of`] on the input: the same bytes always hash to the same
/// 32 bytes. Nothing else about BLAKE3 is stated.
#[verifier::external_body]
pub(crate) fn blake3_digest(data: &[u8]) -> (h: [u8; 32])
    ensures
        h@ == blake3_of(data@),
{
    *blake3::hash(data).as_bytes()
}

/// Compute the 32-byte identity hash: `BLAKE3(identity_pubkey)`.
pub fn identity_hash(identity_pubkey: &[u8]) -> (h: [u8; 32])
    ensures
        h@ == blake3_of(identity_pubkey@),
{
    blake3_digest(identity_pubkey)
}

} // verus!
