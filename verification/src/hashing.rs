//! The content hash used as the deduplication key: a SHA-256 digest of the
//! raw payload bytes, rendered as lowercase hexadecimal.

use sha2::Digest;
use vstd::prelude::*;

verus! {

/// The lowercase hexadecimal SHA-256 digest of a byte sequence. The digest is
/// a pure function of the input bytes alone, so it is given a name here
/// rather than written out.
pub uninterp spec fn sha256_hex(bytes: Seq<u8>) -> Seq<char>;

/// Relies on sha2's `Sha256::digest`: a 32-byte digest computed from the
/// input bytes alone, rendered here as two lowercase hexadecimal characters
/// per byte, 64 characters in all.
#[verifier::external_body]
pub fn hash_bytes(bytes: &[u8]) -> (r: String)
    ensures
        r@ == sha256_hex(bytes@),
        r@.len() == 64,
{
    sha2::Sha256::digest(bytes).iter().map(|v| format!("{:02x}", v)).collect::<String>()
}

} // verus!
