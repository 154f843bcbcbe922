//! Password digests: SHA-256 behind a trusted wrapper, rendered as a
//! lowercase hex string by verified code.

use crate::codec::{hex_of_bytes, hex_string_of_bytes};
use sha2::Digest;
use vstd::prelude::*;

verus! {

/// The SHA-256 digest (32 bytes) of a byte sequence, as sha2 computes it:
/// a function of the input bytes alone.
pub uninterp spec fn sha256_spec(bytes: Seq<u8>) -> Seq<u8>;

/// Relies on sha2::Sha256 through the Digest trait: the digest is a
/// function of the input bytes alone and is 32 bytes long.
#[verifier::external_body]
fn sha256_of(bytes: &[u8]) -> (r: Vec<u8>)
    ensures
        r@ == sha256_spec(bytes@),
        r@.len() == 32,
{
    sha2::Sha256::digest(bytes).to_vec()
}

/// The stored form of a password: the lowercase hex rendering of the
/// SHA-256 digest of its UTF-8 bytes.
pub open spec fn password_digest(password: Seq<char>) -> Seq<char> {
    hex_of_bytes(sha256_spec(vstd::utf8::encode_utf8(password)))
}

/// Hashes a password for storage.
pub fn hash_password(password: &str) -> (r: String)
    ensures
        r@ == password_digest(password@),
{
    let bytes = password.as_bytes();
    let digest = sha256_of(bytes);
    hex_string_of_bytes(&digest)
}

} // verus!
