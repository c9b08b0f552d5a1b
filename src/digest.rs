//! The digest of a password: SHA-256 of its UTF-8 bytes.
use sha2::Digest;
use vstd::prelude::*;
use vstd::utf8::encode_utf8;

verus! {

/// The SHA-256 digest of `data`.
pub uninterp spec fn sha256_of(data: Seq<u8>) -> Seq<u8>;

/// The digest of the password `p`: SHA-256 of its UTF-8 encoding.
pub open spec fn password_digest(p: Seq<char>) -> Seq<u8> {
    sha256_of(encode_utf8(p))
}

/// Relies on `sha2::Sha256` (through `digest::Digest::new`, `update` and
/// `finalize`): the digest depends on the bytes alone and is 32 bytes long.
#[verifier::external_body]
fn sha256(data: &[u8]) -> (r: Vec<u8>)
    ensures
        r@ == sha256_of(data@),
        r@.len() == 32,
{
    let mut hasher = sha2::Sha256::new();
    hasher.update(data);
    hasher.finalize().to_vec()
}

/// The digest of `password`.
pub fn hash(password: &str) -> (r: Vec<u8>)
    ensures
        r@ == password_digest(password@),
        r@.len() == 32,
{
    sha256(password.as_bytes())
}

} // verus!
