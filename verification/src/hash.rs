//! Digests and password hashes.

use sha2::{Digest, Sha256};
use vstd::prelude::*;

verus! {

/// The SHA-256 digest of bytes.
pub uninterp spec fn sha256(b: Seq<u8>) -> Seq<u8>;

/// Calls `Sha256::digest`. The digest has 32 bytes; which ones is named, not
/// described.
#[verifier::external_body]
pub(crate) fn sha256_digest(b: &[u8]) -> (r: Vec<u8>)
    ensures
        r@ == sha256(b@),
        r@.len() == 32,
{
    Sha256::digest(b).to_vec()
}

/// Whether a password fits a hash; nothing where the hash is none.
pub uninterp spec fn password_fits(password: Seq<char>, hash: Seq<char>) -> Option<bool>;

pub open spec fn fits() -> Option<bool> {
    Some(true)
}

/// Calls `bcrypt::verify`. The answer is named, not described.
#[verifier::external_body]
pub(crate) fn bcrypt_verify(password: &str, hash: &str) -> (r: Option<bool>)
    ensures
        r == password_fits(password@, hash@),
{
    bcrypt::verify(password, hash).ok()
}

/// Calls `bcrypt::hash` with the default cost. The salt is left to chance, so
/// that the same password has many hashes; it fits each of them.
#[verifier::external_body]
pub(crate) fn bcrypt_hash(password: &str) -> (r: Result<String, String>)
    ensures
        r matches Ok(h) ==> password_fits(password@, h@) == fits(),
{
    bcrypt::hash(password, bcrypt::DEFAULT_COST).map_err(|e| e.to_string())
}

} // verus!
