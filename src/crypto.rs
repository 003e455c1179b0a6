//! Hashing and signature verification, done by `ring`.
use vstd::prelude::*;

verus! {

/// The SHA-512/256 digest of a byte string.
pub uninterp spec fn sha512_256_of(data: Seq<u8>) -> Seq<u8>;

/// Whether an Ed25519 signature over a message verifies under a public key.
pub uninterp spec fn ed25519_accepts(public_key: Seq<u8>, message: Seq<u8>, signature: Seq<u8>) -> bool;

/// Relies on `ring::digest::digest` with `SHA512_256`: the digest depends on the
/// bytes alone and is 32 bytes long.
#[verifier::external_body]
pub(crate) fn hash_buffer(data: &[u8]) -> (r: Vec<u8>)
    ensures
        r@ == sha512_256_of(data@),
        r@.len() == 32,
{
    ring::digest::digest(&ring::digest::SHA512_256, data).as_ref().to_vec()
}

/// Relies on `ring::signature::UnparsedPublicKey::verify` with `ED25519`: whether
/// the signature verifies depends on the key, the message and the signature alone.
#[verifier::external_body]
pub(crate) fn verify_signature(public_key: &[u8], message: &[u8], signature: &[u8]) -> (r: bool)
    ensures
        r == ed25519_accepts(public_key@, message@, signature@),
{
    ring::signature::UnparsedPublicKey::new(&ring::signature::ED25519, public_key).verify(
        message,
        signature,
    ).is_ok()
}

} // verus!
