//! The cryptography that the library takes from outside crates: BLAKE3 from
//! `blake3` and Ed25519 from `ed25519-dalek`. What each call returns has a name
//! here, and the rest of the library is stated over these names. Of BLAKE3 it is also
//! stated that the crate's and the library's own, in `blake3_ref`, are the same
//! function.

use crate::blake3_ref::{digest, xof};
use vstd::prelude::*;

verus! {

/// The 32-byte BLAKE3 hash of `input`.
pub uninterp spec fn blake3_digest(input: Seq<u8>) -> Seq<u8>;

/// The first `len` bytes of BLAKE3's extendable output for `input`.
pub uninterp spec fn blake3_output(input: Seq<u8>, len: nat) -> Seq<u8>;

/// The Ed25519 public key that belongs to the secret key `secret`.
pub uninterp spec fn ed25519_public_key(secret: Seq<u8>) -> Seq<u8>;

/// The Ed25519 signature on `message` under the secret key `secret`.
pub uninterp spec fn ed25519_signature(secret: Seq<u8>, message: Seq<u8>) -> Seq<u8>;

/// Whether Ed25519 accepts `signature` on `message` under the public key `key`.
pub uninterp spec fn ed25519_accepts(key: Seq<u8>, message: Seq<u8>, signature: Seq<u8>) -> bool;

/// Calls `blake3::hash`. Its result is a function of the input bytes alone, named
/// `blake3_digest`. That function is BLAKE3 with the default key and 32 bytes of output:
/// for every input it is the `digest` that `blake3_ref` computes.
#[verifier::external_body]
pub(crate) fn blake3_hash(input: &[u8]) -> (r: [u8; 32])
    ensures
        r@ == blake3_digest(input@),
        r@ == digest(input@),
{
    *blake3::hash(input).as_bytes()
}

/// Calls `blake3::Hasher::update` once and fills `out` from `finalize_xof`. The
/// bytes written are a function of the input and of how many are asked for,
/// named `blake3_output`; the length of `out` stays. For an input of 32 bytes, which
/// makes up one block, they are the `xof` that `blake3_ref` computes.
#[verifier::external_body]
pub(crate) fn xof_fill(input: &[u8], out: &mut Vec<u8>)
    ensures
        final(out)@.len() == old(out)@.len(),
        final(out)@ == blake3_output(input@, old(out)@.len()),
        input@.len() == 32 ==> final(out)@ == xof(input@, old(out)@.len()),
{
    blake3::Hasher::new().update(input).finalize_xof().fill(out);
}

/// Calls `ed25519_dalek::SigningKey::from_bytes` and `verifying_key`: the public
/// key is a function of the secret key, named `ed25519_public_key`.
#[verifier::external_body]
pub(crate) fn public_key_of(secret: &[u8; 32]) -> (r: [u8; 32])
    ensures
        r@ == ed25519_public_key(secret@),
{
    ed25519_dalek::SigningKey::from_bytes(secret).verifying_key().to_bytes()
}

/// Calls `ed25519_dalek::SigningKey`'s `sign`. Signing is deterministic, so the
/// signature has a name; and a signature verifies under the signer's own public
/// key.
#[verifier::external_body]
pub(crate) fn sign_message(secret: &[u8; 32], message: &[u8]) -> (r: [u8; 64])
    ensures
        r@ == ed25519_signature(secret@, message@),
        ed25519_accepts(ed25519_public_key(secret@), message@, r@),
{
    let key = ed25519_dalek::SigningKey::from_bytes(secret);
    ed25519_dalek::Signer::sign(&key, message).to_bytes()
}

/// Calls `ed25519_dalek::VerifyingKey`'s `verify`. Bytes that are no public key
/// accept nothing. The verdict is a function of the three byte strings, named
/// `ed25519_accepts`.
#[verifier::external_body]
pub(crate) fn accepts_signature(key: &[u8; 32], message: &[u8], signature: &[u8; 64]) -> (r: bool)
    ensures
        r == ed25519_accepts(key@, message@, signature@),
{
    let signature = ed25519_dalek::Signature::from_bytes(signature);
    match ed25519_dalek::VerifyingKey::from_bytes(key) {
        Ok(key) => ed25519_dalek::Verifier::verify(&key, message, &signature).is_ok(),
        Err(_) => false,
    }
}

} // verus!
