//! The ed25519 operations the protocol relies on, over plain byte arrays.
//! What they compute is named, not restated: the names below stand for the
//! results of ed25519-dalek on the given bytes.
use vstd::prelude::*;
use ed25519_dalek::{Signer, Verifier};

verus! {

/// The public key that ed25519 derives from a 32-byte secret key.
pub uninterp spec fn ed25519_public_key(secret: Seq<u8>) -> Seq<u8>;

/// The deterministic ed25519 signature of a message under a secret key.
pub uninterp spec fn ed25519_signature(secret: Seq<u8>, message: Seq<u8>) -> Seq<u8>;

/// Whether a 64-byte signature over a message checks against a 32-byte public key.
pub uninterp spec fn ed25519_accepts(public: Seq<u8>, message: Seq<u8>, signature: Seq<u8>) -> bool;

/// Relies on `SigningKey::generate` with `OsRng`: 32 fresh secret bytes from
/// the operating system. Nothing is known of their value. (`OsRng` panics
/// only where the operating system cannot supply randomness at all.)
#[verifier::external_body]
pub(crate) fn random_secret_key() -> (r: [u8; 32]) {
    ed25519_dalek::SigningKey::generate(&mut rand::rngs::OsRng).to_bytes()
}

/// Relies on `SigningKey::from_bytes(..).verifying_key()`: the public key is a
/// function of the secret bytes alone.
#[verifier::external_body]
pub(crate) fn public_key_of(secret: &[u8; 32]) -> (r: [u8; 32])
    ensures
        r@ == ed25519_public_key(secret@),
{
    ed25519_dalek::SigningKey::from_bytes(secret).verifying_key().to_bytes()
}

/// Relies on `Signer::sign` of `SigningKey`: ed25519 signing is deterministic,
/// and a signature it makes checks against the key's own public key (the
/// crate documents `verifying_key.verify(message, &signature).is_ok()`).
#[verifier::external_body]
pub(crate) fn sign_bytes(secret: &[u8; 32], message: &[u8]) -> (r: [u8; 64])
    ensures
        r@ == ed25519_signature(secret@, message@),
        ed25519_accepts(ed25519_public_key(secret@), message@, r@),
{
    ed25519_dalek::SigningKey::from_bytes(secret).sign(message).to_bytes()
}

/// Relies on `VerifyingKey::from_bytes` and `Verifier::verify` of
/// `VerifyingKey`: bytes that are no curve point never verify; otherwise the
/// answer depends on the key, the message and the signature alone.
#[verifier::external_body]
pub(crate) fn check_signature(public: &[u8; 32], message: &[u8], signature: &[u8; 64]) -> (r: bool)
    ensures
        r == ed25519_accepts(public@, message@, signature@),
{
    match ed25519_dalek::VerifyingKey::from_bytes(public) {
        Ok(key) => key.verify(message, &ed25519_dalek::Signature::from_bytes(signature)).is_ok(),
        Err(_) => false,
    }
}

} // verus!
