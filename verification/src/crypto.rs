use ed25519_dalek::Signer;
use ed25519_dalek::Verifier;
use vstd::prelude::*;

verus! {

// Names for what the cryptographic primitives return. Each result is a pure
// function of the arguments alone: BLAKE3 is a deterministic hash, and Ed25519
// key derivation, signing (RFC 8032) and verification are deterministic.

/// The 32-byte BLAKE3 digest of a byte string.
pub uninterp spec fn blake3_of(input: Seq<u8>) -> Seq<u8>;

/// The Ed25519 public key derived from a 32-byte secret key.
pub uninterp spec fn public_key_of(secret: Seq<u8>) -> Seq<u8>;

/// The Ed25519 signature over a message by the holder of a secret key.
pub uninterp spec fn signature_of(secret: Seq<u8>, message: Seq<u8>) -> Seq<u8>;

/// Whether a 64-byte signature verifies over a message under a 32-byte
/// public key. False whenever the public key bytes decode to no valid key.
pub uninterp spec fn signature_valid(author: Seq<u8>, message: Seq<u8>, signature: Seq<u8>) -> bool;

/// Relies on blake3::hash: a deterministic 32-byte digest of the input.
#[verifier::external_body]
pub(crate) fn blake3_digest(input: &Vec<u8>) -> (r: [u8; 32])
    ensures
        r@ == blake3_of(input@),
{
    *blake3::hash(input.as_slice()).as_bytes()
}

/// Relies on ed25519_dalek::SigningKey::verifying_key: the public key is
/// derived from the secret key bytes alone.
#[verifier::external_body]
pub(crate) fn derive_public_key(secret: &[u8; 32]) -> (r: [u8; 32])
    ensures
        r@ == public_key_of(secret@),
{
    ed25519_dalek::SigningKey::from_bytes(secret).verifying_key().to_bytes()
}

/// Relies on ed25519_dalek's Signer::sign for SigningKey: RFC 8032 signing is
/// deterministic and infallible, and a signature so produced verifies under
/// the signer's public key.
#[verifier::external_body]
pub(crate) fn sign_message(secret: &[u8; 32], message: &Vec<u8>) -> (r: [u8; 64])
    ensures
        r@ == signature_of(secret@, message@),
        signature_valid(public_key_of(secret@), message@, r@),
{
    let key = ed25519_dalek::SigningKey::from_bytes(secret);
    key.sign(message.as_slice()).to_bytes()
}

/// Relies on ed25519_dalek::VerifyingKey::from_bytes and Verifier::verify:
/// verification is a deterministic function of key, message and signature,
/// and fails whenever the key bytes are no valid public key.
#[verifier::external_body]
pub(crate) fn verify_signature(author: &[u8; 32], message: &Vec<u8>, signature: &[u8; 64]) -> (r: bool)
    ensures
        r == signature_valid(author@, message@, signature@),
{
    match ed25519_dalek::VerifyingKey::from_bytes(author) {
        Ok(key) => {
            let sig = ed25519_dalek::Signature::from_bytes(signature);
            key.verify(message.as_slice(), &sig).is_ok()
        },
        Err(_) => false,
    }
}

/// A local signing identity: the 32 secret bytes of an Ed25519 key.
///
/// The secret is never serialized by this crate; it leaves the type only as
/// the signing capability used by patch construction.
pub struct SigningKey {
    secret: [u8; 32],
}

impl View for SigningKey {
    type V = Seq<u8>;

    closed spec fn view(&self) -> Seq<u8> {
        self.secret@
    }
}

impl SigningKey {
    /// Wraps 32 secret key bytes as a signing identity.
    pub fn from_bytes(secret: [u8; 32]) -> (r: Self)
        ensures
            r@ == secret@,
    {
        SigningKey { secret }
    }

    /// The public key that identifies this signer as a patch author.
    pub fn public_key(&self) -> (r: [u8; 32])
        ensures
            r@ == public_key_of(self@),
    {
        derive_public_key(&self.secret)
    }

    /// Signs a message with this key.
    pub(crate) fn sign(&self, message: &Vec<u8>) -> (r: [u8; 64])
        ensures
            r@ == signature_of(self@, message@),
            signature_valid(public_key_of(self@), message@, r@),
    {
        sign_message(&self.secret, message)
    }
}

} // verus!
