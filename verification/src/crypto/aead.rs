//! Standalone XChaCha20-Poly1305 sealing (used for onion layers).

use chacha20poly1305::aead::{Aead, KeyInit};
use vstd::prelude::*;

verus! {

/// XChaCha20-Poly1305 ciphertext (with tag) of `pt` under `key`, 24-byte
/// `nonce` and associated data `aad`.
pub uninterp spec fn xchacha_seal(key: Seq<u8>, nonce: Seq<u8>, aad: Seq<u8>, pt: Seq<u8>) -> Seq<u8>;

/// XChaCha20-Poly1305 decryption of `ct`: the plaintext if the tag
/// authenticates, else `None`.
pub uninterp spec fn xchacha_open(key: Seq<u8>, nonce: Seq<u8>, aad: Seq<u8>, ct: Seq<u8>) -> Option<Seq<u8>>;

/// Plaintexts up to this length (in 64-byte blocks) are accepted.
pub open spec fn xchacha_fits(len: nat) -> bool {
    len / 64 < 0xffff_ffff
}

/// Calls `XChaCha20Poly1305::new(key).encrypt(nonce, {msg: pt, aad})`.
/// Claims, as the crate's source shows: it fails exactly when the plaintext
/// is too long for the cipher's block counter; on success the ciphertext is
/// [`xchacha_seal`] of the arguments, 16 bytes (the tag) longer than the
/// plaintext, and decrypting it with the same key, nonce and AAD gives the
/// plaintext back.
#[verifier::external_body]
fn xchacha_encrypt(key: &[u8; 32], nonce: &[u8; 24], aad: &[u8], pt: &[u8]) -> (r: Result<Vec<u8>, ()>)
    ensures
        (r is Ok) == xchacha_fits(pt@.len()),
        r matches Ok(ct) ==> ct@ == xchacha_seal(key@, nonce@, aad@, pt@) && ct@.len() == pt@.len() + 16
            && xchacha_open(key@, nonce@, aad@, ct@) == Some(pt@),
{
    match chacha20poly1305::XChaCha20Poly1305::new(key.into())
        .encrypt(chacha20poly1305::XNonce::from_slice(nonce), chacha20poly1305::aead::Payload { msg: pt, aad }) {
        Ok(ct) => Ok(ct),
        Err(_) => Err(()),
    }
}

/// Calls `XChaCha20Poly1305::new(key).decrypt(nonce, {msg: ct, aad})`.
/// Claims that the outcome is [`xchacha_open`] of the arguments, and that a
/// recovered plaintext is 16 bytes shorter than the ciphertext.
#[verifier::external_body]
fn xchacha_decrypt(key: &[u8; 32], nonce: &[u8; 24], aad: &[u8], ct: &[u8]) -> (r: Result<Vec<u8>, ()>)
    ensures
        match r {
            Ok(p) => xchacha_open(key@, nonce@, aad@, ct@) == Some(p@) && p@.len() + 16 == ct@.len(),
            Err(_) => xchacha_open(key@, nonce@, aad@, ct@) is None,
        },
{
    match chacha20poly1305::XChaCha20Poly1305::new(key.into())
        .decrypt(chacha20poly1305::XNonce::from_slice(nonce), chacha20poly1305::aead::Payload { msg: ct, aad }) {
        Ok(pt) => Ok(pt),
        Err(_) => Err(()),
    }
}

/// AEAD errors.
#[derive(Clone, Copy, Debug, PartialEq, Eq, Structural)]
pub enum AeadError {
    /// Encryption failure.
    Encrypt,
    /// Decryption / auth failure.
    Decrypt,
    /// Nonce must be 24 bytes.
    Nonce,
}

/// Directional AEAD keyed independently of Noise.
pub struct SessionAead {
    key: [u8; 32],
}

impl View for SessionAead {
    type V = Seq<u8>;

    closed spec fn view(&self) -> Seq<u8> {
        self.key@
    }
}

impl SessionAead {
    /// Create from a 32-byte key.
    pub fn new(key: &[u8; 32]) -> (a: Self)
        ensures
            a@ == key@,
    {
        Self { key: *key }
    }

    /// Seal plaintext with AAD.
    pub fn seal(&self, nonce24: &[u8; 24], aad: &[u8], plaintext: &[u8]) -> (r: Result<Vec<u8>, AeadError>)
        ensures
            (r is Ok) == xchacha_fits(plaintext@.len()),
            r matches Err(e) ==> e == AeadError::Encrypt,
            r matches Ok(ct) ==> ct@ == xchacha_seal(self@, nonce24@, aad@, plaintext@) && ct@.len() == plaintext@.len() + 16
                && xchacha_open(self@, nonce24@, aad@, ct@) == Some(plaintext@),
    {
        match xchacha_encrypt(&self.key, nonce24, aad, plaintext) {
            Ok(ct) => Ok(ct),
            Err(_) => Err(AeadError::Encrypt),
        }
    }

    /// Open ciphertext with AAD.
    pub fn open(&self, nonce24: &[u8; 24], aad: &[u8], ciphertext: &[u8]) -> (r: Result<Vec<u8>, AeadError>)
        ensures
            match r {
                Ok(p) => xchacha_open(self@, nonce24@, aad@, ciphertext@) == Some(p@) && p@.len() + 16 == ciphertext@.len(),
                Err(e) => e == AeadError::Decrypt && xchacha_open(self@, nonce24@, aad@, ciphertext@) is None,
            },
    {
        match xchacha_decrypt(&self.key, nonce24, aad, ciphertext) {
            Ok(p) => Ok(p),
            Err(_) => Err(AeadError::Decrypt),
        }
    }
}

} // verus!
