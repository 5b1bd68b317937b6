//! Cryptographic primitives: keys, Noise XX, standalone AEAD, hashing.

pub mod aead;
pub mod blake3_hash;
pub mod keys;
pub mod noise;

pub use aead::{AeadError, SessionAead};
pub use blake3_hash::identity_hash;
pub use keys::{IdentitySecret, PublicIdentity};
pub use noise::{HandshakeRole, NoiseError, NoiseSession};
