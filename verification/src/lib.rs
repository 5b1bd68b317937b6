//! PPoSE — Peer-to-Peer Obfuscated Stateless Exchange.
//!
//! Wire formats, reliability state machine, onion layering, rendezvous and
//! admission logic, each stated and proved with Verus.

#![allow(unused_imports)]

use vstd::prelude::*;

pub mod admission;
pub mod bytes;
pub mod cli;
pub mod config;
pub mod cover;
pub mod crypto;
pub mod identity;
pub mod network;
pub mod onion;
pub mod relay;
pub mod rendezvous;
pub mod session;
pub mod reliability;

verus! {

/// Wire version byte (`VER` field).
pub const PROTOCOL_VERSION: u8 = 0x03;

/// Magic bytes identifying PPoSE datagrams.
pub const MAGIC: [u8; 2] = [0x4A, 0x7F];

/// First magic byte.
pub const MAGIC0: u8 = 0x4A;

/// Second magic byte.
pub const MAGIC1: u8 = 0x7F;

/// Cleartext outer header length (bytes).
pub const OUTER_HEADER_LEN: usize = 8;

/// Soft maximum UDP datagram size.
pub const MAX_DATAGRAM: usize = 1200;

/// Crate version string.
pub const CRATE_VERSION: &'static str = "0.5.0";

/// Noise protocol string pinned for interop (authoritative).
pub const NOISE_PARAMS: &'static str = "Noise_XX_25519_ChaChaPoly_BLAKE2s";

} // verus!
