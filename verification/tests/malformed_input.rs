//! Deterministic randomized inputs, every length from 0 to 200 bytes, for
//! every function that parses bytes straight off the wire: `Err` is the
//! only correct answer to malformed input, never a panic.

use ppose::admission::{Invitation, InviteVerifyingKey, INVITATION_LEN};
use ppose::crypto::keys::IdentitySecret;
use ppose::network::forward::decode_forward_body;
use ppose::network::packet::decode_outer;
use ppose::onion::peel_layer;
use ppose::reliability::decode_inner;
use ppose::rendezvous::decode_reply;

/// Small deterministic PRNG (xorshift64) with a fixed seed.
struct Rng(u64);

impl Rng {
    fn next_u64(&mut self) -> u64 {
        let mut x = self.0;
        x ^= x << 13;
        x ^= x >> 7;
        x ^= x << 17;
        self.0 = x;
        x
    }

    fn bytes(&mut self, len: usize) -> Vec<u8> {
        let mut out = Vec::with_capacity(len);
        while out.len() < len {
            out.extend_from_slice(&self.next_u64().to_le_bytes());
        }
        out.truncate(len);
        out
    }
}

fn each_length_and_fill(mut on_input: impl FnMut(&[u8])) {
    const REPEATS: usize = 4;
    let mut rng = Rng(0x9E3779B97F4A7C15);
    for len in 0..=200usize {
        for _ in 0..REPEATS {
            on_input(&rng.bytes(len));
        }
    }
}

#[test]
fn decode_outer_never_panics() {
    each_length_and_fill(|bytes| {
        let _ = decode_outer(bytes);
    });
}

#[test]
fn decode_inner_never_panics() {
    each_length_and_fill(|bytes| {
        let _ = decode_inner(bytes);
    });
}

#[test]
fn decode_forward_body_never_panics() {
    each_length_and_fill(|bytes| {
        let _ = decode_forward_body(bytes);
    });
}

#[test]
fn peel_layer_never_panics() {
    let local = IdentitySecret::from_bytes([0x42; 32]);
    each_length_and_fill(|bytes| {
        let _ = peel_layer(&local, bytes);
    });
}

#[test]
fn invitation_decode_never_panics() {
    each_length_and_fill(|bytes| {
        let _ = Invitation::decode(bytes);
    });
    let mut rng = Rng(0xD1B54A32D192ED03);
    for _ in 0..64 {
        let bytes = rng.bytes(INVITATION_LEN);
        let _ = Invitation::decode(&bytes);
    }
}

#[test]
fn invite_verifying_key_from_bytes_never_panics() {
    let mut rng = Rng(0x2545F4914F6CDD1D);
    for _ in 0..500 {
        let mut key = [0u8; 32];
        key.copy_from_slice(&rng.bytes(32));
        let _ = InviteVerifyingKey::from_bytes(key);
    }
}

#[test]
fn rendezvous_decode_reply_never_panics() {
    each_length_and_fill(|bytes| {
        let _ = decode_reply(bytes);
    });
}
