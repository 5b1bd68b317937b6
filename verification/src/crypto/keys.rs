//! X25519 identity keys and the system randomness they are drawn from.

use rand_core::RngCore;
use vstd::prelude::*;

use crate::crypto::blake3_hash::{blake3_of, identity_hash};

verus! {

/// The X25519 function on a 32-byte scalar `k` and a 32-byte u-coordinate
/// `u` (RFC 7748).
pub uninterp spec fn x25519_of(k: Seq<u8>, u: Seq<u8>) -> Seq<u8>;

/// The X25519 base point: u = 9.
pub open spec fn base_point() -> Seq<u8> {
    seq![9u8].add(Seq::new(31, |i: int| 0u8))
}

/// The X25519 public key of a secret.
pub open spec fn x25519_public(secret: Seq<u8>) -> Seq<u8> {
    x25519_of(secret, base_point())
}

/// Calls `x25519_dalek::x25519`. Claims that the result is [`x25519_of`] of
/// the arguments, and the Diffie-Hellman agreement that the crate documents
/// for this function: for any secret `e` whose public key is `u`, the
/// result equals `x25519(e, public(k))`.
#[verifier::external_body]
fn x25519_call(k: [u8; 32], u: [u8; 32]) -> (r: [u8; 32])
    ensures
        r@ == x25519_of(k@, u@),
        forall|e: Seq<u8>| #![trigger x25519_public(e)] e.len() == 32 && u@ == x25519_public(e) ==> r@ == x25519_of(e, x25519_public(k@)),
{
    x25519_dalek::x25519(k, u)
}

/// Calls `rand_core::OsRng::fill_bytes` on the buffer. Nothing is claimed of
/// the bytes; their number does not change. The call panics if the
/// operating system's random source fails.
#[verifier::external_body]
pub(crate) fn fill_random(buf: &mut Vec<u8>)
    ensures
        final(buf)@.len() == old(buf)@.len(),
{
    rand_core::OsRng.fill_bytes(buf.as_mut_slice())
}

/// `n` bytes from the operating system's random source.
pub(crate) fn random_bytes(n: usize) -> (v: Vec<u8>)
    ensures
        v@.len() == n,
{
    let mut v: Vec<u8> = Vec::new();
    let mut i: usize = 0;
    while i < n
        invariant
            i <= n,
            v@.len() == i,
        decreases n - i,
    {
        v.push(0);
        i = i + 1;
    }
    fill_random(&mut v);
    v
}

/// 32 random bytes.
pub(crate) fn random_array32() -> [u8; 32] {
    let v = random_bytes(32);
    [
        v[0], v[1], v[2], v[3], v[4], v[5], v[6], v[7], v[8], v[9], v[10], v[11], v[12], v[13],
        v[14], v[15], v[16], v[17], v[18], v[19], v[20], v[21], v[22], v[23], v[24], v[25], v[26],
        v[27], v[28], v[29], v[30], v[31],
    ]
}

/// The base point as bytes.
fn base_point_bytes() -> (b: [u8; 32])
    ensures
        b@ == base_point(),
{
    let b: [u8; 32] = [9, 0, 0, 0, 0, 0, 0, 0, 0, 0, 0, 0, 0, 0, 0, 0, 0, 0, 0, 0, 0, 0, 0, 0, 0, 0, 0, 0, 0, 0, 0, 0];
    assert(b@ =~= base_point());
    b
}

/// Public X25519 identity (Noise static key, onion hop key).
#[derive(Clone, Copy, Debug, PartialEq, Eq, Hash)]
pub struct PublicIdentity {
    bytes: [u8; 32],
}

/// Secret X25519 identity.
#[derive(Clone)]
pub struct IdentitySecret {
    bytes: [u8; 32],
}

impl View for PublicIdentity {
    type V = Seq<u8>;

    closed spec fn view(&self) -> Seq<u8> {
        self.bytes@
    }
}

impl View for IdentitySecret {
    type V = Seq<u8>;

    closed spec fn view(&self) -> Seq<u8> {
        self.bytes@
    }
}

impl PublicIdentity {
    /// Wrap raw public key bytes.
    pub fn from_bytes(bytes: [u8; 32]) -> (p: Self)
        ensures
            p@ == bytes@,
    {
        Self { bytes }
    }

    /// Raw public key bytes.
    pub fn as_bytes(&self) -> (b: [u8; 32])
        ensures
            b@ == self@,
    {
        self.bytes
    }

    /// Fingerprint: `BLAKE3(public key)`.
    pub fn fingerprint(&self) -> (f: [u8; 32])
        ensures
            f@ == blake3_of(self@),
    {
        identity_hash(&self.bytes)
    }

    /// Byte-wise equality of two public keys, looking at every byte.
    pub fn same_as(&self, other: &PublicIdentity) -> (b: bool)
        ensures
            b == (self@ == other@),
    {
        let mut diff = false;
        let mut i: usize = 0;
        while i < 32
            invariant
                i <= 32,
                self.bytes@.len() == 32,
                other.bytes@.len() == 32,
                diff == exists|j: int| 0 <= j < i && self.bytes@[j] != other.bytes@[j],
            decreases 32 - i,
        {
            if self.bytes[i] != other.bytes[i] {
                diff = true;
            }
            i = i + 1;
        }
        proof {
            if !diff {
                assert(self@ =~= other@);
            }
        }
        !diff
    }
}

impl IdentitySecret {
    /// Fresh random identity.
    pub fn generate() -> (s: Self)
        ensures
            s@.len() == 32,
    {
        Self { bytes: random_array32() }
    }

    /// Load a secret from its 32 raw bytes.
    pub fn from_bytes(bytes: [u8; 32]) -> (s: Self)
        ensures
            s@ == bytes@,
    {
        Self { bytes }
    }

    /// Raw secret bytes (handle with care).
    pub fn to_bytes(&self) -> (b: [u8; 32])
        ensures
            b@ == self@,
    {
        self.bytes
    }

    /// The matching public identity.
    pub fn public(&self) -> (p: PublicIdentity)
        ensures
            p@ == x25519_public(self@),
    {
        PublicIdentity { bytes: x25519_call(self.bytes, base_point_bytes()) }
    }

    /// X25519 shared secret with `peer`. Whoever holds the secret behind
    /// `peer` computes the same value from this identity's public key.
    pub fn shared_with(&self, peer: &PublicIdentity) -> (s: [u8; 32])
        ensures
            s@ == x25519_of(self@, peer@),
            forall|e: Seq<u8>| #![trigger x25519_public(e)] e.len() == 32 && peer@ == x25519_public(e) ==> s@ == x25519_of(e, x25519_public(self@)),
    {
        x25519_call(self.bytes, peer.bytes)
    }
}

/// Placeholder identity keypair used for scaffolding and tests only.
#[derive(Clone, Debug, PartialEq, Eq)]
pub struct IdentityKeyPair {
    /// Public key bytes (32).
    pub public: [u8; 32],
    /// Secret key bytes (32) — never log or serialize in cleartext in production paths.
    pub secret: [u8; 32],
}

impl IdentityKeyPair {
    /// Create a non-cryptographic placeholder pair: every public byte is
    /// `seed`, every secret byte `seed + 1` (wrapping).
    pub fn placeholder_from_seed(seed: u8) -> (k: Self)
        ensures
            forall|i: int| 0 <= i < 32 ==> #[trigger] k.public@[i] == seed,
            forall|i: int| 0 <= i < 32 ==> #[trigger] k.secret@[i] == seed.wrapping_add(1),
    {
        let s = seed.wrapping_add(1);
        Self { public: [seed; 32], secret: [s; 32] }
    }
}

} // verus!
