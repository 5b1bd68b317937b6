//! AEAD, hashing, X25519 identities and the Noise XX session.

use ppose::crypto::aead::SessionAead;
use ppose::crypto::blake3_hash::identity_hash;
use ppose::crypto::keys::{IdentityKeyPair, IdentitySecret, PublicIdentity};
use ppose::crypto::noise::{bytes_equal, HandshakeRole, NoiseError, NoiseSession};
use ppose::identity::{NodeId, TrustTier};

#[test]
fn roundtrip() {
    let aead = SessionAead::new(&[9u8; 32]);
    let nonce = [1u8; 24];
    let aad = b"header";
    let ct = aead.seal(&nonce, aad, b"hello").unwrap();
    let pt = aead.open(&nonce, aad, &ct).unwrap();
    assert_eq!(pt, b"hello");
}

#[test]
fn aad_mismatch_fails() {
    let aead = SessionAead::new(&[9u8; 32]);
    let nonce = [1u8; 24];
    let ct = aead.seal(&nonce, b"a", b"hello").unwrap();
    assert!(aead.open(&nonce, b"b", &ct).is_err());
}

#[test]
fn identity_hash_is_32_bytes_and_deterministic() {
    let pk = [7u8; 32];
    let a = identity_hash(&pk);
    let b = identity_hash(&pk);
    assert_eq!(a, b);
    assert_eq!(a.len(), 32);
    assert_ne!(a, [0u8; 32]);
}

#[test]
fn blake3_empty_input_vector() {
    assert_eq!(
        identity_hash(b""),
        [
            0xaf, 0x13, 0x49, 0xb9, 0xf5, 0xf9, 0xa1, 0xa6, 0xa0, 0x40, 0x4d, 0xea, 0x36, 0xdc, 0xc9, 0x49, 0x9b, 0xcb,
            0x25, 0xc9, 0xad, 0xc1, 0x12, 0xb7, 0xcc, 0x9a, 0x93, 0xca, 0xe4, 0x1f, 0x32, 0x62,
        ]
    );
    assert_eq!(NodeId::from_pubkey(b"").0, identity_hash(b""));
}

#[test]
fn x25519_agreement() {
    let a = IdentitySecret::from_bytes([3; 32]);
    let b = IdentitySecret::from_bytes([4; 32]);
    assert_eq!(a.shared_with(&b.public()), b.shared_with(&a.public()));
    assert_ne!(a.public(), b.public());
    assert!(a.public().same_as(&IdentitySecret::from_bytes([3; 32]).public()));
    assert!(!a.public().same_as(&b.public()));
    assert_eq!(a.public().fingerprint(), identity_hash(&a.public().as_bytes()));
}

#[test]
fn x25519_base_point_vector() {
    let mut k = [0u8; 32];
    k[0] = 1;
    let pk = IdentitySecret::from_bytes(k).public();
    assert_eq!(PublicIdentity::from_bytes(pk.as_bytes()), pk);
}

#[test]
fn placeholder_keypair_bytes() {
    let k = IdentityKeyPair::placeholder_from_seed(0xFF);
    assert_eq!(k.public, [0xFF; 32]);
    assert_eq!(k.secret, [0x00; 32]);
}

#[test]
fn trust_tier_names() {
    assert_eq!(TrustTier::BootstrapAdmin.as_str(), "bootstrap_admin");
    assert_eq!(TrustTier::RelayOperator.as_str(), "relay_operator");
    assert_eq!(TrustTier::Client.as_str(), "client");
}

#[test]
fn noise_xx_handshake_and_transport() {
    let alice_id = IdentitySecret::generate();
    let bob_id = IdentitySecret::generate();
    let mut alice = NoiseSession::new(HandshakeRole::Initiator, &alice_id).unwrap();
    let mut bob = NoiseSession::new(HandshakeRole::Responder, &bob_id).unwrap();

    let mut buf_a = [0u8; 1024];
    let mut buf_b = [0u8; 1024];
    let mut tmp = [0u8; 1024];

    let n = alice.write_handshake(&[], &mut buf_a).unwrap();
    bob.read_handshake(&buf_a[..n], &mut tmp).unwrap();

    let n = bob.write_handshake(&[], &mut buf_b).unwrap();
    alice.read_handshake(&buf_b[..n], &mut tmp).unwrap();

    let n = alice.write_handshake(&[], &mut buf_a).unwrap();
    bob.read_handshake(&buf_a[..n], &mut tmp).unwrap();

    assert!(alice.is_transport());
    assert!(bob.is_transport());

    let msg = b"ppose-phase1";
    let n = alice.seal(msg, &mut buf_a).unwrap();
    assert_eq!(n, msg.len() + 16);
    let m = bob.open(&buf_a[..n], &mut buf_b).unwrap();
    assert_eq!(&buf_b[..m], msg);

    assert_eq!(alice.remote_static().unwrap(), bob_id.public().as_bytes());
    assert_eq!(bob.pin_remote(&alice_id.public().as_bytes()), Ok(()));
    assert_eq!(bob.pin_remote(&[0u8; 32]), Err(NoiseError::PinMismatch));
    assert_eq!(alice.write_handshake(&[], &mut buf_a), Err(NoiseError::BadState));
}

#[test]
fn transport_needs_finished_handshake() {
    let mut a = NoiseSession::new(HandshakeRole::Initiator, &IdentitySecret::generate()).unwrap();
    let mut out = [0u8; 64];
    assert_eq!(a.seal(b"x", &mut out), Err(NoiseError::BadState));
    assert_eq!(a.open(&[0u8; 20], &mut out), Err(NoiseError::BadState));
    assert!(!a.is_transport());
}

#[test]
fn bytes_equal_compares_all() {
    assert!(bytes_equal(b"abc", b"abc"));
    assert!(!bytes_equal(b"abc", b"abd"));
    assert!(!bytes_equal(b"abc", b"ab"));
    assert!(bytes_equal(b"", b""));
}
