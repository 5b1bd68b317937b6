//! Invitations and the trust store.

use ppose::admission::{AdmissionError, Invitation, InviteSigningKey, InviteVerifyingKey, TrustStore, INVITATION_LEN};
use ppose::crypto::keys::{IdentitySecret, PublicIdentity};

fn identity(seed: u8) -> PublicIdentity {
    IdentitySecret::from_bytes([seed; 32]).public()
}

#[test]
fn issue_and_verify_within_window() {
    let root = InviteSigningKey::from_bytes([1; 32]);
    let subject = identity(2);
    let invite = root.issue(&subject, 1_000, 100);
    assert_eq!(invite.verify(999), Err(AdmissionError::NotYetValid));
    assert_eq!(invite.verify(1_000), Ok(()));
    assert_eq!(invite.verify(1_050), Ok(()));
    assert_eq!(invite.verify(1_100), Err(AdmissionError::Expired));
}

#[test]
fn tampered_subject_rejected() {
    let root = InviteSigningKey::from_bytes([1; 32]);
    let subject = identity(2);
    let mut bytes = root.issue(&subject, 1_000, 100).encode();
    bytes[32] ^= 0xFF;
    let invite = Invitation::decode(&bytes).unwrap();
    assert_eq!(invite.verify(1_000), Err(AdmissionError::BadSignature));
}

#[test]
fn tampered_signature_rejected() {
    let root = InviteSigningKey::from_bytes([1; 32]);
    let subject = identity(2);
    let mut bytes = root.issue(&subject, 1_000, 100).encode();
    bytes[80] ^= 0xFF;
    let invite = Invitation::decode(&bytes).unwrap();
    assert_eq!(invite.verify(1_000), Err(AdmissionError::BadSignature));
}

#[test]
fn wire_roundtrip() {
    let root = InviteSigningKey::from_bytes([1; 32]);
    let subject = identity(2);
    let invite = root.issue(&subject, 1_000, 100);
    let encoded = invite.encode();
    assert_eq!(encoded.len(), INVITATION_LEN);
    let decoded = Invitation::decode(&encoded).unwrap();
    assert_eq!(decoded.verify(1_050), Ok(()));
    assert_eq!(decoded.subject(), subject.as_bytes());
    assert_eq!(decoded.issuer(), root.public());
}

#[test]
fn decode_rejects_wrong_length() {
    assert_eq!(Invitation::decode(&[0u8; 10]).unwrap_err(), AdmissionError::BadEncoding);
}

#[test]
fn direct_root_is_admitted_at_depth_zero() {
    let root = InviteSigningKey::from_bytes([1; 32]);
    let mut store = TrustStore::new();
    store.add_root(root.public());
    let root_as_subject = root.public().as_bytes();
    assert_eq!(store.trust_depth(&root_as_subject, 5, 1_000), Some(0));
}

#[test]
fn chain_admitted_within_depth_not_beyond() {
    let root = InviteSigningKey::from_bytes([1; 32]);
    let alice = InviteSigningKey::from_bytes([2; 32]);
    let bob_identity = identity(3);

    let mut store = TrustStore::new();
    store.add_root(root.public());

    let alice_as_subject = PublicIdentity::from_bytes(alice.public().as_bytes());
    let root_to_alice = root.issue(&alice_as_subject, 1_000, 1_000);
    store.ingest(root_to_alice, 1_000).unwrap();

    let alice_to_bob = alice.issue(&bob_identity, 1_000, 1_000);
    store.ingest(alice_to_bob, 1_000).unwrap();

    let bob_bytes = bob_identity.as_bytes();
    assert_eq!(store.trust_depth(&bob_bytes, 1, 1_000), None);
    assert_eq!(store.trust_depth(&bob_bytes, 2, 1_000), Some(2));
    assert!(store.is_admitted(&bob_bytes, 2, 1_000));
}

#[test]
fn expired_edge_stops_admitting_new_queries() {
    let root = InviteSigningKey::from_bytes([1; 32]);
    let subject = identity(2);
    let mut store = TrustStore::new();
    store.add_root(root.public());
    let invite = root.issue(&subject, 1_000, 50);
    store.ingest(invite, 1_000).unwrap();

    let subject_bytes = subject.as_bytes();
    assert!(store.is_admitted(&subject_bytes, 1, 1_020));
    assert!(!store.is_admitted(&subject_bytes, 1, 1_060));
}

#[test]
fn issuer_cap_limits_distinct_subjects() {
    let root = InviteSigningKey::from_bytes([1; 32]);
    let mut store = TrustStore::new();
    store.add_root(root.public());
    store.set_max_invitees_per_issuer(1);

    let first = identity(2);
    let second = identity(3);

    store.ingest(root.issue(&first, 1_000, 100), 1_000).unwrap();
    let err = store.ingest(root.issue(&second, 1_000, 100), 1_000);
    assert_eq!(err, Err(AdmissionError::IssuerCapReached));

    store.ingest(root.issue(&first, 1_000, 200), 1_000).unwrap();
}

#[test]
fn invitation_bytes_layout() {
    let root = InviteSigningKey::from_bytes([1; 32]);
    let subject = identity(2);
    let invite = root.issue(&subject, 0x0102, 0x0300);
    let b = invite.encode();
    assert_eq!(&b[0..32], &root.public().as_bytes());
    assert_eq!(&b[32..64], &subject.as_bytes());
    assert_eq!(&b[64..72], &[0, 0, 0, 0, 0, 0, 0x01, 0x02]);
    assert_eq!(&b[72..80], &[0, 0, 0, 0, 0, 0, 0x04, 0x02]);
}

#[test]
fn expiry_saturates() {
    let root = InviteSigningKey::from_bytes([1; 32]);
    let invite = root.issue(&identity(2), u64::MAX - 5, 100);
    assert_eq!(invite.verify(u64::MAX - 1), Ok(()));
    assert_eq!(invite.verify(u64::MAX), Err(AdmissionError::Expired));
}

#[test]
fn rejected_invitation_changes_nothing() {
    let root = InviteSigningKey::from_bytes([1; 32]);
    let subject = identity(2);
    let mut store = TrustStore::new();
    store.add_root(root.public());
    assert_eq!(store.ingest(root.issue(&subject, 1_000, 100), 900), Err(AdmissionError::NotYetValid));
    assert!(!store.is_admitted(&subject.as_bytes(), 3, 1_000));
}

#[test]
fn unrelated_key_is_not_admitted() {
    let root = InviteSigningKey::from_bytes([1; 32]);
    let other = InviteSigningKey::from_bytes([9; 32]);
    let mut store = TrustStore::new();
    store.add_root(root.public());
    store.ingest(other.issue(&identity(4), 10, 100), 10).unwrap();
    assert_eq!(store.trust_depth(&identity(4).as_bytes(), 10, 10), None);
    assert_eq!(store.trust_depth(&identity(4).as_bytes(), 0, 10), None);
}

#[test]
fn generated_keys_sign_and_verify() {
    let k = InviteSigningKey::generate();
    let again = InviteSigningKey::from_bytes(k.to_bytes());
    assert_eq!(k.public(), again.public());
    let invite = k.issue(&identity(5), 0, 10);
    assert_eq!(invite.verify(5), Ok(()));
}

#[test]
fn some_byte_strings_are_not_keys() {
    let mut rejected = 0;
    for i in 0u8..64 {
        let mut b = [i; 32];
        b[31] &= 0x7f;
        match InviteVerifyingKey::from_bytes(b) {
            Ok(k) => assert_eq!(k.as_bytes(), b),
            Err(e) => {
                assert_eq!(e, AdmissionError::BadEncoding);
                rejected += 1;
            }
        }
    }
    assert!(rejected > 0);
    assert!(InviteVerifyingKey::from_bytes(InviteSigningKey::from_bytes([3; 32]).public().as_bytes()).is_ok());
}
