//! Invitation Web-of-Trust admission.
//!
//! An issuer holding an [`InviteSigningKey`] can vouch for a peer's PPoSE
//! (X25519) identity by issuing a signed, time-bounded [`Invitation`]. A
//! [`TrustStore`] anchored at one or more trusted roots walks chains of
//! invitations to decide whether an unknown identity should be admitted.
//!
//! This is **not** a cryptographic Sybil defense: a signature only proves
//! that an issuer chose to vouch for a subject key, and nothing stops an
//! admitted issuer from vouching for many keys of its own.
//! [`TrustStore::set_max_invitees_per_issuer`] caps how many distinct
//! subjects one local store admits through a single issuer; it limits, but
//! does not solve, such farming, and only from one node's point of view.

use std::collections::BTreeMap;
use std::collections::BTreeSet;

use vstd::prelude::*;
use vstd::std_specs::btree::{spec_btree_keys_iter, spec_btree_map_iter};
use vstd::std_specs::iter::IteratorSpec;

use crate::bytes::{array32_at, be_bytes, be_value, key256, key256_of, lemma_be_roundtrip, lemma_be_value_bound, pow256, push_be, read_be};
use crate::crypto::keys::PublicIdentity;

verus! {

broadcast use vstd::std_specs::btree::group_btree_axioms, vstd::laws_cmp::group_laws_cmp;

/// Wire length of an encoded [`Invitation`]: issuer(32) + subject(32) +
/// issued_at(8) + expires_at(8) + signature(64).
pub const INVITATION_LEN: usize = 144;

/// Signature domain label, `"ppose-invite-v1"`.
pub const DOMAIN: [u8; 15] = [0x70, 0x70, 0x6f, 0x73, 0x65, 0x2d, 0x69, 0x6e, 0x76, 0x69, 0x74, 0x65, 0x2d, 0x76, 0x31];

/// The bytes of [`DOMAIN`].
pub open spec fn domain() -> Seq<u8> {
    seq![0x70u8, 0x70, 0x6f, 0x73, 0x65, 0x2d, 0x69, 0x6e, 0x76, 0x69, 0x74, 0x65, 0x2d, 0x76, 0x31]
}

/// The Ed25519 public key of a 32-byte secret seed (RFC 8032).
pub uninterp spec fn ed25519_public_of(seed: Seq<u8>) -> Seq<u8>;

/// The Ed25519 signature of `msg` under the key with secret seed `seed`.
pub uninterp spec fn ed25519_signature_of(seed: Seq<u8>, msg: Seq<u8>) -> Seq<u8>;

/// Whether `pk` decodes to an Ed25519 public key under which `sig` is a
/// valid signature of `msg`.
pub uninterp spec fn ed25519_accepts(pk: Seq<u8>, msg: Seq<u8>, sig: Seq<u8>) -> bool;

/// Whether 32 bytes are a valid compressed Edwards point.
pub uninterp spec fn ed25519_key_valid(pk: Seq<u8>) -> bool;

/// Calls `ed25519_dalek::SigningKey::generate` with the operating system's
/// random source and returns the seed. Nothing is claimed of the bytes.
#[verifier::external_body]
fn ed25519_generate_seed() -> [u8; 32] {
    ed25519_dalek::SigningKey::generate(&mut rand_core::OsRng).to_bytes()
}

/// Calls `ed25519_dalek::SigningKey::from_bytes(seed).verifying_key()`.
/// Claims that the key bytes are [`ed25519_public_of`] of the seed, and that
/// they decode again (a compressed point of the curve always decompresses).
#[verifier::external_body]
fn ed25519_public(seed: [u8; 32]) -> (pk: [u8; 32])
    ensures
        pk@ == ed25519_public_of(seed@),
        ed25519_key_valid(pk@),
{
    ed25519_dalek::SigningKey::from_bytes(&seed).verifying_key().to_bytes()
}

/// Calls `ed25519_dalek::Signer::sign` with the signing key of `seed`.
/// Claims that the signature is [`ed25519_signature_of`] the seed and the
/// message (Ed25519 signing is deterministic), and that the matching public
/// key accepts it, as the crate documents for a signature it made.
#[verifier::external_body]
fn ed25519_sign(seed: [u8; 32], msg: &[u8]) -> (sig: [u8; 64])
    ensures
        sig@ == ed25519_signature_of(seed@, msg@),
        ed25519_accepts(ed25519_public_of(seed@), msg@, sig@),
{
    ed25519_dalek::Signer::sign(&ed25519_dalek::SigningKey::from_bytes(&seed), msg).to_bytes()
}

/// Calls `ed25519_dalek::VerifyingKey::from_bytes`. Claims that it succeeds
/// exactly on [`ed25519_key_valid`] bytes.
#[verifier::external_body]
fn ed25519_key_check(pk: [u8; 32]) -> (b: bool)
    ensures
        b == ed25519_key_valid(pk@),
{
    ed25519_dalek::VerifyingKey::from_bytes(&pk).is_ok()
}

/// Calls `ed25519_dalek::Verifier::verify` on the key `pk` decodes to (a key
/// that does not decode verifies nothing). Claims that the answer is
/// [`ed25519_accepts`] of the arguments.
#[verifier::external_body]
fn ed25519_verify(pk: [u8; 32], msg: &[u8], sig: [u8; 64]) -> (b: bool)
    ensures
        b == ed25519_accepts(pk@, msg@, sig@),
{
    match ed25519_dalek::VerifyingKey::from_bytes(&pk) {
        Ok(key) => ed25519_dalek::Verifier::verify(&key, msg, &ed25519_dalek::Signature::from_bytes(&sig)).is_ok(),
        Err(_) => false,
    }
}

/// Errors issuing, verifying, decoding, or admitting an [`Invitation`].
#[derive(Clone, Copy, Debug, PartialEq, Eq, Structural)]
pub enum AdmissionError {
    /// The Ed25519 signature does not verify over the invitation fields.
    BadSignature,
    /// The byte slice is not a well-formed encoded invitation or key.
    BadEncoding,
    /// `now` is before the invitation's `issued_at`.
    NotYetValid,
    /// `now` is at or after the invitation's `expires_at`.
    Expired,
    /// The issuer has already vouched for `max_invitees_per_issuer` distinct
    /// subjects in this local store.
    IssuerCapReached,
}

/// The message of each admission error.
pub open spec fn admission_message(e: AdmissionError) -> Seq<char> {
    match e {
        AdmissionError::BadSignature => "invitation signature does not verify"@,
        AdmissionError::BadEncoding => "invalid invitation encoding"@,
        AdmissionError::NotYetValid => "invitation is not yet valid"@,
        AdmissionError::Expired => "invitation has expired"@,
        AdmissionError::IssuerCapReached => "issuer has reached its admitted-subject cap on this store"@,
    }
}

impl AdmissionError {
    /// Human-readable message.
    pub fn message(&self) -> (s: &'static str)
        ensures
            s@ == admission_message(*self),
    {
        match self {
            AdmissionError::BadSignature => "invitation signature does not verify",
            AdmissionError::BadEncoding => "invalid invitation encoding",
            AdmissionError::NotYetValid => "invitation is not yet valid",
            AdmissionError::Expired => "invitation has expired",
            AdmissionError::IssuerCapReached => "issuer has reached its admitted-subject cap on this store",
        }
    }
}

/// What an invitation's signature covers: the domain label, issuer key,
/// subject key, and both times as 8 big-endian bytes.
pub open spec fn payload(issuer: Seq<u8>, subject: Seq<u8>, issued_at: u64, expires_at: u64) -> Seq<u8> {
    domain() + issuer + subject + be_bytes(issued_at as nat, 8) + be_bytes(expires_at as nat, 8)
}

/// The bytes an invitation's signature covers.
pub fn signing_payload(issuer: &[u8; 32], subject: &[u8; 32], issued_at: u64, expires_at: u64) -> (r: Vec<u8>)
    ensures
        r@ == payload(issuer@, subject@, issued_at, expires_at),
{
    let mut buf: Vec<u8> = Vec::with_capacity(95);
    buf.extend_from_slice(&DOMAIN);
    buf.extend_from_slice(issuer);
    buf.extend_from_slice(subject);
    push_be(&mut buf, issued_at, 8);
    push_be(&mut buf, expires_at, 8);
    assert(DOMAIN@ =~= domain());
    assert(buf@ =~= payload(issuer@, subject@, issued_at, expires_at));
    buf
}

/// Ed25519 signing identity used to issue invitations. Kept separate from
/// the X25519 Noise identity: a distinct key for a distinct purpose.
pub struct InviteSigningKey {
    seed: [u8; 32],
}

impl View for InviteSigningKey {
    type V = Seq<u8>;

    closed spec fn view(&self) -> Seq<u8> {
        self.seed@
    }
}

/// Ed25519 public verifying key for an invitation issuer; always a valid
/// compressed point.
#[derive(Clone, Copy, Debug, PartialEq, Eq, Hash)]
pub struct InviteVerifyingKey {
    bytes: [u8; 32],
}

impl View for InviteVerifyingKey {
    type V = Seq<u8>;

    closed spec fn view(&self) -> Seq<u8> {
        self.bytes@
    }
}

impl InviteVerifyingKey {
    #[verifier::type_invariant]
    spec fn decodes(self) -> bool {
        ed25519_key_valid(self.bytes@)
    }

    /// Parse from raw 32 bytes: refused with
    /// [`AdmissionError::BadEncoding`] unless they are a valid compressed
    /// Edwards point.
    pub fn from_bytes(bytes: [u8; 32]) -> (r: Result<Self, AdmissionError>)
        ensures
            ed25519_key_valid(bytes@) <==> r is Ok,
            r matches Ok(k) ==> k@ == bytes@,
            r matches Err(e) ==> e == AdmissionError::BadEncoding,
    {
        if ed25519_key_check(bytes) {
            Ok(Self { bytes })
        } else {
            Err(AdmissionError::BadEncoding)
        }
    }

    /// Raw 32 bytes.
    pub fn as_bytes(&self) -> (b: [u8; 32])
        ensures
            b@ == self@,
            ed25519_key_valid(b@),
    {
        proof {
            use_type_invariant(self);
        }
        self.bytes
    }
}

impl InviteSigningKey {
    /// Generate a fresh signing identity.
    pub fn generate() -> Self {
        Self { seed: ed25519_generate_seed() }
    }

    /// Construct from a raw 32-byte seed.
    pub fn from_bytes(bytes: [u8; 32]) -> (k: Self)
        ensures
            k@ == bytes@,
    {
        Self { seed: bytes }
    }

    /// Raw seed bytes (handle with care).
    pub fn to_bytes(&self) -> (b: [u8; 32])
        ensures
            b@ == self@,
    {
        self.seed
    }

    /// Corresponding public verifying key.
    pub fn public(&self) -> (p: InviteVerifyingKey)
        ensures
            p@ == ed25519_public_of(self@),
    {
        InviteVerifyingKey { bytes: ed25519_public(self.seed) }
    }

    /// Vouch for `subject`'s PPoSE identity, valid from `now` for `ttl_secs`
    /// (both in unix seconds; the expiry saturates). The issuer's key
    /// accepts the signature made.
    pub fn issue(&self, subject: &PublicIdentity, now: u64, ttl_secs: u64) -> (inv: Invitation)
        ensures
            inv@ == issued(self@, subject@, now, ttl_secs),
            ed25519_accepts(inv@.issuer, payload(inv@.issuer, inv@.subject, inv@.issued_at, inv@.expires_at), inv@.signature),
    {
        let issuer = self.public();
        let issuer_bytes = issuer.as_bytes();
        let subject_bytes = subject.as_bytes();
        let expires_at = now.saturating_add(ttl_secs);
        let msg = signing_payload(&issuer_bytes, &subject_bytes, now, expires_at);
        let signature = ed25519_sign(self.seed, msg.as_slice());
        Invitation { issuer, subject: subject_bytes, issued_at: now, expires_at, signature }
    }
}

/// Abstract value of an [`Invitation`].
pub struct InvitationView {
    /// Issuer's Ed25519 public key.
    pub issuer: Seq<u8>,
    /// X25519 identity vouched for.
    pub subject: Seq<u8>,
    /// Start of validity (unix seconds).
    pub issued_at: u64,
    /// End of validity, exclusive (unix seconds).
    pub expires_at: u64,
    /// Ed25519 signature over [`payload`].
    pub signature: Seq<u8>,
}

/// `now + ttl`, saturating at `u64::MAX`.
pub open spec fn saturating_sum(now: u64, ttl: u64) -> u64 {
    if now + ttl > u64::MAX { u64::MAX } else { (now + ttl) as u64 }
}

/// The invitation that the key with seed `seed` issues for `subject`.
pub open spec fn issued(seed: Seq<u8>, subject: Seq<u8>, now: u64, ttl: u64) -> InvitationView {
    let issuer = ed25519_public_of(seed);
    let expires_at = saturating_sum(now, ttl);
    InvitationView {
        issuer,
        subject,
        issued_at: now,
        expires_at,
        signature: ed25519_signature_of(seed, payload(issuer, subject, now, expires_at)),
    }
}

/// `now` lies in `[issued_at, expires_at)`.
pub open spec fn time_valid(v: InvitationView, now: u64) -> bool {
    v.issued_at <= now && now < v.expires_at
}

/// What [`Invitation::verify`] answers: the time window first, then the
/// signature.
pub open spec fn verification(v: InvitationView, now: u64) -> Result<(), AdmissionError> {
    if !time_valid(v, now) {
        Err(if now < v.issued_at { AdmissionError::NotYetValid } else { AdmissionError::Expired })
    } else if ed25519_accepts(v.issuer, payload(v.issuer, v.subject, v.issued_at, v.expires_at), v.signature) {
        Ok(())
    } else {
        Err(AdmissionError::BadSignature)
    }
}

/// The wire form of an invitation.
pub open spec fn invitation_bytes(v: InvitationView) -> Seq<u8> {
    v.issuer + v.subject + be_bytes(v.issued_at as nat, 8) + be_bytes(v.expires_at as nat, 8) + v.signature
}

/// The invitation whose wire form is `b` (of length [`INVITATION_LEN`]).
pub open spec fn invitation_parse(b: Seq<u8>) -> InvitationView {
    InvitationView {
        issuer: b.subrange(0, 32),
        subject: b.subrange(32, 64),
        issued_at: be_value(b.subrange(64, 72)) as u64,
        expires_at: be_value(b.subrange(72, 80)) as u64,
        signature: b.subrange(80, 144),
    }
}

/// An invitation a key issued verifies at every time inside its window:
/// verification never answers `BadSignature` for it.
pub proof fn lemma_issued_verifies(seed: Seq<u8>, subject: Seq<u8>, now: u64, ttl: u64, t: u64)
    requires
        ed25519_accepts(
            ed25519_public_of(seed),
            payload(ed25519_public_of(seed), subject, now, saturating_sum(now, ttl)),
            ed25519_signature_of(seed, payload(ed25519_public_of(seed), subject, now, saturating_sum(now, ttl))),
        ),
    ensures
        verification(issued(seed, subject, now, ttl), t) == if t < now {
            Err::<(), AdmissionError>(AdmissionError::NotYetValid)
        } else if t >= saturating_sum(now, ttl) {
            Err::<(), AdmissionError>(AdmissionError::Expired)
        } else {
            Ok::<(), AdmissionError>(())
        },
{
}

/// Parsing the wire form of an invitation gives the invitation back.
pub proof fn lemma_invitation_roundtrip(v: InvitationView)
    requires
        v.issuer.len() == 32,
        v.subject.len() == 32,
        v.signature.len() == 64,
    ensures
        invitation_bytes(v).len() == INVITATION_LEN,
        invitation_parse(invitation_bytes(v)) == v,
{
    reveal_with_fuel(pow256, 9);
    lemma_be_roundtrip(v.issued_at as nat, 8);
    lemma_be_roundtrip(v.expires_at as nat, 8);
    let b = invitation_bytes(v);
    assert(b.subrange(0, 32) =~= v.issuer);
    assert(b.subrange(32, 64) =~= v.subject);
    assert(b.subrange(64, 72) =~= be_bytes(v.issued_at as nat, 8));
    assert(b.subrange(72, 80) =~= be_bytes(v.expires_at as nat, 8));
    assert(b.subrange(80, 144) =~= v.signature);
}

/// A signed, time-bounded vouch: `issuer` claims `subject` should be trusted.
#[derive(Clone, Debug)]
pub struct Invitation {
    issuer: InviteVerifyingKey,
    subject: [u8; 32],
    issued_at: u64,
    expires_at: u64,
    signature: [u8; 64],
}

impl View for Invitation {
    type V = InvitationView;

    closed spec fn view(&self) -> InvitationView {
        InvitationView {
            issuer: self.issuer@,
            subject: self.subject@,
            issued_at: self.issued_at,
            expires_at: self.expires_at,
            signature: self.signature@,
        }
    }
}

/// The first 64 bytes of `s` from `start`.
fn array64_at(s: &[u8], start: usize) -> (a: [u8; 64])
    requires
        start + 64 <= s@.len(),
    ensures
        a@ == s@.subrange(start as int, start + 64),
{
    let len = s.len();
    let mut a = [0u8; 64];
    let mut i: usize = 0;
    while i < 64
        invariant
            len == s@.len(),
            i <= 64,
            start + 64 <= s@.len(),
            a@.len() == 64,
            forall|j: int| 0 <= j < i ==> a@[j] == s@[start + j],
        decreases 64 - i,
    {
        a[i] = s[start + i];
        i = i + 1;
    }
    assert(a@ =~= s@.subrange(start as int, start + 64));
    a
}

impl Invitation {
    /// Verify the `[issued_at, expires_at)` window against `now` (unix
    /// seconds), then the signature.
    pub fn verify(&self, now: u64) -> (r: Result<(), AdmissionError>)
        ensures
            r == verification(self@, now),
    {
        if !self.time_valid(now) {
            return Err(if now < self.issued_at { AdmissionError::NotYetValid } else { AdmissionError::Expired });
        }
        let issuer_bytes = self.issuer.as_bytes();
        let msg = signing_payload(&issuer_bytes, &self.subject, self.issued_at, self.expires_at);
        if ed25519_verify(issuer_bytes, msg.as_slice(), self.signature) {
            Ok(())
        } else {
            Err(AdmissionError::BadSignature)
        }
    }

    /// The `[issued_at, expires_at)` window check alone, with no signature
    /// verification.
    pub fn time_valid(&self, now: u64) -> (b: bool)
        ensures
            b == time_valid(self@, now),
    {
        now >= self.issued_at && now < self.expires_at
    }

    /// Issuer that vouched for [`subject`](Self::subject).
    pub fn issuer(&self) -> (k: InviteVerifyingKey)
        ensures
            k@ == self@.issuer,
    {
        self.issuer
    }

    /// X25519 identity bytes being vouched for.
    pub fn subject(&self) -> (s: [u8; 32])
        ensures
            s@ == self@.subject,
    {
        self.subject
    }

    /// Encode to the fixed-length wire form. The issuer key in it always
    /// decodes.
    pub fn encode(&self) -> (out: [u8; INVITATION_LEN])
        ensures
            out@ == invitation_bytes(self@),
            ed25519_key_valid(self@.issuer),
    {
        let issuer_bytes = self.issuer.as_bytes();
        let mut v: Vec<u8> = Vec::with_capacity(INVITATION_LEN);
        v.extend_from_slice(&issuer_bytes);
        v.extend_from_slice(&self.subject);
        push_be(&mut v, self.issued_at, 8);
        push_be(&mut v, self.expires_at, 8);
        v.extend_from_slice(&self.signature);
        proof {
            crate::bytes::lemma_be_bytes_len(self.issued_at as nat, 8);
            crate::bytes::lemma_be_bytes_len(self.expires_at as nat, 8);
            assert(v@ =~= invitation_bytes(self@));
        }
        let mut out = [0u8; INVITATION_LEN];
        let mut i: usize = 0;
        while i < INVITATION_LEN
            invariant
                i <= INVITATION_LEN,
                v@.len() == INVITATION_LEN,
                out@.len() == INVITATION_LEN,
                forall|j: int| 0 <= j < i ==> out@[j] == v@[j],
            decreases INVITATION_LEN - i,
        {
            out[i] = v[i];
            i = i + 1;
        }
        assert(out@ =~= v@);
        out
    }

    /// Decode from the fixed-length wire form. Only parses the fields; call
    /// [`verify`](Self::verify) to check the signature and expiry. Refused
    /// with [`AdmissionError::BadEncoding`] if `bytes` has the wrong length
    /// or the issuer key does not decode.
    pub fn decode(bytes: &[u8]) -> (r: Result<Self, AdmissionError>)
        ensures
            r is Ok <==> (bytes@.len() == INVITATION_LEN && ed25519_key_valid(bytes@.subrange(0, 32))),
            r matches Ok(inv) ==> inv@ == invitation_parse(bytes@),
            r matches Err(e) ==> e == AdmissionError::BadEncoding,
    {
        if bytes.len() != INVITATION_LEN {
            return Err(AdmissionError::BadEncoding);
        }
        let issuer_bytes = array32_at(bytes, 0);
        let subject = array32_at(bytes, 32);
        let issued_at = read_be(bytes, 64, 8);
        let expires_at = read_be(bytes, 72, 8);
        let signature = array64_at(bytes, 80);
        let issuer = match InviteVerifyingKey::from_bytes(issuer_bytes) {
            Ok(k) => k,
            Err(e) => return Err(e),
        };
        Ok(Self { issuer, subject, issued_at, expires_at, signature })
    }
}

/// Abstract state of a [`TrustStore`].
pub struct TrustView {
    /// Keys of the trusted roots.
    pub roots: Set<(u128, u128)>,
    /// Issuer key -> subject key -> invitation.
    pub edges: Map<(u128, u128), Map<(u128, u128), InvitationView>>,
    /// Per-issuer cap on distinct subjects.
    pub max_invitees: nat,
}

/// `a` vouches for `b` with an invitation valid at `now`.
pub open spec fn trust_edge(v: TrustView, a: (u128, u128), b: (u128, u128), now: u64) -> bool {
    v.edges.contains_key(a) && v.edges[a].contains_key(b) && time_valid(v.edges[a][b], now)
}

/// The keys vouched for, at `now`, by some member of `r`.
pub open spec fn vouched(v: TrustView, r: Set<(u128, u128)>, now: u64) -> Set<(u128, u128)> {
    Set::new(|b: (u128, u128)| exists|a: (u128, u128)| #[trigger] r.contains(a) && trust_edge(v, a, b, now))
}

/// The keys within `k` invitation hops of a root, at `now`.
pub open spec fn reach(v: TrustView, now: u64, k: nat) -> Set<(u128, u128)>
    decreases k,
{
    if k == 0 {
        v.roots
    } else {
        reach(v, now, (k - 1) as nat).union(vouched(v, reach(v, now, (k - 1) as nat), now))
    }
}

/// The least depth `d..=max` at which `s` is reached, if any.
pub open spec fn first_depth(v: TrustView, s: (u128, u128), now: u64, d: nat, max: nat) -> Option<u8>
    decreases max + 1 - d,
{
    if d > max {
        None
    } else if reach(v, now, d).contains(s) {
        Some(d as u8)
    } else {
        first_depth(v, s, now, d + 1, max)
    }
}

/// Shortest invitation-chain length from a root to `s`, if one exists
/// within `max_depth` hops using invitations valid at `now`.
pub open spec fn depth_of(v: TrustView, s: (u128, u128), max_depth: u8, now: u64) -> Option<u8> {
    if v.roots.contains(s) {
        Some(0)
    } else {
        first_depth(v, s, now, 1, max_depth as nat)
    }
}

/// What ingesting `inv` at `now` does, from state `o` to state `n`: a
/// verification failure changes nothing; otherwise the issuer gets an entry
/// (empty if it had none), and the invitation is stored under its subject
/// unless that would take the issuer past the cap.
pub open spec fn ingest_step(o: TrustView, n: TrustView, inv: InvitationView, now: u64, r: Result<(), AdmissionError>) -> bool {
    let a = key256(inv.issuer);
    let b = key256(inv.subject);
    let subs = if o.edges.contains_key(a) { o.edges[a] } else { Map::empty() };
    &&& n.roots == o.roots
    &&& n.max_invitees == o.max_invitees
    &&& match verification(inv, now) {
        Err(e) => r == Err::<(), AdmissionError>(e) && n.edges == o.edges,
        Ok(_) => if !subs.contains_key(b) && subs.dom().len() >= o.max_invitees {
            r == Err::<(), AdmissionError>(AdmissionError::IssuerCapReached) && n.edges == o.edges.insert(a, subs)
        } else {
            r == Ok::<(), AdmissionError>(()) && n.edges == o.edges.insert(a, subs.insert(b, inv))
        },
    }
}

/// Ingesting never takes an issuer past the cap: an issuer that had at most
/// `max_invitees` subjects has at most that many afterwards.
pub proof fn lemma_ingest_respects_cap(o: TrustView, n: TrustView, inv: InvitationView, now: u64, r: Result<(), AdmissionError>)
    requires
        ingest_step(o, n, inv, now, r),
        o.edges.contains_key(key256(inv.issuer)) ==> o.edges[key256(inv.issuer)].dom().finite()
            && o.edges[key256(inv.issuer)].dom().len() <= o.max_invitees,
    ensures
        r is Ok ==> n.edges.contains_key(key256(inv.issuer)) && n.edges[key256(inv.issuer)].dom().len() <= n.max_invitees,
        r is Err && o.edges.contains_key(key256(inv.issuer)) ==> n.edges[key256(inv.issuer)] == o.edges[key256(inv.issuer)],
{
    let a = key256(inv.issuer);
    let b = key256(inv.subject);
    let subs = if o.edges.contains_key(a) { o.edges[a] } else { Map::empty() };
    assert(subs.dom().finite()) by {
        if !o.edges.contains_key(a) {
            assert(subs.dom() =~= Set::<(u128, u128)>::empty());
        }
    }
    if verification(inv, now) is Ok {
        if !(!subs.contains_key(b) && subs.dom().len() >= o.max_invitees) {
            let s2 = subs.insert(b, inv);
            assert(s2.dom() =~= subs.dom().insert(b));
            if subs.contains_key(b) {
                assert(subs.dom().insert(b) =~= subs.dom());
            }
        }
    } else {
        assert(n.edges == o.edges);
    }
}

/// Membership grows with the depth.
proof fn lemma_reach_mono(v: TrustView, now: u64, i: nat, j: nat)
    requires
        i <= j,
    ensures
        reach(v, now, i).subset_of(reach(v, now, j)),
    decreases j,
{
    if i < j {
        lemma_reach_mono(v, now, i, (j - 1) as nat);
    }
}

/// Once a step adds nothing, nothing is ever added.
proof fn lemma_reach_stable(v: TrustView, now: u64, k: nat, j: nat)
    requires
        reach(v, now, k + 1) == reach(v, now, k),
        k <= j,
    ensures
        reach(v, now, j) == reach(v, now, k),
    decreases j,
{
    if k < j {
        lemma_reach_stable(v, now, k, (j - 1) as nat);
    }
}

/// A key missing from every depth from `d` on has no first depth there.
proof fn lemma_first_depth_none(v: TrustView, s: (u128, u128), now: u64, d: nat, max: nat)
    requires
        forall|j: nat| d <= j ==> !(#[trigger] reach(v, now, j)).contains(s),
    ensures
        first_depth(v, s, now, d, max) is None,
    decreases max + 1 - d,
{
    if d <= max {
        assert(!reach(v, now, d).contains(s));
        lemma_first_depth_none(v, s, now, d + 1, max);
    }
}

/// Local admission policy: trusted roots plus received invitations.
pub struct TrustStore {
    roots: BTreeSet<(u128, u128)>,
    edges: BTreeMap<(u128, u128), BTreeMap<(u128, u128), Invitation>>,
    max_invitees_per_issuer: usize,
}

/// The views of a table of invitations.
pub open spec fn subjects_view(m: Map<(u128, u128), Invitation>) -> Map<(u128, u128), InvitationView> {
    Map::new(|k: (u128, u128)| m.contains_key(k), |k: (u128, u128)| m[k]@)
}

impl View for TrustStore {
    type V = TrustView;

    closed spec fn view(&self) -> TrustView {
        TrustView {
            roots: self.roots@,
            edges: Map::new(
                |a: (u128, u128)| self.edges@.contains_key(a),
                |a: (u128, u128)| subjects_view(self.edges@[a]@),
            ),
            max_invitees: self.max_invitees_per_issuer as nat,
        }
    }
}

impl Default for TrustStore {
    fn default() -> (s: Self)
        ensures
            s@.roots == Set::<(u128, u128)>::empty(),
            s@.edges == Map::<(u128, u128), Map<(u128, u128), InvitationView>>::empty(),
            s@.max_invitees == usize::MAX,
    {
        TrustStore::new()
    }
}

impl TrustStore {
    /// Empty store with no trusted roots and no per-issuer cap.
    pub fn new() -> (s: Self)
        ensures
            s@.roots == Set::<(u128, u128)>::empty(),
            s@.edges == Map::<(u128, u128), Map<(u128, u128), InvitationView>>::empty(),
            s@.max_invitees == usize::MAX,
    {
        let s = Self { roots: BTreeSet::new(), edges: BTreeMap::new(), max_invitees_per_issuer: usize::MAX };
        assert(s@.edges =~= Map::<(u128, u128), Map<(u128, u128), InvitationView>>::empty());
        s
    }

    /// Trust `root` directly: invitations it issues need no further vouching.
    pub fn add_root(&mut self, root: InviteVerifyingKey)
        ensures
            final(self)@ == (TrustView { roots: old(self)@.roots.insert(key256(root@)), ..old(self)@ }),
    {
        let b = root.as_bytes();
        let k = key256_of(&b);
        self.roots.insert(k);
    }

    /// Cap how many distinct subjects a single issuer may have admitted into
    /// this store at once.
    pub fn set_max_invitees_per_issuer(&mut self, max: usize)
        ensures
            final(self)@ == (TrustView { max_invitees: max as nat, ..old(self)@ }),
    {
        self.max_invitees_per_issuer = max;
    }

    /// Verify and add an invitation to the store: refused with
    /// [`AdmissionError::IssuerCapReached`] if this issuer has already
    /// vouched for `max_invitees_per_issuer` other distinct subjects, or with
    /// any error from [`Invitation::verify`].
    pub fn ingest(&mut self, invite: Invitation, now: u64) -> (r: Result<(), AdmissionError>)
        ensures
            ingest_step(old(self)@, final(self)@, invite@, now, r),
    {
        match invite.verify(now) {
            Ok(()) => {},
            Err(e) => return Err(e),
        }
        let ib = invite.issuer().as_bytes();
        let sb = invite.subject();
        let a = key256_of(&ib);
        let b = key256_of(&sb);
        let ghost o = self@;
        let ghost e0 = self.edges@;
        let mut subjects = match self.edges.remove(&a) {
            Some(m) => m,
            None => BTreeMap::new(),
        };
        proof {
            assert(subjects_view(subjects@) =~= if o.edges.contains_key(a) { o.edges[a] } else { Map::empty() });
            assert(subjects_view(subjects@).dom() =~= subjects@.dom());
            assert(a == key256(invite@.issuer));
            assert(b == key256(invite@.subject));
        }
        if !subjects.contains_key(&b) && subjects.len() >= self.max_invitees_per_issuer {
            let ghost sv = subjects@;
            self.edges.insert(a, subjects);
            proof {
                assert(self@.edges =~= o.edges.insert(a, subjects_view(sv)));
            }
            return Err(AdmissionError::IssuerCapReached);
        }
        let ghost sv0 = subjects@;
        let ghost iv = invite@;
        subjects.insert(b, invite);
        let ghost sv = subjects@;
        proof {
            assert(subjects_view(sv) =~= subjects_view(sv0).insert(b, iv));
        }
        self.edges.insert(a, subjects);
        proof {
            assert(self@.edges =~= o.edges.insert(a, subjects_view(sv)));
        }
        Ok(())
    }

    /// Is `subject` reachable from a trusted root within `max_depth`
    /// invitation hops, using only invitations still valid at `now`?
    pub fn is_admitted(&self, subject: &[u8; 32], max_depth: u8, now: u64) -> (b: bool)
        ensures
            b == depth_of(self@, key256(subject@), max_depth, now) is Some,
    {
        self.trust_depth(subject, max_depth, now).is_some()
    }

    /// Shortest invitation-chain length from a trusted root to `subject`, if
    /// one exists within `max_depth` hops using invitations valid at `now`.
    pub fn trust_depth(&self, subject: &[u8; 32], max_depth: u8, now: u64) -> (r: Option<u8>)
        ensures
            r == depth_of(self@, key256(subject@), max_depth, now),
    {
        let s = key256_of(subject);
        if self.roots.contains(&s) {
            return Some(0);
        }
        let ghost v = self@;
        let mut frontier: Vec<(u128, u128)> = Vec::new();
        for k in it: self.roots.iter()
            invariant
                it.seq() == spec_btree_keys_iter(&self.roots).remaining(),
                frontier@.len() == it.index(),
                forall|j: int| 0 <= j < it.index() ==> frontier@[j] == *(#[trigger] it.seq()[j]),
        {
            frontier.push(*k);
        }
        proof {
            let rs = spec_btree_keys_iter(&self.roots).remaining();
            assert(frontier@ =~= rs.unref());
            assert(frontier@.to_set() == self.roots@);
        }
        let mut visited: BTreeSet<(u128, u128)> = self.roots.clone();
        let mut depth: u16 = 1;
        while depth <= max_depth as u16
            invariant
                v == self@,
                s == key256(subject@),
                1 <= depth <= max_depth as u16 + 1,
                visited@ == reach(v, now, (depth - 1) as nat),
                forall|a: (u128, u128)| #[trigger] frontier@.contains(a) ==> visited@.contains(a),
                forall|a: (u128, u128), b: (u128, u128)|
                    #![trigger visited@.contains(a), trust_edge(v, a, b, now)]
                    visited@.contains(a) && !frontier@.contains(a) && trust_edge(v, a, b, now) ==> visited@.contains(b),
                !visited@.contains(s),
                depth_of(v, s, max_depth, now) == first_depth(v, s, now, depth as nat, max_depth as nat),
            decreases max_depth as u16 + 1 - depth,
        {
            let ghost v0 = visited@;
            let mut next: Vec<(u128, u128)> = Vec::new();
            let mut i: usize = 0;
            while i < frontier.len()
                invariant
                    v == self@,
                    s == key256(subject@),
                    1 <= depth <= max_depth as u16,
                    v0 == reach(v, now, (depth - 1) as nat),
                    i <= frontier@.len(),
                    forall|a: (u128, u128)| #[trigger] frontier@.contains(a) ==> v0.contains(a),
                    forall|x: (u128, u128)| #[trigger] visited@.contains(x) <==> (v0.contains(x) || next@.contains(x)),
                    forall|x: (u128, u128)| #[trigger] next@.contains(x) ==> reach(v, now, depth as nat).contains(x),
                    forall|j: int, b: (u128, u128)|
                        #![trigger trust_edge(v, frontier@[j], b, now)]
                        0 <= j < i && trust_edge(v, frontier@[j], b, now) ==> visited@.contains(b),
                    !visited@.contains(s),
                    depth_of(v, s, max_depth, now) == first_depth(v, s, now, depth as nat, max_depth as nat),
                decreases frontier@.len() - i,
            {
                let a = frontier[i];
                proof {
                    assert(frontier@.contains(a));
                    lemma_reach_mono(v, now, (depth - 1) as nat, depth as nat);
                }
                match self.edges.get(&a) {
                    Some(subjects) => {
                        for kv in it2: subjects.iter()
                            invariant
                                v == self@,
                                s == key256(subject@),
                                1 <= depth <= max_depth as u16,
                                self.edges@.contains_key(a),
                                *subjects == self.edges@[a],
                                it2.seq() == spec_btree_map_iter(subjects).remaining(),
                                v0 == reach(v, now, (depth - 1) as nat),
                                v0.contains(a),
                                forall|x: (u128, u128)| #[trigger] visited@.contains(x) <==> (v0.contains(x) || next@.contains(x)),
                                forall|x: (u128, u128)| #[trigger] next@.contains(x) ==> reach(v, now, depth as nat).contains(x),
                                forall|m: int| 0 <= m < it2.index() && time_valid((*it2.seq()[m].1)@, now) ==> visited@.contains(*(#[trigger] it2.seq()[m]).0),
                                i < frontier@.len(),
                                forall|j: int, b: (u128, u128)|
                                    #![trigger trust_edge(v, frontier@[j], b, now)]
                                    0 <= j < i && trust_edge(v, frontier@[j], b, now) ==> visited@.contains(b),
                                !visited@.contains(s),
                                depth_of(v, s, max_depth, now) == first_depth(v, s, now, depth as nat, max_depth as nat),
                        {
                            let (b, inv) = kv;
                            let ghost idx = it2.index() as int;
                            proof {
                                let sq = spec_btree_map_iter(subjects).remaining();
                                assert(kv == sq[idx]);
                                assert(subjects@.contains_key(*b) && subjects@[*b] == *inv);
                                assert(v.edges[a] == subjects_view(subjects@));
                            }
                            let ghost vis0 = visited@;
                            let ghost nx0 = next@;
                            if inv.time_valid(now) {
                                proof {
                                    assert(trust_edge(v, a, *b, now));
                                    assert(vouched(v, v0, now).contains(*b));
                                }
                                if b.0 == s.0 && b.1 == s.1 {
                                    proof {
                                        assert(*b == s);
                                        assert(reach(v, now, depth as nat).contains(s));
                                    }
                                    return Some(depth as u8);
                                }
                                if !visited.contains(b) {
                                    visited.insert(*b);
                                    next.push(*b);
                                    proof {
                                        assert forall|x: (u128, u128)| #[trigger] next@.contains(x) implies nx0.contains(x) || x == *b by {
                                            vstd::seq_lib::lemma_seq_contains_after_push(nx0, *b, x);
                                        }
                                        assert forall|x: (u128, u128)| nx0.contains(x) || x == *b implies #[trigger] next@.contains(x) by {
                                            vstd::seq_lib::lemma_seq_contains_after_push(nx0, *b, x);
                                        }
                                    }
                                }
                            }
                        }
                        proof {
                            let sq = spec_btree_map_iter(subjects).remaining();
                            assert forall|b: (u128, u128)| #[trigger] trust_edge(v, a, b, now) implies visited@.contains(b) by {
                                assert(v.edges[a] == subjects_view(subjects@));
                                assert(subjects@.contains_key(b));
                                assert(sq.contains((&b, &subjects@[b])));
                                let m = choose|m: int| 0 <= m < sq.len() && sq[m] == (&b, &subjects@[b]);
                                assert(time_valid((*sq[m].1)@, now));
                            }
                        }
                    },
                    None => {
                        proof {
                            assert forall|b: (u128, u128)| !#[trigger] trust_edge(v, a, b, now) by {}
                        }
                    },
                }
                proof {
                    assert forall|j: int, b: (u128, u128)|
                        0 <= j < i + 1 && #[trigger] trust_edge(v, frontier@[j], b, now) implies visited@.contains(b) by {
                        if j == i {
                            assert(frontier@[j] == a);
                        }
                    }
                }
                i = i + 1;
            }
            proof {
                let rd = reach(v, now, depth as nat);
                assert(rd == v0.union(vouched(v, v0, now)));
                assert forall|x: (u128, u128)| rd.contains(x) implies #[trigger] visited@.contains(x) by {
                    if !v0.contains(x) {
                        assert(vouched(v, v0, now).contains(x));
                        let a = choose|a: (u128, u128)| #[trigger] v0.contains(a) && trust_edge(v, a, x, now);
                        if frontier@.contains(a) {
                            let j = choose|j: int| 0 <= j < frontier@.len() && frontier@[j] == a;
                            assert(trust_edge(v, frontier@[j], x, now));
                        }
                    }
                }
                assert(visited@ =~= rd);
            }
            if next.len() == 0 {
                proof {
                    assert(reach(v, now, depth as nat) =~= reach(v, now, (depth - 1) as nat)) by {
                        assert forall|x: (u128, u128)| visited@.contains(x) implies v0.contains(x) by {
                            if next@.contains(x) {
                                assert(next@.len() > 0);
                            }
                        }
                    }
                    assert forall|j: nat| depth <= j implies !(#[trigger] reach(v, now, j)).contains(s) by {
                        lemma_reach_stable(v, now, (depth - 1) as nat, j);
                    }
                    lemma_first_depth_none(v, s, now, depth as nat, max_depth as nat);
                }
                return None;
            }
            proof {
                assert forall|a: (u128, u128), b: (u128, u128)|
                    #![trigger visited@.contains(a), trust_edge(v, a, b, now)]
                    visited@.contains(a) && !next@.contains(a) && trust_edge(v, a, b, now) implies visited@.contains(b) by {
                    assert(v0.contains(a));
                    if frontier@.contains(a) {
                        let j = choose|j: int| 0 <= j < frontier@.len() && frontier@[j] == a;
                        assert(trust_edge(v, frontier@[j], b, now));
                    } else {
                        assert(v0.contains(b));
                    }
                }
            }
            frontier = next;
            depth = depth + 1;
        }
        proof {
            assert(first_depth(v, s, now, depth as nat, max_depth as nat) is None);
        }
        None
    }
}


/// What an invitation's signature covers: the 15-byte label
/// `"ppose-invite-v1"`, the issuer's key at bytes 15..47, the subject's key
/// at bytes 47..79, then `issued_at` and `expires_at` as 8-byte big-endian
/// numbers at 79..87 and 87..95.
pub proof fn lemma_payload_layout(issuer: Seq<u8>, subject: Seq<u8>, issued_at: u64, expires_at: u64)
    requires
        issuer.len() == 32,
        subject.len() == 32,
    ensures
        payload(issuer, subject, issued_at, expires_at).len() == 95,
        payload(issuer, subject, issued_at, expires_at).subrange(0, 15) == seq![
            0x70u8, 0x70u8, 0x6fu8, 0x73u8, 0x65u8, 0x2du8, 0x69u8, 0x6eu8, 0x76u8, 0x69u8, 0x74u8, 0x65u8, 0x2du8, 0x76u8, 0x31u8,
        ],
        payload(issuer, subject, issued_at, expires_at).subrange(15, 47) == issuer,
        payload(issuer, subject, issued_at, expires_at).subrange(47, 79) == subject,
        be_value(payload(issuer, subject, issued_at, expires_at).subrange(79, 87)) == issued_at,
        be_value(payload(issuer, subject, issued_at, expires_at).subrange(87, 95)) == expires_at,
{
    let p = payload(issuer, subject, issued_at, expires_at);
    reveal_with_fuel(pow256, 9);
    lemma_be_roundtrip(issued_at as nat, 8);
    lemma_be_roundtrip(expires_at as nat, 8);
    assert(p.subrange(0, 15) =~= seq![
        0x70u8, 0x70u8, 0x6fu8, 0x73u8, 0x65u8, 0x2du8, 0x69u8, 0x6eu8, 0x76u8, 0x69u8, 0x74u8, 0x65u8, 0x2du8, 0x76u8, 0x31u8,
    ]);
    assert(p.subrange(15, 47) =~= issuer);
    assert(p.subrange(47, 79) =~= subject);
    assert(p.subrange(79, 87) =~= be_bytes(issued_at as nat, 8));
    assert(p.subrange(87, 95) =~= be_bytes(expires_at as nat, 8));
}

} // verus!
