//! PPoSE Nested Datagram (PND) — layered X25519 + XChaCha20-Poly1305.
//!
//! **This is not Sphinx** (Danezis–Goldberg). Each hop adds 78 bytes; the
//! next IPv4:port is in the *encrypted* layer (the hop itself sees the next
//! address after peeling). Intermediate hops do not see the inner payload.
//! Length and timing still leak. No mixing, no SURBs, no GPA claim.

use vstd::prelude::*;
use vstd::slice::slice_subrange;
use vstd::slice::slice_to_vec;

use crate::crypto::aead::{xchacha_fits, xchacha_open, xchacha_seal, SessionAead};
use crate::crypto::blake3_hash::{blake3_digest, blake3_of};
use crate::crypto::keys::{random_array32, random_bytes, x25519_of, x25519_public, IdentitySecret, PublicIdentity};
use crate::network::addr::{lemma_v4_roundtrip, push_v4, read_v4, v4_of_wire, v4_wire, SockAddr};
use crate::network::packet::{datagram, decode_outer, encode_datagram, lemma_datagram_roundtrip, outer_decoding, PacketError, PacketType};
use crate::network::replay::{accept_step, lemma_replay_refused, replay_key, since, ReplayCache, ReplayView, DEFAULT_CAP, DEFAULT_TTL_MS};
use crate::{MAX_DATAGRAM, OUTER_HEADER_LEN};

verus! {

/// Bytes added per hop: eph(32)+nonce(24)+tag(16)+ipv4(4)+port(2).
pub const LAYER_OVERHEAD: usize = 78;

/// Domain separation for hop key derivation: `"ppose-pnd-v1"`.
pub const PND_KDF_LABEL: [u8; 12] = [0x70, 0x70, 0x6f, 0x73, 0x65, 0x2d, 0x70, 0x6e, 0x64, 0x2d, 0x76, 0x31];

/// The bytes of [`PND_KDF_LABEL`].
pub open spec fn pnd_label() -> Seq<u8> {
    seq![0x70u8, 0x70, 0x6f, 0x73, 0x65, 0x2d, 0x70, 0x6e, 0x64, 0x2d, 0x76, 0x31]
}

/// Layer key for a DH shared secret: `BLAKE3("ppose-pnd-v1" || shared)`.
pub open spec fn hop_key(shared: Seq<u8>) -> Seq<u8> {
    blake3_of(pnd_label() + shared)
}

/// One onion hop: address + static X25519.
#[derive(Clone, Copy, Debug, PartialEq, Eq)]
pub struct OnionHop {
    /// Hop UDP address (IPv4).
    pub addr: SockAddr,
    /// Hop long-term public key.
    pub pk: PublicIdentity,
}

/// Result of peeling one onion layer.
pub struct Peeled {
    /// Next UDP destination.
    pub next: SockAddr,
    /// Payload to send there (already a complete datagram).
    pub payload: Vec<u8>,
}

/// `body` is a PND layer for the hop with public key `hop_pk` that carries
/// `payload` on to the IPv4 endpoint `next`: a fresh ephemeral public key,
/// a nonce, and the sealed `next || payload`, keyed by the DH of the
/// ephemeral secret with `hop_pk`, which the hop's own secret reproduces.
pub open spec fn is_layer(hop_pk: Seq<u8>, next: SockAddr, payload: Seq<u8>, body: Seq<u8>) -> bool {
    &&& next is V4
    &&& exists|eph: Seq<u8>, nonce: Seq<u8>|
        #![trigger x25519_public(eph), nonce.len()]
        {
            let eph_pub = x25519_public(eph);
            let key = hop_key(x25519_of(eph, hop_pk));
            let plain = v4_wire(next->ip, next->port) + payload;
            let ct = xchacha_seal(key, nonce, eph_pub, plain);
            &&& eph.len() == 32
            &&& eph_pub.len() == 32
            &&& nonce.len() == 24
            &&& body == eph_pub + nonce + ct
            &&& ct.len() == plain.len() + 16
            &&& xchacha_open(key, nonce, eph_pub, ct) == Some(plain)
            &&& forall|s: Seq<u8>| #![trigger x25519_public(s)] s.len() == 32 && x25519_public(s) == hop_pk ==> x25519_of(s, eph_pub) == x25519_of(eph, hop_pk)
        }
}

/// What peeling `body` with the hop secret `local` gives: the next endpoint
/// and the payload, or the first check that fails.
pub open spec fn peeling(local: Seq<u8>, body: Seq<u8>) -> Result<(SockAddr, Seq<u8>), PacketError> {
    if body.len() < LAYER_OVERHEAD {
        Err(PacketError::Truncated)
    } else {
        let eph = body.subrange(0, 32);
        let nonce = body.subrange(32, 56);
        let ct = body.subrange(56, body.len() as int);
        match xchacha_open(hop_key(x25519_of(local, eph)), nonce, eph, ct) {
            None => Err(PacketError::BadType),
            Some(plain) => if plain.len() < 6 {
                Err(PacketError::Truncated)
            } else {
                Ok((v4_of_wire(plain), plain.subrange(6, plain.len() as int)))
            },
        }
    }
}

/// Whether one layer towards `next` around `len` payload bytes can be built,
/// and the length of the resulting datagram.
pub open spec fn layer_check(next: SockAddr, len: nat) -> Result<nat, PacketError> {
    if next is V6 {
        Err(PacketError::BadAddress)
    } else if !xchacha_fits(len + 6) {
        Err(PacketError::TooLarge)
    } else if OUTER_HEADER_LEN + LAYER_OVERHEAD + len > MAX_DATAGRAM {
        Err(PacketError::TooLarge)
    } else {
        Ok((OUTER_HEADER_LEN + LAYER_OVERHEAD + len) as nat)
    }
}

/// Whether a route through `hops` towards `next` around `len` bytes can be
/// built (layers are added from the last hop outwards), and its length.
pub open spec fn route_check(hops: Seq<OnionHop>, next: SockAddr, len: nat) -> Result<nat, PacketError>
    decreases hops.len(),
{
    if hops.len() == 0 {
        Ok(len)
    } else {
        match layer_check(next, len) {
            Err(e) => Err(e),
            Ok(n) => route_check(hops.drop_last(), hops.last().addr, n),
        }
    }
}

/// Where the first of `hops` forwards to: the second hop, or `dest`.
pub open spec fn first_next(hops: Seq<OnionHop>, dest: SockAddr) -> SockAddr {
    if hops.len() == 1 {
        dest
    } else {
        hops[1].addr
    }
}

/// `w` carries `inner` through `hops` to `dest`: an Onion datagram for the
/// first hop whose layer points at the second hop (or `dest`) and wraps the
/// route through the remaining hops.
pub open spec fn is_route(hops: Seq<OnionHop>, dest: SockAddr, inner: Seq<u8>, w: Seq<u8>) -> bool
    decreases hops.len(),
{
    if hops.len() == 0 {
        w == inner
    } else {
        exists|mid: Seq<u8>, body: Seq<u8>|
            #![trigger is_layer(hops[0].pk@, first_next(hops, dest), mid, body)]
            is_route(hops.drop_first(), dest, inner, mid) && is_layer(hops[0].pk@, first_next(hops, dest), mid, body)
                && w == datagram(PacketType::Onion, body)
    }
}

/// Layer key from a DH shared secret.
fn derive_hop_key(shared: &[u8; 32]) -> (k: [u8; 32])
    ensures
        k@ == hop_key(shared@),
{
    let mut input: Vec<u8> = Vec::new();
    input.extend_from_slice(&PND_KDF_LABEL);
    input.extend_from_slice(shared);
    assert(PND_KDF_LABEL@ =~= pnd_label());
    assert(input@ =~= pnd_label() + shared@);
    blake3_digest(input.as_slice())
}

/// Seal one layer for the hop with public key `hop_pk`: `next` (IPv4) and
/// `payload` under a key from a fresh ephemeral DH, with a random nonce.
fn wrap_layer(hop_pk: &PublicIdentity, next: SockAddr, payload: &[u8]) -> (r: Result<Vec<u8>, PacketError>)
    ensures
        next is V6 ==> r == Err::<Vec<u8>, PacketError>(PacketError::BadAddress),
        next is V4 && !xchacha_fits(payload@.len() + 6) ==> r == Err::<Vec<u8>, PacketError>(PacketError::TooLarge),
        next is V4 && xchacha_fits(payload@.len() + 6) ==> (r matches Ok(body) && is_layer(hop_pk@, next, payload@, body@)
            && body@.len() == LAYER_OVERHEAD + payload@.len()),
{
    let (ip, port) = match next {
        SockAddr::V4 { ip, port } => (ip, port),
        SockAddr::V6 { .. } => return Err(PacketError::BadAddress),
    };
    let eph = IdentitySecret::from_bytes(random_array32());
    let eph_pub = eph.public();
    let shared = eph.shared_with(hop_pk);
    let key = derive_hop_key(&shared);
    let aead = SessionAead::new(&key);
    let nv = random_bytes(24);
    let nonce: [u8; 24] = [
        nv[0], nv[1], nv[2], nv[3], nv[4], nv[5], nv[6], nv[7], nv[8], nv[9], nv[10], nv[11], nv[12],
        nv[13], nv[14], nv[15], nv[16], nv[17], nv[18], nv[19], nv[20], nv[21], nv[22], nv[23],
    ];
    let mut plain: Vec<u8> = Vec::new();
    push_v4(&mut plain, ip, port);
    plain.extend_from_slice(payload);
    proof {
        lemma_v4_roundtrip(ip, port, payload@);
        assert(plain@ =~= v4_wire(ip, port) + payload@);
    }
    let eph_pub_bytes = eph_pub.as_bytes();
    let ct = match aead.seal(&nonce, &eph_pub_bytes, plain.as_slice()) {
        Ok(c) => c,
        Err(_) => return Err(PacketError::TooLarge),
    };
    let mut body: Vec<u8> = Vec::new();
    body.extend_from_slice(&eph_pub_bytes);
    body.extend_from_slice(&nonce);
    body.extend_from_slice(ct.as_slice());
    proof {
        let e = eph@;
        assert(body@ =~= x25519_public(e) + nonce@ + ct@);
        assert(plain@ =~= v4_wire(ip, port) + payload@);
        assert(x25519_public(e).len() == 32);
        assert(is_layer(hop_pk@, next, payload@, body@));
    }
    Ok(body)
}

/// Build a sendable datagram by wrapping `inner` (full PPoSE packet) in
/// layers from last hop to first. Result includes the outermost header.
pub fn wrap_route(hops: &[OnionHop], dest: SockAddr, inner: &[u8]) -> (r: Result<Vec<u8>, PacketError>)
    ensures
        hops@.len() == 0 ==> r == Err::<Vec<u8>, PacketError>(PacketError::BadType),
        hops@.len() > 0 ==> match route_check(hops@, dest, inner@.len()) {
            Err(e) => r == Err::<Vec<u8>, PacketError>(e),
            Ok(n) => r matches Ok(w) && w@.len() == n && is_route(hops@, dest, inner@, w@),
        },
{
    if hops.len() == 0 {
        return Err(PacketError::BadType);
    }
    let mut payload: Vec<u8> = slice_to_vec(inner);
    let mut next = dest;
    let mut j: usize = hops.len();
    proof {
        assert(hops@.take(j as int) =~= hops@);
        assert(hops@.skip(j as int) =~= Seq::<OnionHop>::empty());
    }
    while j > 0
        invariant
            j <= hops@.len(),
            hops@.len() > 0,
            route_check(hops@, dest, inner@.len()) == route_check(hops@.take(j as int), next, payload@.len()),
            is_route(hops@.skip(j as int), dest, inner@, payload@),
            next == if j == hops@.len() { dest } else { hops@[j as int].addr },
        decreases j,
    {
        let hop = hops[j - 1];
        proof {
            assert(hops@.take(j as int).drop_last() =~= hops@.take(j - 1));
            assert(hops@.take(j as int).last() == hop);
        }
        let body = wrap_layer(&hop.pk, next, payload.as_slice())?;
        let pkt = match encode_datagram(PacketType::Onion, body.as_slice()) {
            Ok(p) => p,
            Err(e) => {
                proof {
                    assert(layer_check(next, payload@.len()) == Err::<nat, PacketError>(PacketError::TooLarge));
                }
                return Err(e);
            },
        };
        proof {
            let rest = hops@.skip(j as int);
            let here = hops@.skip(j - 1);
            assert(here.drop_first() =~= rest);
            assert(here[0] == hop);
            assert(hops@.take(j as int).drop_last() =~= hops@.take(j - 1));
            assert(hops@.take(j as int).last() == hop);
            if j < hops@.len() {
                assert(here[1] == hops@[j as int]);
            }
            assert(first_next(here, dest) == next);
            assert(is_layer(here[0].pk@, first_next(here, dest), payload@, body@));
            assert(is_route(here, dest, inner@, pkt@));
        }
        payload = pkt;
        next = hop.addr;
        j = j - 1;
    }
    proof {
        assert(hops@.take(0) =~= Seq::<OnionHop>::empty());
        assert(hops@.skip(0) =~= hops@);
    }
    Ok(payload)
}

/// Peel one layer using this hop's static key.
pub fn peel_layer(local: &IdentitySecret, body: &[u8]) -> (r: Result<Peeled, PacketError>)
    ensures
        match r {
            Ok(p) => peeling(local@, body@) == Ok::<(SockAddr, Seq<u8>), PacketError>((p.next, p.payload@)),
            Err(e) => peeling(local@, body@) == Err::<(SockAddr, Seq<u8>), PacketError>(e),
        },
{
    if body.len() < LAYER_OVERHEAD {
        return Err(PacketError::Truncated);
    }
    let eph: [u8; 32] = [
        body[0], body[1], body[2], body[3], body[4], body[5], body[6], body[7], body[8], body[9],
        body[10], body[11], body[12], body[13], body[14], body[15], body[16], body[17], body[18],
        body[19], body[20], body[21], body[22], body[23], body[24], body[25], body[26], body[27],
        body[28], body[29], body[30], body[31],
    ];
    let nonce: [u8; 24] = [
        body[32], body[33], body[34], body[35], body[36], body[37], body[38], body[39], body[40],
        body[41], body[42], body[43], body[44], body[45], body[46], body[47], body[48], body[49],
        body[50], body[51], body[52], body[53], body[54], body[55],
    ];
    let ct = slice_subrange(body, 56, body.len());
    proof {
        assert(eph@ =~= body@.subrange(0, 32));
        assert(nonce@ =~= body@.subrange(32, 56));
    }
    let shared = local.shared_with(&PublicIdentity::from_bytes(eph));
    let key = derive_hop_key(&shared);
    let aead = SessionAead::new(&key);
    let plain = match aead.open(&nonce, &eph, ct) {
        Ok(p) => p,
        Err(_) => return Err(PacketError::BadType),
    };
    if plain.len() < 6 {
        return Err(PacketError::Truncated);
    }
    let next = read_v4(plain.as_slice(), 0);
    proof {
        assert(plain@.subrange(0, 6).subrange(0, 4) =~= plain@.subrange(0, 4));
        assert(plain@.subrange(0, 6).subrange(4, 6) =~= plain@.subrange(4, 6));
    }
    let payload = slice_to_vec(slice_subrange(plain.as_slice(), 6, plain.len()));
    Ok(Peeled { next, payload })
}

/// The hop a layer was built for, peeling it with its own secret, finds
/// the next endpoint and the payload the layer was built with.
pub proof fn lemma_peel_undoes_wrap(secret: Seq<u8>, next: SockAddr, payload: Seq<u8>, body: Seq<u8>)
    requires
        secret.len() == 32,
        is_layer(x25519_public(secret), next, payload, body),
    ensures
        peeling(secret, body) == Ok::<(SockAddr, Seq<u8>), PacketError>((next, payload)),
{
    let hop_pk = x25519_public(secret);
    let (eph, nonce) = choose|eph: Seq<u8>, nonce: Seq<u8>|
        #![trigger x25519_public(eph), nonce.len()]
        {
            let eph_pub = x25519_public(eph);
            let key = hop_key(x25519_of(eph, hop_pk));
            let plain = v4_wire(next->ip, next->port) + payload;
            let ct = xchacha_seal(key, nonce, eph_pub, plain);
            &&& eph.len() == 32
            &&& eph_pub.len() == 32
            &&& nonce.len() == 24
            &&& body == eph_pub + nonce + ct
            &&& ct.len() == plain.len() + 16
            &&& xchacha_open(key, nonce, eph_pub, ct) == Some(plain)
            &&& forall|s: Seq<u8>| #![trigger x25519_public(s)] s.len() == 32 && x25519_public(s) == hop_pk ==> x25519_of(s, eph_pub) == x25519_of(eph, hop_pk)
        };
    let eph_pub = x25519_public(eph);
    let key = hop_key(x25519_of(eph, hop_pk));
    let plain = v4_wire(next->ip, next->port) + payload;
    let ct = xchacha_seal(key, nonce, eph_pub, plain);
    lemma_v4_roundtrip(next->ip, next->port, payload);
    assert(body.subrange(0, 32) =~= eph_pub);
    assert(body.subrange(32, 56) =~= nonce);
    assert(body.subrange(56, body.len() as int) =~= ct);
    assert(x25519_of(secret, eph_pub) == x25519_of(eph, hop_pk));
    assert(plain.subrange(6, plain.len() as int) =~= payload);
}

/// One step along a route: the first hop, decoding the datagram and
/// peeling its layer with its own secret, finds where to send next and a
/// datagram that carries the inner packet through the remaining hops.
pub proof fn lemma_route_peel_step(hops: Seq<OnionHop>, secret: Seq<u8>, dest: SockAddr, inner: Seq<u8>, w: Seq<u8>)
    requires
        hops.len() > 0,
        secret.len() == 32,
        x25519_public(secret) == hops[0].pk@,
        is_route(hops, dest, inner, w),
    ensures
        exists|body: Seq<u8>, mid: Seq<u8>|
            #![trigger peeling(secret, body), is_route(hops.drop_first(), dest, inner, mid)]
            outer_decoding(w) == Ok::<(PacketType, u8, Seq<u8>), PacketError>((PacketType::Onion, 0u8, body))
                && peeling(secret, body) == Ok::<(SockAddr, Seq<u8>), PacketError>((first_next(hops, dest), mid))
                && is_route(hops.drop_first(), dest, inner, mid),
{
    let (mid, body) = choose|mid: Seq<u8>, body: Seq<u8>|
        #![trigger is_layer(hops[0].pk@, first_next(hops, dest), mid, body)]
        is_route(hops.drop_first(), dest, inner, mid) && is_layer(hops[0].pk@, first_next(hops, dest), mid, body)
            && w == datagram(PacketType::Onion, body);
    lemma_datagram_roundtrip(PacketType::Onion, body);
    lemma_peel_undoes_wrap(secret, first_next(hops, dest), mid, body);
}

/// What an onion hop with secret `secret` bound at `own` would forward
/// from `dgram`, replay aside: the peeled next endpoint and payload of an
/// Onion datagram, unless the next endpoint is the hop itself.
pub open spec fn hop_candidate(secret: Seq<u8>, dgram: Seq<u8>, own: SockAddr) -> Option<(SockAddr, Seq<u8>)> {
    match outer_decoding(dgram) {
        Ok((ty, _, body)) => if ty != PacketType::Onion {
            None
        } else {
            match peeling(secret, body) {
                Ok((next, payload)) => if next == own {
                    None
                } else {
                    Some((next, payload))
                },
                Err(_) => None,
            }
        },
        Err(_) => None,
    }
}

/// After the replay check of `payload` at `now` took the cache from `o` to
/// `n`, the hop forwards `(next, payload)` exactly when the payload was
/// fresh and fits a datagram.
pub open spec fn hop_outcome(
    o: ReplayView,
    n: ReplayView,
    next: SockAddr,
    payload: Seq<u8>,
    now: u64,
    out: Option<(SockAddr, Vec<u8>)>,
) -> bool {
    exists|fresh: bool|
        #[trigger] accept_step(o, n, payload, now, fresh) && (out matches Some(x) ==> x.1@ == payload && x.0 == next)
            && (fresh && payload.len() <= MAX_DATAGRAM <==> out is Some)
}

/// A hop forwards a payload it has not seen (when it fits a datagram), and
/// drops the same payload coming again within the TTL.
pub proof fn lemma_hop_forwards_once(
    a: ReplayView,
    b: ReplayView,
    c: ReplayView,
    next: SockAddr,
    payload: Seq<u8>,
    t1: u64,
    t2: u64,
    out1: Option<(SockAddr, Vec<u8>)>,
    out2: Option<(SockAddr, Vec<u8>)>,
)
    requires
        !a.seen.contains_key(replay_key(payload)),
        hop_outcome(a, b, next, payload, t1, out1),
        hop_outcome(b, c, next, payload, t2, out2),
        since(t2, t1) < a.ttl,
    ensures
        payload.len() <= MAX_DATAGRAM ==> out1 is Some,
        out2 is None,
{
    let f1 = choose|fresh: bool| #[trigger] accept_step(a, b, payload, t1, fresh) && (out1 matches Some(x) ==> x.1@ == payload && x.0 == next)
        && (fresh && payload.len() <= MAX_DATAGRAM <==> out1 is Some);
    let f2 = choose|fresh: bool| #[trigger] accept_step(b, c, payload, t2, fresh) && (out2 matches Some(x) ==> x.1@ == payload && x.0 == next)
        && (fresh && payload.len() <= MAX_DATAGRAM <==> out2 is Some);
    assert(f1);
    lemma_replay_refused(a, b, c, payload, t1, t2, f1, f2);
}

/// Forwarding state of an onion hop: its static secret and a replay cache.
pub struct OnionRelay {
    local: IdentitySecret,
    replay: ReplayCache,
}

impl OnionRelay {
    /// Well-formed replay cache.
    pub closed spec fn wf(&self) -> bool {
        self.replay.wf()
    }

    /// The hop's static secret.
    pub closed spec fn secret(&self) -> Seq<u8> {
        self.local@
    }

    /// The hop's replay cache.
    pub closed spec fn cache(&self) -> ReplayCache {
        self.replay
    }

    /// Hop state with an empty replay cache of the default TTL and
    /// capacity.
    pub fn new(local: IdentitySecret) -> (h: Self)
        ensures
            h.wf(),
            h.secret() == local@,
            h.cache()@ == (ReplayView { seen: Map::empty(), ttl: DEFAULT_TTL_MS, cap: DEFAULT_CAP as nat, calls_since_sweep: 0 }),
    {
        Self { local, replay: ReplayCache::new() }
    }

    /// Hop public identity.
    pub fn public(&self) -> (p: PublicIdentity)
        ensures
            p@ == x25519_public(self.secret()),
    {
        self.local.public()
    }

    /// Decide what to do with one datagram received at `now` (ms) by the
    /// hop bound at `own`: an Onion datagram whose layer this hop can peel,
    /// whose next address is not the hop itself, whose payload was not
    /// forwarded within the replay TTL and fits a datagram, is forwarded
    /// as `(next, payload)`; anything else is dropped.
    pub fn on_datagram(&mut self, dgram: &[u8], own: SockAddr, now: u64) -> (out: Option<(SockAddr, Vec<u8>)>)
        requires
            old(self).wf(),
        ensures
            final(self).wf(),
            final(self).secret() == old(self).secret(),
            match hop_candidate(old(self).secret(), dgram@, own) {
                None => out is None && final(self).cache()@ == old(self).cache()@,
                Some((next, payload)) => hop_outcome(old(self).cache()@, final(self).cache()@, next, payload, now, out),
            },
    {
        let (ty, _flags, body) = match decode_outer(dgram) {
            Ok(v) => v,
            Err(_) => return None,
        };
        if ty != PacketType::Onion {
            return None;
        }
        let peeled = match peel_layer(&self.local, body) {
            Ok(v) => v,
            Err(_) => return None,
        };
        if peeled.next == own {
            return None;
        }
        let fresh = self.replay.accept(peeled.payload.as_slice(), now);
        assert(accept_step(old(self).cache()@, self.cache()@, peeled.payload@, now, fresh));
        proof {
            assert(hop_candidate(old(self).secret(), dgram@, own) == Some((peeled.next, peeled.payload@)));
        }
        if !fresh {
            assert(hop_outcome(old(self).cache()@, self.cache()@, peeled.next, peeled.payload@, now, None));
            return None;
        }
        if peeled.payload.len() > MAX_DATAGRAM {
            assert(hop_outcome(old(self).cache()@, self.cache()@, peeled.next, peeled.payload@, now, None));
            return None;
        }
        Some((peeled.next, peeled.payload))
    }
}


/// A hop's layer key is BLAKE3 of the 12-byte label `"ppose-pnd-v1"`
/// followed by the 32-byte X25519 shared secret.
pub proof fn lemma_hop_key_input(shared: Seq<u8>)
    ensures
        hop_key(shared) == blake3_of(
            seq![0x70u8, 0x70u8, 0x6fu8, 0x73u8, 0x65u8, 0x2du8, 0x70u8, 0x6eu8, 0x64u8, 0x2du8, 0x76u8, 0x31u8] + shared,
        ),
{
    assert(pnd_label() =~= seq![0x70u8, 0x70u8, 0x6fu8, 0x73u8, 0x65u8, 0x2du8, 0x70u8, 0x6eu8, 0x64u8, 0x2du8, 0x76u8, 0x31u8]);
}

} // verus!
