//! Peer session: Noise XX + ARQ, routed direct, through a relay, or over
//! onion hops. The socket and the clock stay with the caller: every step
//! here takes what arrived (and the time) and answers what to send, to the
//! session's next hop.

use vstd::prelude::*;
use vstd::slice::{slice_subrange, slice_to_vec};

use crate::cover::{cover_interval, cover_payload_range, CoverMode};
use crate::crypto::keys::{random_bytes, IdentitySecret, PublicIdentity};
use crate::crypto::noise::{HandshakeRole, NoiseError, NoiseSession, NOISE_MAX_MSG, NOISE_TAG_LEN};
use crate::network::addr::{v4_of_wire, SockAddr};
use crate::network::forward::{decode_forward_body, encode_forward_body, forward_body, FORWARD_BODY_OVERHEAD};
use crate::network::packet::{datagram, decode_outer, encode_datagram, outer_decoding, PacketError, PacketType};
use crate::onion::{is_route, layer_check, route_check, wrap_route, OnionHop, LAYER_OVERHEAD};
use crate::reliability::arq::{
    enqueue_step, frames_view, ingest_step, lemma_retransmit_result, new_sends, new_sends_state, retransmit_result,
    retransmit_step, Arq, ArqError, ArqGiveUp, ArqView,
    DEFAULT_MAX_ATTEMPTS, DEFAULT_RETX_MS,
};
use crate::reliability::frame::{DATA_HDR_LEN, MAX_PAYLOAD};
use crate::{MAX_DATAGRAM, OUTER_HEADER_LEN};

verus! {

/// Bytes a sealed DATA datagram adds around a fragment payload: outer
/// header, DATA frame header and the Noise tag.
pub open spec fn sealed_overhead() -> nat {
    (OUTER_HEADER_LEN + DATA_HDR_LEN + NOISE_TAG_LEN) as nat
}

/// Bytes a path adds around a sealed DATA datagram: a Forward envelope for
/// the relay path, a PND layer and a fresh outer header (86 bytes) per onion
/// hop.
pub open spec fn path_overhead(via_relay: bool, onion_hops: nat) -> nat {
    if via_relay {
        (OUTER_HEADER_LEN + FORWARD_BODY_OVERHEAD) as nat
    } else {
        onion_hops * 86
    }
}

/// The largest fragment payload whose sealed DATA datagram still fits
/// `MAX_DATAGRAM` once wrapped for the path, capped at `MAX_PAYLOAD`; 0 when
/// not even an empty fragment fits.
pub open spec fn fragment_cap(via_relay: bool, onion_hops: nat) -> nat {
    let used = sealed_overhead() + path_overhead(via_relay, onion_hops);
    let room: nat = if used <= MAX_DATAGRAM { (MAX_DATAGRAM - used) as nat } else { 0 };
    if room < MAX_PAYLOAD { room } else { MAX_PAYLOAD as nat }
}

/// Largest ARQ fragment payload whose sealed DATA frame still fits
/// `MAX_DATAGRAM` once wrapped for this path: the relay path adds a Forward
/// envelope, and each onion hop adds a PND layer plus a fresh outer header.
/// Returns `0` when not even an empty fragment fits (too many hops).
pub fn max_fragment_for_path(via_relay: bool, onion_hops: usize) -> (r: usize)
    ensures
        r == fragment_cap(via_relay, onion_hops as nat),
{
    let sealed: usize = OUTER_HEADER_LEN + DATA_HDR_LEN + NOISE_TAG_LEN;
    let per_hop: usize = LAYER_OVERHEAD + OUTER_HEADER_LEN;
    if !via_relay && onion_hops > MAX_DATAGRAM / per_hop {
        assert(onion_hops * per_hop >= (MAX_DATAGRAM / per_hop + 1) * per_hop) by (nonlinear_arith)
            requires
                onion_hops >= MAX_DATAGRAM / per_hop + 1,
                per_hop == 86,
        ;
        return 0;
    }
    let path: usize = if via_relay {
        OUTER_HEADER_LEN + FORWARD_BODY_OVERHEAD
    } else {
        onion_hops * per_hop
    };
    let room: usize = if sealed + path <= MAX_DATAGRAM {
        MAX_DATAGRAM - (sealed + path)
    } else {
        0
    };
    if room < MAX_PAYLOAD {
        room
    } else {
        MAX_PAYLOAD
    }
}

/// Every address a route writes into its layers is IPv4: each hop's after
/// the first, and the destination (when there is a hop).
pub open spec fn route_v4(hops: Seq<OnionHop>, dest: SockAddr) -> bool {
    (hops.len() > 0 ==> dest is V4) && forall|i: int| 1 <= i < hops.len() ==> (#[trigger] hops[i]).addr is V4
}

/// On a route whose layers carry IPv4 addresses only, wrapping `len` bytes succeeds exactly when the
/// result, one layer and header per hop, fits `MAX_DATAGRAM`.
pub proof fn lemma_route_length(hops: Seq<OnionHop>, dest: SockAddr, len: nat)
    requires
        route_v4(hops, dest),
    ensures
        route_check(hops, dest, len) == if hops.len() == 0 || len + path_overhead(false, hops.len()) <= MAX_DATAGRAM {
            Ok::<nat, PacketError>(len + path_overhead(false, hops.len()))
        } else {
            Err::<nat, PacketError>(PacketError::TooLarge)
        },
    decreases hops.len(),
{
    if hops.len() > 0 {
        let n = (OUTER_HEADER_LEN + LAYER_OVERHEAD + len) as nat;
        if n <= MAX_DATAGRAM {
            assert((len + 6) / 64 < 0xffff_ffff);
            assert(layer_check(dest, len) == Ok::<nat, PacketError>(n));
            let rest = hops.drop_last();
            assert(hops.last() == hops[hops.len() - 1]);
            assert(route_v4(rest, hops.last().addr)) by {
                assert forall|i: int| 1 <= i < rest.len() implies (#[trigger] rest[i]).addr is V4 by {
                    assert(rest[i] == hops[i]);
                }
                if rest.len() > 0 {
                    assert(hops[hops.len() - 1].addr is V4);
                }
            }
            lemma_route_length(rest, hops.last().addr, n);
            assert(path_overhead(false, hops.len()) == path_overhead(false, rest.len()) + 86);
        } else {
            assert(layer_check(dest, len) == Err::<nat, PacketError>(PacketError::TooLarge));
            assert(path_overhead(false, hops.len()) >= 86);
        }
    }
}

/// The fragment cap is exact on onion paths: whenever an empty fragment
/// fits at all, a fragment of the cap's size wraps within `MAX_DATAGRAM`
/// through the hops, and, when the cap is below `MAX_PAYLOAD`, one byte more
/// does not. (Past 13 hops not even an empty fragment fits; the cap is 0.)
pub proof fn lemma_fragment_cap_exact(hops: Seq<OnionHop>, dest: SockAddr, payload_len: nat)
    requires
        route_v4(hops, dest),
        hops.len() > 0,
        sealed_overhead() + path_overhead(false, hops.len()) <= MAX_DATAGRAM,
    ensures
        payload_len <= fragment_cap(false, hops.len()) ==> route_check(hops, dest, sealed_overhead() + payload_len) is Ok,
        fragment_cap(false, hops.len()) < MAX_PAYLOAD && payload_len > fragment_cap(false, hops.len()) ==> route_check(
            hops,
            dest,
            sealed_overhead() + payload_len,
        ) is Err,
{
    lemma_route_length(hops, dest, sealed_overhead() + payload_len);
}

/// Direct and relay paths: a fragment of the cap's size makes a sealed
/// DATA datagram (and its Forward envelope) within `MAX_DATAGRAM`.
pub proof fn lemma_fragment_cap_fits(via_relay: bool, payload_len: nat)
    requires
        payload_len <= fragment_cap(via_relay, 0),
    ensures
        sealed_overhead() + payload_len + path_overhead(via_relay, 0) <= MAX_DATAGRAM,
{
}

/// How packets reach the other endpoint.
#[derive(Clone, Debug, PartialEq, Eq)]
pub enum Path {
    /// Send UDP directly to the peer.
    Direct {
        /// Peer socket address.
        peer: SockAddr,
    },
    /// Send Forward wrappers to `relay`; `peer` is the inner destination.
    /// The relay sees `peer`. This is **not** an anonymity hop.
    ViaRelay {
        /// Relay address.
        relay: SockAddr,
        /// Other endpoint (IPv4).
        peer: SockAddr,
    },
    /// Nested PND onion. Hops see next address after peel. Not Sphinx.
    ViaOnion {
        /// Outbound hops (first is UDP next-hop).
        hops: Vec<OnionHop>,
        /// Final destination.
        dest: SockAddr,
    },
}

/// Session-layer errors.
#[derive(Clone, Debug, PartialEq, Eq)]
pub enum SessionError {
    /// Noise failure.
    Noise(NoiseError),
    /// Packet codec.
    Packet(PacketError),
    /// ARQ codec / size.
    Arq(ArqError),
    /// Retransmits exhausted.
    GiveUp(ArqGiveUp),
    /// Unexpected packet type during handshake/data.
    UnexpectedType,
    /// Datagram from an unexpected address.
    UnexpectedAddr,
    /// Handshake did not reach transport mode.
    HandshakeIncomplete,
    /// Timed out waiting for an application message.
    Timeout,
    /// Empty onion hop list.
    EmptyOnion,
}

impl From<NoiseError> for SessionError {
    fn from(value: NoiseError) -> (r: Self) {
        SessionError::Noise(value)
    }
}

impl vstd::std_specs::convert::FromSpecImpl<NoiseError> for SessionError {
    open spec fn obeys_from_spec() -> bool {
        true
    }

    open spec fn from_spec(v: NoiseError) -> SessionError {
        SessionError::Noise(v)
    }
}

impl From<PacketError> for SessionError {
    fn from(value: PacketError) -> (r: Self) {
        SessionError::Packet(value)
    }
}

impl vstd::std_specs::convert::FromSpecImpl<PacketError> for SessionError {
    open spec fn obeys_from_spec() -> bool {
        true
    }

    open spec fn from_spec(v: PacketError) -> SessionError {
        SessionError::Packet(v)
    }
}

impl From<ArqError> for SessionError {
    fn from(value: ArqError) -> (r: Self) {
        SessionError::Arq(value)
    }
}

impl vstd::std_specs::convert::FromSpecImpl<ArqError> for SessionError {
    open spec fn obeys_from_spec() -> bool {
        true
    }

    open spec fn from_spec(v: ArqError) -> SessionError {
        SessionError::Arq(v)
    }
}

impl From<ArqGiveUp> for SessionError {
    fn from(value: ArqGiveUp) -> (r: Self) {
        SessionError::GiveUp(value)
    }
}

impl vstd::std_specs::convert::FromSpecImpl<ArqGiveUp> for SessionError {
    open spec fn obeys_from_spec() -> bool {
        true
    }

    open spec fn from_spec(v: ArqGiveUp) -> SessionError {
        SessionError::GiveUp(v)
    }
}

/// What an arriving datagram carries: its type, body and, on the relay
/// path, the other endpoint named in the Forward envelope, or the first
/// check that fails.
pub open spec fn incoming_decoding(via_relay: bool, bytes: Seq<u8>) -> Result<(PacketType, Seq<u8>, Option<SockAddr>), SessionError> {
    match outer_decoding(bytes) {
        Err(e) => Err(SessionError::Packet(e)),
        Ok((ty, _, body)) => if !via_relay {
            Ok((ty, body, None))
        } else if ty != PacketType::Forward {
            Err(SessionError::UnexpectedType)
        } else if body.len() < FORWARD_BODY_OVERHEAD {
            Err(SessionError::Packet(PacketError::Truncated))
        } else {
            match outer_decoding(body.subrange(FORWARD_BODY_OVERHEAD as int, body.len() as int)) {
                Err(e) => Err(SessionError::Packet(e)),
                Ok((ity, _, ibody)) => Ok((ity, ibody, Some(v4_of_wire(body)))),
            }
        },
    }
}

/// Decode an arriving datagram: on the relay path it must be a Forward
/// envelope, whose inner datagram is decoded in turn.
pub fn decode_incoming(via_relay: bool, bytes: &[u8]) -> (r: Result<(PacketType, Vec<u8>, Option<SockAddr>), SessionError>)
    ensures
        match r {
            Ok((ty, body, other)) => incoming_decoding(via_relay, bytes@) == Ok::<(PacketType, Seq<u8>, Option<SockAddr>), SessionError>((ty, body@, other)),
            Err(e) => incoming_decoding(via_relay, bytes@) == Err::<(PacketType, Seq<u8>, Option<SockAddr>), SessionError>(e),
        },
{
    let (ty, _flags, body) = match decode_outer(bytes) {
        Ok(v) => v,
        Err(e) => return Err(SessionError::Packet(e)),
    };
    if !via_relay {
        return Ok((ty, slice_to_vec(body), None));
    }
    if ty != PacketType::Forward {
        return Err(SessionError::UnexpectedType);
    }
    let (other, inner) = match decode_forward_body(body) {
        Ok(v) => v,
        Err(e) => return Err(SessionError::Packet(e)),
    };
    let (ity, _f, ibody) = match decode_outer(inner) {
        Ok(v) => v,
        Err(e) => return Err(SessionError::Packet(e)),
    };
    Ok((ity, slice_to_vec(ibody), Some(other)))
}


/// Calls `rand_core::OsRng::next_u32`. Nothing is claimed of the value.
#[verifier::external_body]
fn os_random_u32() -> u32 {
    rand_core::RngCore::next_u32(&mut rand_core::OsRng)
}

/// Calls `rand_core::OsRng::next_u64`. Nothing is claimed of the value.
#[verifier::external_body]
fn os_random_u64() -> u64 {
    rand_core::RngCore::next_u64(&mut rand_core::OsRng)
}

/// A cover payload length: the mode's `[min, max]` range capped at the
/// largest real sealed DATA body on the path, then `min` plus the random
/// `r` reduced into the span, both ends included.
pub open spec fn cover_len(min: nat, max: nat, largest_real: nat, r: u32) -> nat {
    let hi = if max < largest_real { max } else { largest_real };
    let lo = if min < hi { min } else { hi };
    if hi > lo {
        lo + (r as nat) % ((hi - lo + 1) as nat)
    } else {
        lo
    }
}

/// A cover length never exceeds the capped maximum.
pub proof fn lemma_cover_len_bound(min: nat, max: nat, largest_real: nat, r: u32)
    ensures
        cover_len(min, max, largest_real, r) <= largest_real,
        cover_len(min, max, largest_real, r) <= max,
{
    let hi = if max < largest_real { max } else { largest_real };
    let lo = if min < hi { min } else { hi };
    if hi > lo {
        vstd::arithmetic::div_mod::lemma_mod_bound(r as int, (hi - lo + 1) as int);
    }
}

/// The cover payload length for the random draw `r`.
pub fn cover_payload_len(min: usize, max: usize, largest_real: usize, r: u32) -> (n: usize)
    ensures
        n == cover_len(min as nat, max as nat, largest_real as nat, r),
{
    let hi = if max < largest_real { max } else { largest_real };
    let lo = if min < hi { min } else { hi };
    if hi > lo {
        let span: usize = hi - lo;
        let k: u128 = (r as u128) % ((span as u128) + 1);
        assert(k <= span);
        lo + k as usize
    } else {
        lo
    }
}

/// The next cover deadline after `from`: `from` itself when cover is off,
/// else `from + min` plus the random `r` reduced into the interval span,
/// both ends included.
pub open spec fn cover_deadline(from: u64, range: Option<(u64, u64)>, r: u64) -> u64 {
    match range {
        None => from,
        Some((min, max)) => {
            let span: nat = if max >= min { (max - min) as nat } else { 0 };
            let jitter: nat = (r as nat) % (span + 1);
            (from + min + jitter) as u64
        },
    }
}

/// The next cover deadline for the random draw `r`.
pub fn schedule_next_cover(from: u64, range: Option<(u64, u64)>, r: u64) -> (t: u64)
    requires
        range matches Some(p) ==> from + p.0 <= u64::MAX && from + p.1 <= u64::MAX,
    ensures
        t == cover_deadline(from, range, r),
{
    match range {
        None => from,
        Some((min, max)) => {
            let span: u64 = max.saturating_sub(min);
            let jitter: u64 = if span == u64::MAX {
                proof {
                    vstd::arithmetic::div_mod::lemma_small_mod(r as nat, (span as nat + 1) as nat);
                }
                r
            } else {
                r % (span + 1)
            };
            assert(jitter <= span);
            assert(jitter == (r as nat) % (span as nat + 1));
            from + min + jitter
        },
    }
}

/// Abstract state of a [`UdpSession`].
pub struct SessionView {
    /// Where datagrams are sent and accepted from (peer, relay or first hop).
    pub next_hop: SockAddr,
    /// The other endpoint.
    pub peer: SockAddr,
    /// Datagrams go in Forward envelopes through a relay.
    pub via_relay: bool,
    /// Outbound onion route, if any.
    pub onion: Option<Seq<OnionHop>>,
    /// Reliability state.
    pub arq: ArqView,
    /// Outbound sealed DATA datagrams still to be dropped (loss tests).
    pub drop_data: u32,
    /// Cover policy.
    pub cover: CoverMode,
    /// When the next cover datagram is due (milliseconds).
    pub next_cover_at: u64,
    /// The Noise handshake is still running.
    pub handshaking: bool,
    /// Noise transport mode is active.
    pub transport: bool,
}

/// The route of a session: peer, whether via a relay, and the onion hops.
pub open spec fn route(v: SessionView) -> (SockAddr, bool, Option<Seq<OnionHop>>) {
    (v.peer, v.via_relay, v.onion)
}

/// `w` carries the datagram `inner` along the route `rt`: through the onion
/// hops, in a Forward envelope for the relay, or as it is.
pub open spec fn carried(rt: (SockAddr, bool, Option<Seq<OnionHop>>), inner: Seq<u8>, w: Seq<u8>) -> bool {
    match rt.2 {
        Some(hops) => is_route(hops, rt.0, inner, w),
        None => if rt.1 {
            rt.0 matches SockAddr::V4 { ip, port } && w == datagram(PacketType::Forward, forward_body(ip, port, inner))
        } else {
            w == inner
        },
    }
}

/// Whether a datagram of `len` bytes can be carried on the session's path.
pub open spec fn path_check(v: SessionView, len: nat) -> Result<(), PacketError> {
    match v.onion {
        Some(hops) => match route_check(hops, v.peer, len) {
            Ok(_) => Ok(()),
            Err(e) => Err(e),
        },
        None => if !v.via_relay {
            Ok(())
        } else if v.peer is V6 {
            Err(PacketError::BadAddress)
        } else if OUTER_HEADER_LEN + FORWARD_BODY_OVERHEAD + len > MAX_DATAGRAM {
            Err(PacketError::TooLarge)
        } else {
            Ok(())
        },
    }
}

/// Whether a datagram with a body of `body_len` bytes can be sent along the
/// route `rt` (peer, relay path, onion hops): it must fit `MAX_DATAGRAM`,
/// then the path.
pub open spec fn route_send_check(rt: (SockAddr, bool, Option<Seq<OnionHop>>), body_len: nat) -> Result<(), PacketError> {
    let len = (OUTER_HEADER_LEN + body_len) as nat;
    if len > MAX_DATAGRAM {
        Err(PacketError::TooLarge)
    } else {
        match rt.2 {
            Some(hops) => match route_check(hops, rt.0, len) {
                Ok(_) => Ok(()),
                Err(e) => Err(e),
            },
            None => if !rt.1 {
                Ok(())
            } else if rt.0 is V6 {
                Err(PacketError::BadAddress)
            } else if OUTER_HEADER_LEN + FORWARD_BODY_OVERHEAD + len > MAX_DATAGRAM {
                Err(PacketError::TooLarge)
            } else {
                Ok(())
            },
        }
    }
}

/// `path` goes through an onion route with no hop.
pub open spec fn empty_path(path: Path) -> bool {
    match path {
        Path::ViaOnion { hops, .. } => hops@.len() == 0,
        _ => false,
    }
}

/// The route a session set up on `path` sends along.
pub open spec fn path_route(path: Path) -> (SockAddr, bool, Option<Seq<OnionHop>>) {
    match path {
        Path::Direct { peer } => (peer, false, None),
        Path::ViaRelay { relay, peer } => (peer, true, None),
        Path::ViaOnion { hops, dest } => (dest, false, Some(hops@)),
    }
}

/// The route a responder replies along: back through the given onion
/// hops, else to the peer the first datagram named, through the relay when
/// one is expected.
pub open spec fn responder_route(
    raw: Seq<u8>,
    from: SockAddr,
    expected_relay: Option<SockAddr>,
    outbound_onion: Option<(Vec<OnionHop>, SockAddr)>,
) -> (SockAddr, bool, Option<Seq<OnionHop>>) {
    match outbound_onion {
        Some((hops, dest)) => (dest, false, Some(hops@)),
        None => match incoming_decoding(expected_relay is Some, raw) {
            Ok((_, _, Some(other))) => if expected_relay is Some { (other, true, None) } else { (from, false, None) },
            _ => (from, expected_relay is Some, None),
        },
    }
}

/// The body of the handshake datagram that `raw` carries.
pub open spec fn handshake_body(raw: Seq<u8>, via_relay: bool) -> Seq<u8> {
    match incoming_decoding(via_relay, raw) {
        Ok((_, body, _)) => body,
        Err(_) => Seq::empty(),
    }
}

/// What sending a `ty` datagram with `body` answers: the wire to send to the
/// next hop, or the first check that fails.
pub open spec fn sent_as(v: SessionView, ty: PacketType, body: Seq<u8>, r: Result<Vec<u8>, SessionError>) -> bool {
    if OUTER_HEADER_LEN + body.len() > MAX_DATAGRAM {
        r == Err::<Vec<u8>, SessionError>(SessionError::Packet(PacketError::TooLarge))
    } else {
        match path_check(v, (OUTER_HEADER_LEN + body.len()) as nat) {
            Err(e) => r == Err::<Vec<u8>, SessionError>(SessionError::Packet(e)),
            Ok(_) => r matches Ok(w) && carried(route(v), datagram(ty, body), w@),
        }
    }
}

/// `w` is a `ty` datagram with some body, carried on the session's path.
pub open spec fn carries_some(rt: (SockAddr, bool, Option<Seq<OnionHop>>), ty: PacketType, w: Seq<u8>) -> bool {
    exists|body: Seq<u8>| #[trigger] carried(rt, datagram(ty, body), w)
}

/// `w` is a Data datagram carrying a Noise message sealed from `len`
/// plaintext bytes (`len` plus the tag), on the session's path.
pub open spec fn carries_sealed(rt: (SockAddr, bool, Option<Seq<OnionHop>>), len: nat, w: Seq<u8>) -> bool {
    exists|sealed: Seq<u8>| #[trigger] carried(rt, datagram(PacketType::Data, sealed), w) && sealed.len() == len + NOISE_TAG_LEN
}

/// The outgoing fragment cap for a path: the exact fit, kept within
/// `1..=MAX_PAYLOAD` as the ARQ clamps it.
pub open spec fn clamped_cap(via_relay: bool, onion_hops: nat) -> nat {
    let c = fragment_cap(via_relay, onion_hops);
    if c < 1 { 1 } else { c }
}

/// The number of onion hops of a route choice.
pub open spec fn hop_count(onion: Option<Seq<OnionHop>>) -> nat {
    match onion {
        Some(h) => h.len(),
        None => 0,
    }
}


/// The reliability state a new session starts with: nothing queued or
/// received, default timers, fragments of `cap` bytes.
pub open spec fn fresh_arq(cap: nat) -> ArqView {
    ArqView {
        next_seq: 0,
        next_frag_id: 1,
        unacked: Map::empty(),
        recv_base: 0,
        recv_bits: 0,
        fragments: Map::empty(),
        fragment_order: Seq::empty(),
        delivered: Seq::empty(),
        pending_ack: false,
        max_attempts: DEFAULT_MAX_ATTEMPTS,
        retx: DEFAULT_RETX_MS,
        max_fragment: cap,
    }
}

/// A session just set up on the route `(next_hop, peer, via_relay, onion)`.
pub open spec fn starts_on(
    v: SessionView,
    next_hop: SockAddr,
    peer: SockAddr,
    via_relay: bool,
    onion: Option<Seq<OnionHop>>,
) -> bool {
    &&& v.next_hop == next_hop
    &&& v.peer == peer
    &&& v.via_relay == via_relay
    &&& v.onion == onion
    &&& v.arq == fresh_arq(clamped_cap(via_relay, hop_count(onion)))
    &&& v.drop_data == 0
    &&& v.cover == CoverMode::Off
    &&& v.next_cover_at == 0
}

/// What an arriving datagram `raw` from `from` gives the session in state
/// `v`: its type, body, and the peer afterwards (the relay path learns it
/// from the Forward envelope), or the first check that fails.
pub open spec fn arrival(v: SessionView, raw: Seq<u8>, from: SockAddr) -> Result<(PacketType, Seq<u8>, SockAddr), SessionError> {
    if from != v.next_hop {
        Err(SessionError::UnexpectedAddr)
    } else {
        match incoming_decoding(v.via_relay, raw) {
            Err(e) => Err(e),
            Ok((ty, body, other)) => Ok((ty, body, match other {
                Some(p) => p,
                None => v.peer,
            })),
        }
    }
}

/// `n` is `o` with only the Noise phase possibly changed.
pub open spec fn same_but_phase(o: SessionView, n: SessionView) -> bool {
    n == (SessionView { handshaking: n.handshaking, transport: n.transport, ..o })
}

/// The outcome of a handshake step on an arriving datagram: a failed
/// arrival changes nothing; otherwise the peer is updated, a datagram that
/// is not a handshake message is refused, and success means it was one.
pub open spec fn handshake_arrival<T>(o: SessionView, n: SessionView, raw: Seq<u8>, from: SockAddr, r: Result<T, SessionError>) -> bool {
    match arrival(o, raw, from) {
        Err(e) => r == Err::<T, SessionError>(e) && n == o,
        Ok((ty, _, p)) => {
            &&& same_but_phase(SessionView { peer: p, ..o }, n)
            &&& ty != PacketType::Handshake ==> r == Err::<T, SessionError>(SessionError::UnexpectedType) && n == (SessionView { peer: p, ..o })
            &&& r is Ok ==> ty == PacketType::Handshake && o.handshaking
        },
    }
}


/// `out` is what sealing `frames` in order gives when the first `drop0`
/// sealed DATA datagrams are to be dropped: the frames not dropped, each
/// sealed and carried on the path, with `drop1` drops left.
pub open spec fn sealed_batch(rt: (SockAddr, bool, Option<Seq<OnionHop>>), frames: Seq<Seq<u8>>, drop0: u32, out: Seq<Vec<u8>>, drop1: u32) -> bool {
    let k: nat = if drop0 < frames.len() { drop0 as nat } else { frames.len() };
    &&& drop1 == drop0 - k
    &&& out.len() == frames.len() - k
    &&& forall|j: int| 0 <= j < out.len() ==> carries_sealed(rt, frames[k + j].len(), #[trigger] out[j]@)
}

/// What taking in a Data body of `len` bytes does, from state `o` to state
/// `n` with result `r`: a body that does not open is dropped and nothing
/// changes; an opened frame (16 bytes shorter) goes to the ARQ, and an ACK
/// it owes is sealed and carried back.
pub open spec fn took_in(o: SessionView, n: SessionView, len: nat, r: Result<Option<Vec<u8>>, SessionError>) -> bool {
    ||| r == Ok::<Option<Vec<u8>>, SessionError>(None) && n == o
    ||| exists|pt: Seq<u8>, ir: Result<Option<Seq<u8>>, ArqError>|
        #[trigger] ingest_step(o.arq, n.arq, pt, ir) && pt.len() + NOISE_TAG_LEN == len && n == (SessionView { arq: n.arq, ..o })
            && match ir {
            Err(e) => r == Err::<Option<Vec<u8>>, SessionError>(SessionError::Arq(e)),
            Ok(None) => r == Ok::<Option<Vec<u8>>, SessionError>(None),
            Ok(Some(ack)) => (r matches Ok(Some(w)) && carries_sealed(route(n), ack.len(), w@)) || (r matches Err(e) && (e is Noise
                || e is Packet)),
        }
}

/// `body` has a cover payload's length for the random draw `r`.
pub open spec fn cover_body(v: SessionView, r: u32, body: Seq<u8>) -> bool {
    body.len() == cover_len(
        cover_payload_range(v.cover).0 as nat,
        cover_payload_range(v.cover).1 as nat,
        (DATA_HDR_LEN + NOISE_TAG_LEN + v.arq.max_fragment) as nat,
        r,
    )
}

/// `w` is a cover datagram: a Data datagram of random bytes of a cover
/// payload's length, carried on the path.
pub open spec fn cover_sent(v: SessionView, w: Seq<u8>) -> bool {
    exists|r: u32, body: Seq<u8>| #[trigger] cover_body(v, r, body) && carried(route(v), datagram(PacketType::Data, body), w)
}

/// Whether a datagram with a body of `body_len` bytes can be sent on the
/// session's path: the datagram must fit `MAX_DATAGRAM`, and then the path.
pub open spec fn wire_check(v: SessionView, body_len: nat) -> Result<(), PacketError> {
    if OUTER_HEADER_LEN + body_len > MAX_DATAGRAM {
        Err(PacketError::TooLarge)
    } else {
        path_check(v, (OUTER_HEADER_LEN + body_len) as nat)
    }
}

/// Whether the sealed form of the inner frame `f` (16 bytes longer) can be
/// sent as a Data datagram on the session's path.
pub open spec fn frame_check(v: SessionView, f: Seq<u8>) -> Result<(), PacketError> {
    wire_check(v, (f.len() + NOISE_TAG_LEN) as nat)
}

/// Every frame of `frames` after the first `drop0` (which are dropped) can
/// be sealed and sent on the path.
pub open spec fn batch_fits(v: SessionView, frames: Seq<Seq<u8>>, drop0: u32) -> bool {
    forall|j: int| drop0 <= j < frames.len() ==> #[trigger] frame_check(v, frames[j]) is Ok
}

/// Some frame of `frames` after the first `drop0` is refused by the path
/// with `e`.
pub open spec fn batch_refuses(v: SessionView, frames: Seq<Seq<u8>>, drop0: u32, e: PacketError) -> bool {
    exists|j: int| drop0 <= j < frames.len() && #[trigger] frame_check(v, frames[j]) == Err::<(), PacketError>(e)
}

/// How many of `drop0` pending drops are left after a batch of `n` frames.
pub open spec fn drops_left(drop0: u32, n: nat) -> u32 {
    if drop0 < n { 0 } else { (drop0 - n) as u32 }
}

/// A batch fits when both its parts do, the second with the drops the
/// first left; a part's refusal is the batch's.
proof fn lemma_batch_split(v: SessionView, a: Seq<Seq<u8>>, b: Seq<Seq<u8>>, d: u32)
    ensures
        batch_fits(v, a + b, d) ==> batch_fits(v, a, d) && batch_fits(v, b, drops_left(d, a.len())),
        forall|e: PacketError| #[trigger] batch_refuses(v, a, d, e) ==> batch_refuses(v, a + b, d, e),
        forall|e: PacketError| #[trigger] batch_refuses(v, b, drops_left(d, a.len()), e) ==> batch_refuses(v, a + b, d, e),
{
    let ab = a + b;
    let d2 = drops_left(d, a.len());
    if batch_fits(v, ab, d) {
        assert forall|j: int| d <= j < a.len() implies #[trigger] frame_check(v, a[j]) is Ok by {
            assert(ab[j] == a[j]);
        }
        assert forall|j: int| d2 <= j < b.len() implies #[trigger] frame_check(v, b[j]) is Ok by {
            assert(ab[a.len() + j] == b[j]);
        }
    }
    assert forall|e: PacketError| #[trigger] batch_refuses(v, a, d, e) implies batch_refuses(v, ab, d, e) by {
        let j = choose|j: int| d <= j < a.len() && #[trigger] frame_check(v, a[j]) == Err::<(), PacketError>(e);
        assert(ab[j] == a[j]);
    }
    assert forall|e: PacketError| #[trigger] batch_refuses(v, b, d2, e) implies batch_refuses(v, ab, d, e) by {
        let j = choose|j: int| d2 <= j < b.len() && #[trigger] frame_check(v, b[j]) == Err::<(), PacketError>(e);
        assert(ab[a.len() + j] == b[j]);
    }
}

/// Whether frames fit depends on the path alone.
proof fn lemma_batch_path(v1: SessionView, v2: SessionView, f: Seq<Seq<u8>>, d: u32)
    requires
        v1.onion == v2.onion,
        v1.via_relay == v2.via_relay,
        v1.peer == v2.peer,
    ensures
        batch_fits(v1, f, d) == batch_fits(v2, f, d),
        forall|e: PacketError| #[trigger] batch_refuses(v1, f, d, e) == batch_refuses(v2, f, d, e),
{
    assert forall|j: int| 0 <= j < f.len() implies #[trigger] frame_check(v1, f[j]) == frame_check(v2, f[j]) by {
        assert(path_check(v1, (OUTER_HEADER_LEN + f[j].len() + NOISE_TAG_LEN) as nat) == path_check(v2, (OUTER_HEADER_LEN + f[j].len() + NOISE_TAG_LEN) as nat));
    }
    if batch_fits(v1, f, d) {
        assert forall|j: int| d <= j < f.len() implies #[trigger] frame_check(v2, f[j]) is Ok by {
            assert(frame_check(v1, f[j]) is Ok);
        }
    }
    if batch_fits(v2, f, d) {
        assert forall|j: int| d <= j < f.len() implies #[trigger] frame_check(v1, f[j]) is Ok by {
            assert(frame_check(v2, f[j]) is Ok);
        }
    }
    assert forall|e: PacketError| #[trigger] batch_refuses(v1, f, d, e) implies batch_refuses(v2, f, d, e) by {
        let j = choose|j: int| d <= j < f.len() && #[trigger] frame_check(v1, f[j]) == Err::<(), PacketError>(e);
        assert(frame_check(v2, f[j]) == Err::<(), PacketError>(e));
    }
    assert forall|e: PacketError| #[trigger] batch_refuses(v2, f, d, e) implies batch_refuses(v1, f, d, e) by {
        let j = choose|j: int| d <= j < f.len() && #[trigger] frame_check(v2, f[j]) == Err::<(), PacketError>(e);
        assert(frame_check(v1, f[j]) == Err::<(), PacketError>(e));
    }
}

/// The frames a flush at `now` seals, in order: the first sends, then, if
/// the retransmit pass does not give up, the retransmissions.
pub open spec fn flush_frames(a: ArqView, now: u64) -> Seq<Seq<u8>> {
    match retransmit_result(new_sends_state(a, now), now) {
        Ok(rl) => new_sends(a) + rl,
        Err(_) => new_sends(a),
    }
}

/// The cover body length for the random draw `r` in state `v`.
pub open spec fn cover_body_len(v: SessionView, r: u32) -> nat {
    cover_len(
        cover_payload_range(v.cover).0 as nat,
        cover_payload_range(v.cover).1 as nat,
        (DATA_HDR_LEN + NOISE_TAG_LEN + v.arq.max_fragment) as nat,
        r,
    )
}

/// What a due cover send answers for the length draw `r`: the path's
/// refusal of a body that long, or a Data datagram of a body that long,
/// carried on the path.
pub open spec fn cover_outcome(v: SessionView, r: u32, res: Result<Option<Vec<u8>>, SessionError>) -> bool {
    match wire_check(v, cover_body_len(v, r)) {
        Err(e) => res == Err::<Option<Vec<u8>>, SessionError>(SessionError::Packet(e)),
        Ok(_) => match res {
            Ok(Some(w)) => cover_wire(v, r, w@),
            _ => false,
        },
    }
}

/// `w` carries, on the path, a Data datagram with a body of the drawn
/// cover length.
pub open spec fn cover_wire(v: SessionView, r: u32, w: Seq<u8>) -> bool {
    exists|body: Seq<u8>| body.len() == cover_body_len(v, r) && #[trigger] carried(route(v), datagram(PacketType::Data, body), w)
}

/// A body of the drawn length that the path accepts, carried on the path,
/// is the outcome of a due cover send.
proof fn lemma_cover_sent_outcome(v: SessionView, r: u32, body: Seq<u8>, w: Vec<u8>)
    requires
        wire_check(v, cover_body_len(v, r)) is Ok,
        body.len() == cover_body_len(v, r),
        carried(route(v), datagram(PacketType::Data, body), w@),
    ensures
        cover_outcome(v, r, Ok::<Option<Vec<u8>>, SessionError>(Some(w))),
{
    assert(cover_wire(v, r, w@));
}

/// `t` is a cover deadline drawn from `from` for `mode`.
pub open spec fn cover_scheduled(t: u64, from: u64, mode: CoverMode) -> bool {
    exists|r: u64| #[trigger] cover_deadline(from, cover_interval(mode), r) == t
}

/// Wire size of a sealed Data datagram for `len` plaintext bytes: `len + 24`
/// on the direct path (8-byte header, 16-byte tag), so a DATA frame with
/// `n` application bytes is `33 + n` bytes and an ACK 37; the relay path's
/// Forward envelope adds 14 more.
pub proof fn lemma_sealed_wire_size(rt: (SockAddr, bool, Option<Seq<OnionHop>>), len: nat, w: Seq<u8>)
    requires
        carries_sealed(rt, len, w),
        rt.2 is None,
    ensures
        !rt.1 ==> w.len() == len + 24,
        rt.1 ==> w.len() == len + 38,
{
    let sealed = choose|sealed: Seq<u8>| #[trigger] carried(rt, datagram(PacketType::Data, sealed), w) && sealed.len() == len + NOISE_TAG_LEN;
    if rt.1 {
        if let SockAddr::V4 { ip, port } = rt.0 {
            crate::network::addr::lemma_v4_roundtrip(ip, port, Seq::<u8>::empty());
        }
    }
}

/// Established (or establishing) PPoSE session state.
pub struct UdpSession {
    next_hop: SockAddr,
    peer: SockAddr,
    via_relay: bool,
    onion: Option<Vec<OnionHop>>,
    noise: NoiseSession,
    arq: Arq,
    drop_data: u32,
    cover: CoverMode,
    next_cover_at: u64,
}

impl View for UdpSession {
    type V = SessionView;

    closed spec fn view(&self) -> SessionView {
        SessionView {
            next_hop: self.next_hop,
            peer: self.peer,
            via_relay: self.via_relay,
            onion: match self.onion {
                Some(h) => Some(h@),
                None => None,
            },
            arq: self.arq@,
            drop_data: self.drop_data,
            cover: self.cover,
            next_cover_at: self.next_cover_at,
            handshaking: self.noise.in_handshake(),
            transport: self.noise.transport_mode(),
        }
    }
}


/// Why a responder refuses the first datagram `raw` from `from`, before any
/// Noise work: it must come from `expected_relay` when one is given, decode
/// (as a Forward envelope on the relay path), and be a handshake message.
pub open spec fn responder_refusal(raw: Seq<u8>, from: SockAddr, expected_relay: Option<SockAddr>) -> Option<SessionError> {
    match expected_relay {
        Some(rel) if from != rel => Some(SessionError::UnexpectedAddr),
        _ => match incoming_decoding(expected_relay is Some, raw) {
            Err(e) => Some(e),
            Ok((ty, _, _)) => if ty != PacketType::Handshake {
                Some(SessionError::UnexpectedType)
            } else {
                None
            },
        },
    }
}

/// Whether a return route is given and has no hop.
pub open spec fn empty_route(outbound: Option<(Vec<OnionHop>, SockAddr)>) -> bool {
    match outbound {
        Some((hops, _)) => hops@.len() == 0,
        None => false,
    }
}

/// A zeroed buffer that holds a whole datagram and at least `len` bytes.
fn read_buffer(len: usize) -> (v: Vec<u8>)
    ensures
        v@.len() >= len,
        v@.len() >= MAX_DATAGRAM,
{
    let n: usize = if len > MAX_DATAGRAM { len } else { MAX_DATAGRAM };
    vec![0u8; n]
}

impl UdpSession {
    /// Consistent state: a non-empty onion route when there is one, and
    /// fragments sized for the path.
    pub closed spec fn wf(&self) -> bool {
        &&& self.noise.wf()
        &&& self.arq.wf()
        &&& self.onion matches Some(h) ==> h@.len() > 0
        &&& self@.arq.max_fragment == clamped_cap(self.via_relay, hop_count(self@.onion))
    }

    /// Peer application address (the other endpoint, not the relay).
    pub fn peer(&self) -> (p: SockAddr)
        ensures
            p == self@.peer,
    {
        self.peer
    }

    /// Where datagrams go, and the only source accepted.
    pub fn next_hop(&self) -> (a: SockAddr)
        ensures
            a == self@.next_hop,
    {
        self.next_hop
    }

    /// Shrink outgoing ARQ fragments so every sealed DATA frame fits
    /// `MAX_DATAGRAM` on the current path.
    fn fit_fragments_to_path(&mut self)
        requires
            old(self).noise.wf(),
            old(self).arq.wf(),
            old(self).onion matches Some(h) ==> h@.len() > 0,
        ensures
            final(self).wf(),
            final(self)@ == (SessionView {
                arq: ArqView {
                    max_fragment: clamped_cap(old(self)@.via_relay, hop_count(old(self)@.onion)),
                    ..old(self)@.arq
                },
                ..old(self)@
            }),
    {
        let hops: usize = match &self.onion {
            Some(h) => h.len(),
            None => 0,
        };
        let cap = max_fragment_for_path(self.via_relay, hops);
        proof {
            assert(fragment_cap(self.via_relay, hops as nat) <= MAX_PAYLOAD);
        }
        self.arq.set_max_fragment(cap);
    }

    /// Write the next handshake message and wrap it for the path.
    fn handshake_out(&mut self) -> (r: Result<Vec<u8>, SessionError>)
        requires
            old(self).wf(),
        ensures
            final(self).wf(),
            same_but_phase(old(self)@, final(self)@),
            !old(self)@.handshaking ==> r == Err::<Vec<u8>, SessionError>(SessionError::Noise(NoiseError::BadState)) && final(self)@ == old(self)@,
            r matches Ok(w) ==> old(self)@.handshaking && carries_some(route(final(self)@), PacketType::Handshake, w@),
            r matches Err(e) ==> e is Noise || e is Packet,
    {
        let empty: [u8; 0] = [];
        let mut buf: Vec<u8> = vec![0u8; MAX_DATAGRAM];
        let n = match self.noise.write_handshake(&empty, buf.as_mut_slice()) {
            Ok(n) => n,
            Err(e) => return Err(SessionError::Noise(e)),
        };
        let msg = slice_subrange(buf.as_slice(), 0, n);
        let r = self.send_wire(PacketType::Handshake, msg);
        proof {
            if r is Ok {
                assert(carried(route(self@), datagram(PacketType::Handshake, msg@), r->Ok_0@));
            }
        }
        r
    }

    /// Take in an arriving datagram: it must come from the next hop and
    /// decode for the path; on the relay path the envelope names the peer.
    fn recv_check(&mut self, raw: &[u8], from: SockAddr) -> (r: Result<(PacketType, Vec<u8>), SessionError>)
        requires
            old(self).wf(),
        ensures
            final(self).wf(),
            match arrival(old(self)@, raw@, from) {
                Err(e) => r == Err::<(PacketType, Vec<u8>), SessionError>(e) && final(self)@ == old(self)@,
                Ok((ty, body, p)) => (r matches Ok((t, b)) && t == ty && b@ == body) && final(self)@ == (SessionView { peer: p, ..old(self)@ }),
            },
    {
        if from != self.next_hop {
            return Err(SessionError::UnexpectedAddr);
        }
        let (ty, body, other) = match decode_incoming(self.via_relay, raw) {
            Ok(v) => v,
            Err(e) => return Err(e),
        };
        if let Some(o) = other {
            self.peer = o;
        }
        Ok((ty, body))
    }

    /// Noise XX initiator, first step: set up the session on `path` and
    /// produce the first handshake message, to send to the next hop.
    pub fn start_initiator(local: &IdentitySecret, path: Path) -> (r: Result<(UdpSession, Vec<u8>), SessionError>)
        ensures
            empty_path(path) ==> r == Err::<(UdpSession, Vec<u8>), SessionError>(SessionError::EmptyOnion),
            !empty_path(path) ==> match route_send_check(path_route(path), 32) {
                Ok(_) => r is Ok,
                Err(e) => r == Err::<(UdpSession, Vec<u8>), SessionError>(SessionError::Packet(e)),
            },
            r matches Ok((s, w)) ==> s.wf() && carries_some(route(s@), PacketType::Handshake, w@) && match path {
                Path::Direct { peer } => starts_on(s@, peer, peer, false, None),
                Path::ViaRelay { relay, peer } => starts_on(s@, relay, peer, true, None),
                Path::ViaOnion { hops, dest } => starts_on(s@, hops@[0].addr, dest, false, Some(hops@)),
            },
            r matches Err(e) ==> e is EmptyOnion || e is Packet,
    {
        let (next_hop, peer, via_relay, onion) = match path {
            Path::Direct { peer } => (peer, peer, false, None),
            Path::ViaRelay { relay, peer } => (relay, peer, true, None),
            Path::ViaOnion { hops, dest } => {
                if hops.len() == 0 {
                    return Err(SessionError::EmptyOnion);
                }
                (hops[0].addr, dest, false, Some(hops))
            },
        };
        let mut buf: Vec<u8> = vec![0u8; MAX_DATAGRAM];
        let (noise, n) = match NoiseSession::initiate(local, buf.as_mut_slice()) {
            Ok(v) => v,
            Err(e) => return Err(SessionError::Noise(e)),
        };
        let mut sess = UdpSession {
            next_hop,
            peer,
            via_relay,
            onion,
            noise,
            arq: Arq::new(),
            drop_data: 0,
            cover: CoverMode::Off,
            next_cover_at: 0,
        };
        sess.fit_fragments_to_path();
        let msg = slice_subrange(buf.as_slice(), 0, n);
        let w = match sess.send_wire(PacketType::Handshake, msg) {
            Ok(w) => w,
            Err(e) => return Err(e),
        };
        proof {
            assert(carried(route(sess@), datagram(PacketType::Handshake, msg@), w@));
        }
        Ok((sess, w))
    }

    /// Noise XX initiator, second step: take in the responder's message
    /// (from the next hop) and produce the final handshake message, to send
    /// to the next hop before calling [`confirm`](Self::confirm).
    pub fn finish_initiator(&mut self, raw: &[u8], from: SockAddr) -> (r: Result<Vec<u8>, SessionError>)
        requires
            old(self).wf(),
        ensures
            final(self).wf(),
            handshake_arrival(old(self)@, final(self)@, raw@, from, r),
            r matches Ok(w) ==> carries_some(route(final(self)@), PacketType::Handshake, w@),
    {
        let (ty, body) = match self.recv_check(raw, from) {
            Ok(v) => v,
            Err(e) => return Err(e),
        };
        if ty != PacketType::Handshake {
            return Err(SessionError::UnexpectedType);
        }
        let mut tmp: Vec<u8> = read_buffer(body.len());
        match self.noise.read_handshake(body.as_slice(), tmp.as_mut_slice()) {
            Ok(_) => {},
            Err(e) => return Err(SessionError::Noise(e)),
        }
        self.handshake_out()
    }

    /// Noise XX responder, first step, on the first datagram `raw` received
    /// from `from`: it must come from `expected_relay` when one is given
    /// (the relay path), and be a handshake message. Sets up the session
    /// (replying onion-wrapped when `outbound_onion` is given) and produces
    /// the reply handshake message, to send to the next hop.
    pub fn start_responder(
        local: &IdentitySecret,
        raw: &[u8],
        from: SockAddr,
        expected_relay: Option<SockAddr>,
        outbound_onion: Option<(Vec<OnionHop>, SockAddr)>,
    ) -> (r: Result<(UdpSession, Vec<u8>), SessionError>)
        ensures
            responder_refusal(raw@, from, expected_relay) matches Some(e) ==> r == Err::<(UdpSession, Vec<u8>), SessionError>(e),
            responder_refusal(raw@, from, expected_relay) is None && !(32 <= handshake_body(raw@, expected_relay is Some).len()
                <= NOISE_MAX_MSG) ==> (r matches Err(e) && e is Noise),
            responder_refusal(raw@, from, expected_relay) is None && 32 <= handshake_body(raw@, expected_relay is Some).len()
                <= NOISE_MAX_MSG && empty_route(outbound_onion) ==> r == Err::<(UdpSession, Vec<u8>), SessionError>(
                SessionError::EmptyOnion,
            ),
            responder_refusal(raw@, from, expected_relay) is None && 32 <= handshake_body(raw@, expected_relay is Some).len()
                <= NOISE_MAX_MSG && !empty_route(outbound_onion) ==> match route_send_check(
                responder_route(raw@, from, expected_relay, outbound_onion),
                96,
            ) {
                Ok(_) => r is Ok,
                Err(e) => r == Err::<(UdpSession, Vec<u8>), SessionError>(SessionError::Packet(e)),
            },
            r matches Err(e) ==> responder_refusal(raw@, from, expected_relay) == Some(e) || e is Noise || e is Packet
                || (e == SessionError::EmptyOnion && empty_route(outbound_onion)),
            r matches Ok((s, w)) ==> s.wf() && carries_some(route(s@), PacketType::Handshake, w@)
                && (incoming_decoding(expected_relay is Some, raw@) matches Ok((ty, _, other))
                && ty == PacketType::Handshake && match outbound_onion {
                    Some((hops, dest)) => starts_on(s@, hops@[0].addr, dest, false, Some(hops@)),
                    None => starts_on(
                        s@,
                        from,
                        if expected_relay is Some { other->0 } else { from },
                        expected_relay is Some,
                        None,
                    ),
                }),
    {
        let via_relay = expected_relay.is_some();
        if let Some(relay) = expected_relay {
            if from != relay {
                return Err(SessionError::UnexpectedAddr);
            }
        }
        let (ty, body, other) = match decode_incoming(via_relay, raw) {
            Ok(v) => v,
            Err(e) => return Err(e),
        };
        if ty != PacketType::Handshake {
            return Err(SessionError::UnexpectedType);
        }
        let peer = if via_relay {
            match other {
                Some(o) => o,
                None => return Err(SessionError::UnexpectedType),
            }
        } else {
            from
        };
        let mut scratch: Vec<u8> = read_buffer(body.len());
        let mut buf: Vec<u8> = vec![0u8; MAX_DATAGRAM];
        let (noise, n) = match NoiseSession::respond(local, body.as_slice(), scratch.as_mut_slice(), buf.as_mut_slice()) {
            Ok(v) => v,
            Err(e) => return Err(SessionError::Noise(e)),
        };
        let mut sess = UdpSession {
            next_hop: from,
            peer,
            via_relay,
            onion: None,
            noise,
            arq: Arq::new(),
            drop_data: 0,
            cover: CoverMode::Off,
            next_cover_at: 0,
        };
        sess.fit_fragments_to_path();
        if let Some((hops, dest)) = outbound_onion {
            match sess.set_outbound_onion(hops, dest) {
                Ok(()) => {},
                Err(e) => return Err(e),
            }
        }
        let msg = slice_subrange(buf.as_slice(), 0, n);
        let w = match sess.send_wire(PacketType::Handshake, msg) {
            Ok(w) => w,
            Err(e) => return Err(e),
        };
        proof {
            assert(carried(route(sess@), datagram(PacketType::Handshake, msg@), w@));
        }
        Ok((sess, w))
    }

    /// Noise XX responder, second step: take in the initiator's final
    /// handshake message (from the next hop). Call
    /// [`confirm`](Self::confirm) next.
    pub fn finish_responder(&mut self, raw: &[u8], from: SockAddr) -> (r: Result<(), SessionError>)
        requires
            old(self).wf(),
        ensures
            final(self).wf(),
            handshake_arrival(old(self)@, final(self)@, raw@, from, r),
    {
        let (ty, body) = match self.recv_check(raw, from) {
            Ok(v) => v,
            Err(e) => return Err(e),
        };
        if ty != PacketType::Handshake {
            return Err(SessionError::UnexpectedType);
        }
        let mut tmp: Vec<u8> = read_buffer(body.len());
        match self.noise.read_handshake(body.as_slice(), tmp.as_mut_slice()) {
            Ok(_) => Ok(()),
            Err(e) => Err(SessionError::Noise(e)),
        }
    }

    /// Last handshake check: transport mode must be active, and the remote
    /// static key must be `expected` when one is pinned.
    pub fn confirm(&self, expected: Option<PublicIdentity>) -> (r: Result<(), SessionError>)
        requires
            self.wf(),
        ensures
            !self@.transport ==> r == Err::<(), SessionError>(SessionError::HandshakeIncomplete),
            self@.transport && expected is None ==> r == Ok::<(), SessionError>(()),
            r matches Err(e) ==> e == SessionError::HandshakeIncomplete || e == SessionError::Noise(NoiseError::BadState)
                || e == SessionError::Noise(NoiseError::PinMismatch),
    {
        if !self.noise.is_transport() {
            return Err(SessionError::HandshakeIncomplete);
        }
        match expected {
            None => Ok(()),
            Some(exp) => match self.noise.pin_remote(&exp.as_bytes()) {
                Ok(()) => Ok(()),
                Err(e) => Err(SessionError::Noise(e)),
            },
        }
    }

    /// Set the outbound onion route (the return path after accept).
    pub fn set_outbound_onion(&mut self, hops: Vec<OnionHop>, dest: SockAddr) -> (r: Result<(), SessionError>)
        requires
            old(self).wf(),
        ensures
            final(self).wf(),
            hops@.len() == 0 ==> r == Err::<(), SessionError>(SessionError::EmptyOnion) && final(self)@ == old(self)@,
            hops@.len() > 0 ==> r is Ok && final(self)@ == (SessionView {
                next_hop: hops@[0].addr,
                peer: dest,
                via_relay: false,
                onion: Some(hops@),
                arq: ArqView { max_fragment: clamped_cap(false, hops@.len()), ..old(self)@.arq },
                ..old(self)@
            }),
    {
        if hops.len() == 0 {
            return Err(SessionError::EmptyOnion);
        }
        self.next_hop = hops[0].addr;
        self.peer = dest;
        self.onion = Some(hops);
        self.via_relay = false;
        self.fit_fragments_to_path();
        Ok(())
    }

    /// Whether the Noise transport is active.
    pub fn is_transport(&self) -> (b: bool)
        ensures
            b == self@.transport,
    {
        self.noise.is_transport()
    }

    /// Remote static key after the handshake.
    pub fn remote_static(&self) -> (r: Result<[u8; 32], SessionError>)
        ensures
            !self@.handshaking && !self@.transport ==> r == Err::<[u8; 32], SessionError>(SessionError::Noise(NoiseError::BadState)),
            r matches Err(e) ==> e == SessionError::Noise(NoiseError::BadState),
    {
        match self.noise.remote_static() {
            Ok(k) => Ok(k),
            Err(e) => Err(SessionError::Noise(e)),
        }
    }

    /// Drop the next `n` outbound sealed DATA datagrams (loss tests).
    pub fn debug_drop_data(&mut self, n: u32)
        ensures
            final(self)@ == (SessionView { drop_data: n, ..old(self)@ }),
            final(self).wf() == old(self).wf(),
    {
        self.drop_data = n;
    }

    /// Override the retransmit timeout (milliseconds).
    pub fn set_retx_timeout(&mut self, ms: u64)
        requires
            old(self).wf(),
        ensures
            final(self).wf(),
            final(self)@ == (SessionView { arq: ArqView { retx: ms, ..old(self)@.arq }, ..old(self)@ }),
    {
        self.arq.set_retx(ms);
    }

    /// Number of queued frames not yet acknowledged.
    pub fn unacked_len(&self) -> (n: usize)
        ensures
            n == self@.arq.unacked.dom().len(),
    {
        self.arq.unacked_len()
    }

    /// Pop a fully reassembled application message.
    pub fn pop_delivered(&mut self) -> (m: Option<Vec<u8>>)
        requires
            old(self).wf(),
        ensures
            final(self).wf(),
            old(self)@.arq.delivered.len() == 0 ==> m is None && final(self)@ == old(self)@,
            old(self)@.arq.delivered.len() > 0 ==> (m matches Some(v) && v@ == old(self)@.arq.delivered[0] && final(self)@ == (SessionView {
                arq: ArqView { delivered: old(self)@.arq.delivered.drop_first(), ..old(self)@.arq },
                ..old(self)@
            })),
    {
        self.arq.pop_delivered()
    }

    /// Queue an application message for sending (fragmented for the path).
    pub fn enqueue(&mut self, plaintext: &[u8]) -> (r: Result<(), SessionError>)
        requires
            old(self).wf(),
        ensures
            final(self).wf(),
            final(self)@ == (SessionView { arq: final(self)@.arq, ..old(self)@ }),
            enqueue_step(old(self)@.arq, final(self)@.arq, plaintext@, match r {
                Ok(_) => Ok::<(), ArqError>(()),
                Err(_) => Err::<(), ArqError>(ArqError::TooLarge),
            }),
            r matches Err(e) ==> e == SessionError::Arq(ArqError::TooLarge),
    {
        match self.arq.enqueue(plaintext) {
            Ok(()) => Ok(()),
            Err(e) => Err(SessionError::Arq(e)),
        }
    }

    /// Seal an inner frame and wrap it for the path, unless it is one of
    /// the datagrams to be dropped.
    fn seal_data(&mut self, inner: &[u8]) -> (r: Result<Option<Vec<u8>>, SessionError>)
        requires
            old(self).wf(),
        ensures
            final(self).wf(),
            old(self)@.drop_data > 0 ==> r == Ok::<Option<Vec<u8>>, SessionError>(None) && final(self)@ == (SessionView {
                drop_data: (old(self)@.drop_data - 1) as u32,
                ..old(self)@
            }),
            old(self)@.drop_data == 0 ==> final(self)@ == old(self)@ && (r is Ok ==> (r matches Ok(Some(w)) && carries_sealed(
                route(final(self)@),
                inner@.len(),
                w@,
            ))),
            r matches Err(e) ==> e is Noise || e is Packet,
            r matches Err(SessionError::Packet(e)) ==> frame_check(old(self)@, inner@) == Err::<(), PacketError>(e),
            r matches Err(SessionError::Noise(e)) ==> e is Crypto || (e is BadState && !old(self)@.transport),
            old(self)@.drop_data == 0 && !old(self)@.transport ==> r == Err::<Option<Vec<u8>>, SessionError>(SessionError::Noise(NoiseError::BadState)),
            old(self)@.drop_data == 0 && old(self)@.transport && frame_check(old(self)@, inner@) is Ok ==> r is Ok
                || r matches Err(SessionError::Noise(NoiseError::Crypto(_))),
    {
        if self.drop_data > 0 {
            self.drop_data = self.drop_data - 1;
            return Ok(None);
        }
        let mut buf: Vec<u8> = vec![0u8; MAX_DATAGRAM];
        let n = match self.noise.seal(inner, buf.as_mut_slice()) {
            Ok(n) => n,
            Err(e) => return Err(SessionError::Noise(e)),
        };
        let sealed = slice_subrange(buf.as_slice(), 0, n);
        match self.send_wire(PacketType::Data, sealed) {
            Ok(w) => {
                assert(carried(route(self@), datagram(PacketType::Data, sealed@), w@));
                Ok(Some(w))
            },
            Err(e) => Err(e),
        }
    }

    /// Seal `frames` in order onto `out`.
    fn seal_all(&mut self, frames: &Vec<Vec<u8>>, out: &mut Vec<Vec<u8>>) -> (r: Result<(), SessionError>)
        requires
            old(self).wf(),
        ensures
            final(self).wf(),
            final(self)@ == (SessionView { drop_data: final(self)@.drop_data, ..old(self)@ }),
            final(out)@.len() >= old(out)@.len(),
            final(out)@.subrange(0, old(out)@.len() as int) == old(out)@,
            r is Ok ==> sealed_batch(
                route(final(self)@),
                frames_view(frames@),
                old(self)@.drop_data,
                final(out)@.subrange(old(out)@.len() as int, final(out)@.len() as int),
                final(self)@.drop_data,
            ),
            r matches Err(e) ==> e is Noise || e is Packet,
            r matches Err(SessionError::Packet(e)) ==> batch_refuses(old(self)@, frames_view(frames@), old(self)@.drop_data, e),
            r matches Err(SessionError::Noise(e)) ==> e is Crypto || (e is BadState && !old(self)@.transport),
            old(self)@.transport && batch_fits(old(self)@, frames_view(frames@), old(self)@.drop_data) ==> r is Ok
                || r matches Err(SessionError::Noise(NoiseError::Crypto(_))),
    {
        let ghost o = self@;
        let ghost out0 = out@;
        let ghost fv = frames_view(frames@);
        let mut i: usize = 0;
        while i < frames.len()
            invariant
                self.wf(),
                o == old(self)@,
                out0 == old(out)@,
                self@ == (SessionView { drop_data: self@.drop_data, ..o }),
                i <= frames@.len(),
                fv == frames_view(frames@),
                out@.len() >= out0.len(),
                out@.subrange(0, out0.len() as int) == out0,
                sealed_batch(route(self@), fv.take(i as int), o.drop_data, out@.subrange(out0.len() as int, out@.len() as int), self@.drop_data),
            decreases frames@.len() - i,
        {
            let ghost before = out@;
            let ghost d = self@.drop_data;
            let ghost sv = self@;
            match self.seal_data(frames[i].as_slice()) {
                Ok(Some(w)) => {
                    out.push(w);
                },
                Ok(None) => {},
                Err(e) => {
                    proof {
                        assert(out@.subrange(0, out0.len() as int) == out0);
                        assert(fv[i as int] == frames@[i as int]@);
                        assert(frame_check(sv, fv[i as int]) == frame_check(o, fv[i as int]));
                        assert(d == 0);
                        assert(o.drop_data <= i);
                        if let SessionError::Packet(pe) = e {
                            assert(frame_check(o, fv[i as int]) == Err::<(), PacketError>(pe));
                            assert(batch_refuses(o, fv, o.drop_data, pe));
                        }
                    }
                    return Err(e);
                },
            }
            proof {
                let t0 = fv.take(i as int);
                let t1 = fv.take(i + 1);
                assert(t1 =~= t0.push(frames@[i as int]@));
                let added = out@.subrange(out0.len() as int, out@.len() as int);
                let added0 = before.subrange(out0.len() as int, before.len() as int);
                assert(out@.subrange(0, out0.len() as int) =~= out0);
                if d > 0 {
                    assert(added =~= added0);
                } else {
                    assert(added =~= added0.push(out@[out@.len() - 1]));
                    let k: nat = if o.drop_data < t0.len() { o.drop_data as nat } else { t0.len() };
                    assert forall|j: int| 0 <= j < added.len() implies carries_sealed(route(self@), t1[k + j].len(), #[trigger] added[j]@) by {
                        if j < added0.len() {
                            assert(added[j] == added0[j]);
                            assert(t1[k + j] == t0[k + j]);
                        }
                    }
                }
            }
            i = i + 1;
        }
        proof {
            assert(fv.take(i as int) =~= fv);
        }
        Ok(())
    }

    /// Everything due to go out at `now` (milliseconds): first sends of the
    /// queued frames that fit the window, then retransmissions, each sealed
    /// and wrapped for the path. The wires come back with what stopped the
    /// pass, if anything; those before it are to be sent all the same. In
    /// transport mode, with every frame fitting the path, only a frame out
    /// of attempts or a refusal by the Noise cipher can stop it.
    pub fn flush(&mut self, now: u64) -> (res: (Vec<Vec<u8>>, Result<(), SessionError>))
        requires
            old(self).wf(),
        ensures
            final(self).wf(),
            final(self)@ == (SessionView { arq: final(self)@.arq, drop_data: final(self)@.drop_data, ..old(self)@ }),
            res.1 is Ok ==> exists|rl: Seq<Seq<u8>>|
                #[trigger] retransmit_step(new_sends_state(old(self)@.arq, now), final(self)@.arq, now, Ok::<Seq<Seq<u8>>, ArqGiveUp>(rl))
                    && sealed_batch(route(final(self)@), new_sends(old(self)@.arq) + rl, old(self)@.drop_data, res.0@, final(self)@.drop_data),
            res.1 matches Err(SessionError::GiveUp(g)) ==> retransmit_step(
                new_sends_state(old(self)@.arq, now),
                final(self)@.arq,
                now,
                Err::<Seq<Seq<u8>>, ArqGiveUp>(g),
            ) && sealed_batch(route(final(self)@), new_sends(old(self)@.arq), old(self)@.drop_data, res.0@, final(self)@.drop_data),
            res.1 matches Err(e) ==> e is GiveUp || e is Noise || e is Packet,
            res.1 matches Err(SessionError::Packet(e)) ==> batch_refuses(old(self)@, flush_frames(old(self)@.arq, now), old(self)@.drop_data, e),
            (res.1 matches Err(e) && (e is Noise || e is Packet)) ==> final(self)@.arq == new_sends_state(old(self)@.arq, now)
                || exists|rl: Seq<Seq<u8>>| #[trigger] retransmit_step(new_sends_state(old(self)@.arq, now), final(self)@.arq, now, Ok::<Seq<Seq<u8>>, ArqGiveUp>(rl)),
            res.1 matches Err(SessionError::Noise(e)) ==> e is Crypto || (e is BadState && !old(self)@.transport),
            old(self)@.transport && batch_fits(old(self)@, flush_frames(old(self)@.arq, now), old(self)@.drop_data) ==> match retransmit_result(
                new_sends_state(old(self)@.arq, now),
                now,
            ) {
                Ok(_) => res.1 is Ok || res.1 matches Err(SessionError::Noise(NoiseError::Crypto(_))),
                Err(g) => res.1 == Err::<(), SessionError>(SessionError::GiveUp(g)) || res.1 matches Err(
                    SessionError::Noise(NoiseError::Crypto(_)),
                ),
            },
    {
        let ghost o = self@;
        let ghost rr = retransmit_result(new_sends_state(o.arq, now), now);
        let ghost ff = flush_frames(o.arq, now);
        let mut out: Vec<Vec<u8>> = Vec::new();
        let news = self.arq.take_new_sends(now);
        let ghost mid = self@;
        let ghost nv = frames_view(news@);
        proof {
            assert(nv == new_sends(o.arq));
            match rr {
                Ok(rl0) => {
                    lemma_batch_split(o, nv, rl0, o.drop_data);
                },
                Err(_) => {
                    assert(ff == nv);
                },
            }
            lemma_batch_path(o, mid, nv, o.drop_data);
        }
        match self.seal_all(&news, &mut out) {
            Ok(()) => {},
            Err(e) => {
                proof {
                    if let SessionError::Packet(pe) = e {
                        assert(batch_refuses(mid, nv, o.drop_data, pe));
                        assert(batch_refuses(o, nv, o.drop_data, pe));
                    }
                }
                return (out, Err(e));
            },
        }
        let ghost d1 = self@.drop_data;
        let ghost out1 = out@;
        proof {
            assert(out@.subrange(0, 0) =~= Seq::<Vec<u8>>::empty());
            assert(out@.subrange(0, out@.len() as int) =~= out@);
        }
        let ghost mid2 = self@;
        let retrx = match self.arq.take_retransmits(now) {
            Ok(v) => v,
            Err(g) => {
                proof {
                    assert(out@.subrange(0, out@.len() as int) =~= out@);
                    lemma_retransmit_result(new_sends_state(o.arq, now), self@.arq, now, Err::<Seq<Seq<u8>>, ArqGiveUp>(g));
                }
                return (out, Err(SessionError::GiveUp(g)));
            },
        };
        let ghost rl = frames_view(retrx@);
        let ghost mid3 = self@;
        proof {
            lemma_retransmit_result(new_sends_state(o.arq, now), self@.arq, now, Ok::<Seq<Seq<u8>>, ArqGiveUp>(rl));
            assert(ff == nv + rl);
            assert(d1 == drops_left(o.drop_data, nv.len()));
            lemma_batch_split(o, nv, rl, o.drop_data);
            lemma_batch_path(o, mid3, rl, d1);
        }
        match self.seal_all(&retrx, &mut out) {
            Ok(()) => {},
            Err(e) => {
                proof {
                    if let SessionError::Packet(pe) = e {
                        assert(batch_refuses(mid3, rl, d1, pe));
                        assert(batch_refuses(o, rl, d1, pe));
                        assert(batch_refuses(o, nv + rl, o.drop_data, pe));
                    }
                }
                return (out, Err(e));
            },
        }
        proof {
            let fa = new_sends(o.arq);
            let all = fa + rl;
            let k1: nat = if o.drop_data < fa.len() { o.drop_data as nat } else { fa.len() };
            let added = out@.subrange(out1.len() as int, out@.len() as int);
            assert(out@.subrange(0, out1.len() as int) == out1);
            let k: nat = if o.drop_data < all.len() { o.drop_data as nat } else { all.len() };
            let k2: nat = if d1 < rl.len() { d1 as nat } else { rl.len() };
            assert(k == k1 + k2);
            assert forall|j: int| 0 <= j < out@.len() implies carries_sealed(route(self@), all[k + j].len(), #[trigger] out@[j]@) by {
                if j < out1.len() {
                    assert(out@[j] == out1[j]);
                    assert(all[k + j] == fa[k1 + j]);
                } else {
                    assert(out@[j] == added[j - out1.len()]);
                    assert(all[k + j] == rl[k2 + (j - out1.len())]);
                }
            }
            assert(retransmit_step(new_sends_state(o.arq, now), self@.arq, now, Ok::<Seq<Seq<u8>>, ArqGiveUp>(rl)));
        }
        (out, Ok(()))
    }

    /// Take in an arriving datagram (already known to come from the next
    /// hop): a Data datagram is opened and handed to the ARQ, and any ACK it
    /// owes is returned sealed and wrapped for the path; other types are
    /// refused.
    pub fn handle_incoming(&mut self, raw: &[u8]) -> (r: Result<Option<Vec<u8>>, SessionError>)
        requires
            old(self).wf(),
        ensures
            final(self).wf(),
            match incoming_decoding(old(self)@.via_relay, raw@) {
                Err(e) => r == Err::<Option<Vec<u8>>, SessionError>(e) && final(self)@ == old(self)@,
                Ok((ty, body, other)) => {
                    let o = SessionView {
                        peer: match other {
                            Some(q) => q,
                            None => old(self)@.peer,
                        },
                        ..old(self)@
                    };
                    if ty != PacketType::Data {
                        r == Err::<Option<Vec<u8>>, SessionError>(SessionError::UnexpectedType) && final(self)@ == o
                    } else {
                        took_in(o, final(self)@, body.len(), r)
                    }
                },
            },
    {
        let (ty, body, other) = match decode_incoming(self.via_relay, raw) {
            Ok(v) => v,
            Err(e) => return Err(e),
        };
        if let Some(o) = other {
            self.peer = o;
        }
        if ty != PacketType::Data {
            return Err(SessionError::UnexpectedType);
        }
        let ghost o = self@;
        let mut out: Vec<u8> = vec![0u8; body.len()];
        let n = match self.noise.open(body.as_slice(), out.as_mut_slice()) {
            Ok(n) => n,
            Err(_) => return Ok(None),
        };
        out.truncate(n);
        let ir = self.arq.ingest(out.as_slice());
        let ghost irv = match ir {
            Ok(Some(a)) => Ok::<Option<Seq<u8>>, ArqError>(Some(a@)),
            Ok(None) => Ok::<Option<Seq<u8>>, ArqError>(None),
            Err(e) => Err::<Option<Seq<u8>>, ArqError>(e),
        };
        let ghost n1 = self@;
        proof {
            assert(ingest_step(o.arq, n1.arq, out@, irv));
        }
        let r = match ir {
            Err(e) => Err(SessionError::Arq(e)),
            Ok(None) => Ok(None),
            Ok(Some(ack)) => {
                let mut buf: Vec<u8> = vec![0u8; MAX_DATAGRAM];
                match self.noise.seal(&ack, buf.as_mut_slice()) {
                    Ok(m) => {
                        let sealed = slice_subrange(buf.as_slice(), 0, m);
                        match self.send_wire(PacketType::Data, sealed) {
                            Ok(w) => {
                                assert(carried(route(self@), datagram(PacketType::Data, sealed@), w@));
                                Ok(Some(w))
                            },
                            Err(e) => Err(e),
                        }
                    },
                    Err(e) => Err(SessionError::Noise(e)),
                }
            },
        };
        proof {
            assert(self@ == n1);
            assert(ingest_step(o.arq, self@.arq, out@, irv));
        }
        r
    }

    /// Take in a datagram received from `from`: ignored unless it comes from
    /// the next hop, else as [`handle_incoming`](Self::handle_incoming).
    pub fn on_datagram(&mut self, raw: &[u8], from: SockAddr) -> (r: Result<Option<Vec<u8>>, SessionError>)
        requires
            old(self).wf(),
        ensures
            final(self).wf(),
            from != old(self)@.next_hop ==> r == Ok::<Option<Vec<u8>>, SessionError>(None) && final(self)@ == old(self)@,
            from == old(self)@.next_hop ==> match incoming_decoding(old(self)@.via_relay, raw@) {
                Err(e) => r == Err::<Option<Vec<u8>>, SessionError>(e) && final(self)@ == old(self)@,
                Ok((ty, body, other)) => {
                    let o = SessionView {
                        peer: match other {
                            Some(q) => q,
                            None => old(self)@.peer,
                        },
                        ..old(self)@
                    };
                    if ty != PacketType::Data {
                        r == Err::<Option<Vec<u8>>, SessionError>(SessionError::UnexpectedType) && final(self)@ == o
                    } else {
                        took_in(o, final(self)@, body.len(), r)
                    }
                },
            },
    {
        if from != self.next_hop {
            return Ok(None);
        }
        self.handle_incoming(raw)
    }

    /// Enable cover datagrams on idle, the first one due a random interval
    /// of the mode after `now` (milliseconds).
    pub fn set_cover(&mut self, mode: CoverMode, now: u64)
        requires
            old(self).wf(),
            now + 280 <= u64::MAX,
        ensures
            final(self).wf(),
            final(self)@ == (SessionView { cover: mode, next_cover_at: final(self)@.next_cover_at, ..old(self)@ }),
            cover_scheduled(final(self)@.next_cover_at, now, mode),
    {
        self.cover = mode;
        let range = mode.interval_range();
        let r = os_random_u64();
        self.next_cover_at = schedule_next_cover(now, range, r);
        assert(cover_deadline(now, cover_interval(mode), r) == self.next_cover_at);
    }

    /// A cover datagram, when cover is on and one is due at `now`
    /// (milliseconds): random bytes of a random cover length, never larger
    /// than the largest real sealed DATA body on the path, carried as Data;
    /// the next one is scheduled a random interval later. Only the path's
    /// own size or address check can refuse it, which never happens on the
    /// direct path or through a relay to an IPv4 peer.
    pub fn maybe_cover(&mut self, now: u64) -> (r: Result<Option<Vec<u8>>, SessionError>)
        requires
            old(self).wf(),
            now + 280 <= u64::MAX,
        ensures
            final(self).wf(),
            cover_interval(old(self)@.cover) is None || now < old(self)@.next_cover_at ==> r == Ok::<Option<Vec<u8>>, SessionError>(None)
                && final(self)@ == old(self)@,
            cover_interval(old(self)@.cover) is Some && now >= old(self)@.next_cover_at ==> final(self)@ == (SessionView {
                next_cover_at: final(self)@.next_cover_at,
                ..old(self)@
            }) && cover_scheduled(final(self)@.next_cover_at, now, old(self)@.cover) && (r is Ok ==> (r matches Ok(Some(w)) && cover_sent(
                final(self)@,
                w@,
            ))) && (exists|r32: u32| #[trigger] cover_outcome(old(self)@, r32, r)),
            cover_interval(old(self)@.cover) is Some && now >= old(self)@.next_cover_at && old(self)@.onion is None
                && (!old(self)@.via_relay || old(self)@.peer is V4) ==> r is Ok,
            r matches Err(e) ==> e is Packet,
    {
        let ghost o = self@;
        let range = self.cover.interval_range();
        if range.is_none() {
            return Ok(None);
        }
        if now < self.next_cover_at {
            return Ok(None);
        }
        let r64 = os_random_u64();
        self.next_cover_at = schedule_next_cover(now, range, r64);
        assert(cover_deadline(now, cover_interval(self.cover), r64) == self.next_cover_at);
        let largest_real = DATA_HDR_LEN + NOISE_TAG_LEN + self.arq.max_fragment();
        let (min, max) = self.cover.payload_len_range();
        let r32 = os_random_u32();
        let n = cover_payload_len(min, max, largest_real, r32);
        let body = random_bytes(n);
        proof {
            assert(cover_body_len(o, r32) == n);
            if o.onion is None && (!o.via_relay || o.peer is V4) {
                lemma_cover_len_bound(min as nat, max as nat, largest_real as nat, r32);
            }
        }
        match self.send_wire(PacketType::Data, body.as_slice()) {
            Ok(w) => {
                assert(cover_body(self@, r32, body@));
                assert(carried(route(self@), datagram(PacketType::Data, body@), w@));
                assert(route(o) == route(self@));
                assert(wire_check(o, n as nat) == wire_check(self@, n as nat));
                assert(carried(route(o), datagram(PacketType::Data, body@), w@));
                assert(body@.len() == cover_body_len(o, r32));
                assert(sent_as(self@, PacketType::Data, body@, Ok::<Vec<u8>, SessionError>(w)));
                assert(wire_check(self@, n as nat) is Ok);
                proof { lemma_cover_sent_outcome(o, r32, body@, w); }
                Ok(Some(w))
            },
            Err(e) => {
                assert(wire_check(o, n as nat) == wire_check(self@, n as nat));
                assert(cover_outcome(o, r32, Err::<Option<Vec<u8>>, SessionError>(e)));
                Err(e)
            },
        }
    }

    /// The wire form of a `ty` datagram with `body` on the session's path.
    fn send_wire(&self, ty: PacketType, body: &[u8]) -> (r: Result<Vec<u8>, SessionError>)
        requires
            self.wf(),
        ensures
            sent_as(self@, ty, body@, r),
    {
        let inner_dg = match encode_datagram(ty, body) {
            Ok(d) => d,
            Err(e) => return Err(SessionError::Packet(e)),
        };
        match &self.onion {
            Some(hops) => match wrap_route(hops.as_slice(), self.peer, inner_dg.as_slice()) {
                Ok(w) => Ok(w),
                Err(e) => Err(SessionError::Packet(e)),
            },
            None => if self.via_relay {
                proof {
                    if let SockAddr::V4 { ip, port } = self.peer {
                        crate::network::addr::lemma_v4_roundtrip(ip, port, Seq::<u8>::empty());
                    }
                }
                let fb = match encode_forward_body(self.peer, inner_dg.as_slice()) {
                    Ok(b) => b,
                    Err(e) => return Err(SessionError::Packet(e)),
                };
                match encode_datagram(PacketType::Forward, fb.as_slice()) {
                    Ok(w) => Ok(w),
                    Err(e) => Err(SessionError::Packet(e)),
                }
            } else {
                Ok(inner_dg)
            },
        }
    }
}

} // verus!
