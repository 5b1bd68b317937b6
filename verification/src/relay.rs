//! UDP packet forwarder with a bounded replay window.
//!
//! Does not decrypt. Does not keep circuits. Sees destination addresses
//! (cleartext forward header). Not an anonymity hop.

use vstd::prelude::*;

use crate::network::addr::SockAddr;
use crate::network::forward::{decode_forward_body, encode_forward_body, forward_body, FORWARD_BODY_OVERHEAD};
use crate::network::addr::v4_of_wire;
use crate::network::packet::{datagram, decode_outer, encode_outer, outer_decoding, PacketType};
use crate::network::replay::{accept_step, lemma_replay_refused, replay_key, since, ReplayCache, ReplayView, DEFAULT_CAP, DEFAULT_TTL_MS};
use crate::{MAX_DATAGRAM, OUTER_HEADER_LEN};

verus! {

/// What a relay would forward from `dgram`, replay aside: the destination
/// and inner datagram of a well-formed Forward datagram.
pub open spec fn relay_candidate(dgram: Seq<u8>) -> Option<(SockAddr, Seq<u8>)> {
    match outer_decoding(dgram) {
        Ok((ty, _, body)) => if ty != PacketType::Forward || body.len() < FORWARD_BODY_OVERHEAD {
            None
        } else {
            Some((v4_of_wire(body), body.subrange(FORWARD_BODY_OVERHEAD as int, body.len() as int)))
        },
        Err(_) => None,
    }
}

/// After the replay check of `inner` at `now` took the cache from `o` to
/// `n`, the relay sends to `dest` a Forward datagram whose destination field
/// is rewritten to the sender `from` (the return path), exactly when the
/// inner datagram was fresh, `from` is IPv4 and the result fits.
pub open spec fn relay_outcome(
    o: ReplayView,
    n: ReplayView,
    dest: SockAddr,
    inner: Seq<u8>,
    from: SockAddr,
    now: u64,
    out: Option<(SockAddr, Vec<u8>)>,
) -> bool {
    exists|fresh: bool|
        #[trigger] accept_step(o, n, inner, now, fresh)
            && (out is Some <==> (fresh && from is V4 && OUTER_HEADER_LEN + FORWARD_BODY_OVERHEAD + inner.len() <= MAX_DATAGRAM))
            && (out matches Some(x) ==> (x.0 == dest && (from matches SockAddr::V4 { ip, port }
                && x.1@ == datagram(PacketType::Forward, forward_body(ip, port, inner)))))
}

/// The first forward of an inner datagram, from a relay whose cache does not
/// hold it, is sent to its destination (when the sender is IPv4 and the
/// result fits); the same inner datagram coming again within the TTL is
/// dropped, from whichever sender.
pub proof fn lemma_relay_forwards_once(
    a: ReplayView,
    b: ReplayView,
    c: ReplayView,
    dest: SockAddr,
    inner: Seq<u8>,
    from1: SockAddr,
    from2: SockAddr,
    t1: u64,
    t2: u64,
    out1: Option<(SockAddr, Vec<u8>)>,
    out2: Option<(SockAddr, Vec<u8>)>,
)
    requires
        !a.seen.contains_key(replay_key(inner)),
        relay_outcome(a, b, dest, inner, from1, t1, out1),
        relay_outcome(b, c, dest, inner, from2, t2, out2),
        since(t2, t1) < a.ttl,
    ensures
        (from1 is V4 && OUTER_HEADER_LEN + FORWARD_BODY_OVERHEAD + inner.len() <= MAX_DATAGRAM) ==> out1 is Some,
        out2 is None,
{
    let f1 = choose|fresh: bool| #[trigger] accept_step(a, b, inner, t1, fresh)
        && (out1 is Some <==> (fresh && from1 is V4 && OUTER_HEADER_LEN + FORWARD_BODY_OVERHEAD + inner.len() <= MAX_DATAGRAM))
        && (out1 matches Some(x) ==> (x.0 == dest && (from1 matches SockAddr::V4 { ip, port }
            && x.1@ == datagram(PacketType::Forward, forward_body(ip, port, inner)))));
    let f2 = choose|fresh: bool| #[trigger] accept_step(b, c, inner, t2, fresh)
        && (out2 is Some <==> (fresh && from2 is V4 && OUTER_HEADER_LEN + FORWARD_BODY_OVERHEAD + inner.len() <= MAX_DATAGRAM))
        && (out2 matches Some(x) ==> (x.0 == dest && (from2 matches SockAddr::V4 { ip, port }
            && x.1@ == datagram(PacketType::Forward, forward_body(ip, port, inner)))));
    assert(f1);
    lemma_replay_refused(a, b, c, inner, t1, t2, f1, f2);
}

/// Forwarding state of a relay: its replay cache.
pub struct Relay {
    replay: ReplayCache,
}

impl Relay {
    /// Well-formed replay cache.
    pub closed spec fn wf(&self) -> bool {
        self.replay.wf()
    }

    /// The relay's replay cache.
    pub closed spec fn cache(&self) -> ReplayCache {
        self.replay
    }

    /// Relay state with an empty replay cache of the default TTL and
    /// capacity.
    pub fn new() -> (r: Self)
        ensures
            r.wf(),
            r.cache()@ == (ReplayView { seen: Map::empty(), ttl: DEFAULT_TTL_MS, cap: DEFAULT_CAP as nat, calls_since_sweep: 0 }),
    {
        Self { replay: ReplayCache::new() }
    }

    /// Decide what to do with one datagram received from `from` at `now`
    /// (ms): a fresh Forward datagram is sent on to its destination with the
    /// destination field rewritten to the sender; anything else is dropped.
    pub fn on_datagram(&mut self, dgram: &[u8], from: SockAddr, now: u64) -> (out: Option<(SockAddr, Vec<u8>)>)
        requires
            old(self).wf(),
        ensures
            final(self).wf(),
            match relay_candidate(dgram@) {
                None => out is None && final(self).cache()@ == old(self).cache()@,
                Some((dest, inner)) => relay_outcome(old(self).cache()@, final(self).cache()@, dest, inner, from, now, out),
            },
    {
        let (ty, _flags, body) = match decode_outer(dgram) {
            Ok(v) => v,
            Err(_) => return None,
        };
        if ty != PacketType::Forward {
            return None;
        }
        let (dest, inner) = match decode_forward_body(body) {
            Ok(v) => v,
            Err(_) => return None,
        };
        let fresh = self.replay.accept(inner, now);
        if !fresh {
            assert(relay_outcome(old(self).cache()@, self.cache()@, dest, inner@, from, now, None));
            return None;
        }
        let out_body = match encode_forward_body(from, inner) {
            Ok(v) => v,
            Err(_) => {
                assert(relay_outcome(old(self).cache()@, self.cache()@, dest, inner@, from, now, None));
                return None;
            },
        };
        let hdr = encode_outer(PacketType::Forward, 0);
        let mut pkt: Vec<u8> = Vec::new();
        pkt.extend_from_slice(&hdr);
        pkt.extend_from_slice(out_body.as_slice());
        proof {
            assert(pkt@ =~= datagram(PacketType::Forward, out_body@));
            assert(relay_outcome(old(self).cache()@, self.cache()@, dest, inner@, from, now, Some((dest, pkt))));
        }
        Some((dest, pkt))
    }
}

} // verus!
