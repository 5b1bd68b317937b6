//! IPv4 forward wrapper (cleartext dest — honest: this is not onion routing).
//!
//! Layout of TYPE=Forward body:
//! ```text
//! dst_ipv4 [4] | dst_port u16 BE | inner datagram (full PPoSE packet)
//! ```
//! The relay sees destination IP:port; a documented metadata leak, not an
//! anonymity feature.

use vstd::prelude::*;
use vstd::slice::slice_subrange;

use crate::network::addr::{lemma_v4_roundtrip, push_v4, read_v4, v4_of_wire, v4_wire, SockAddr};
use crate::network::packet::PacketError;
use crate::{MAX_DATAGRAM, OUTER_HEADER_LEN};

verus! {

/// Bytes added to an inner datagram when wrapping for a relay.
pub const FORWARD_BODY_OVERHEAD: usize = 6;

/// The forward body for an IPv4 destination.
pub open spec fn forward_body(ip: u32, port: u16, inner: Seq<u8>) -> Seq<u8> {
    v4_wire(ip, port) + inner
}

/// Encode forward body: who the relay should deliver to, plus the inner packet.
pub fn encode_forward_body(dest: SockAddr, inner: &[u8]) -> (r: Result<Vec<u8>, PacketError>)
    ensures
        match dest {
            SockAddr::V6 { .. } => r == Err::<Vec<u8>, PacketError>(PacketError::BadAddress),
            SockAddr::V4 { ip, port } => {
                if OUTER_HEADER_LEN + FORWARD_BODY_OVERHEAD + inner@.len() > MAX_DATAGRAM {
                    r == Err::<Vec<u8>, PacketError>(PacketError::TooLarge)
                } else {
                    r matches Ok(b) && b@ == forward_body(ip, port, inner@)
                }
            },
        },
{
    let (ip, port) = match dest {
        SockAddr::V4 { ip, port } => (ip, port),
        SockAddr::V6 { .. } => return Err(PacketError::BadAddress),
    };
    if inner.len() > MAX_DATAGRAM - OUTER_HEADER_LEN - FORWARD_BODY_OVERHEAD {
        return Err(PacketError::TooLarge);
    }
    let mut out: Vec<u8> = Vec::with_capacity(FORWARD_BODY_OVERHEAD + inner.len());
    push_v4(&mut out, ip, port);
    out.extend_from_slice(inner);
    assert(out@ =~= forward_body(ip, port, inner@));
    Ok(out)
}

/// Decode forward body.
pub fn decode_forward_body(body: &[u8]) -> (r: Result<(SockAddr, &[u8]), PacketError>)
    ensures
        body@.len() < FORWARD_BODY_OVERHEAD <==> r is Err,
        r matches Err(e) ==> e == PacketError::Truncated,
        r matches Ok((dest, inner)) ==> dest == v4_of_wire(body@) && inner@ == body@.subrange(
            FORWARD_BODY_OVERHEAD as int,
            body@.len() as int,
        ),
{
    if body.len() < FORWARD_BODY_OVERHEAD {
        return Err(PacketError::Truncated);
    }
    let dest = read_v4(body, 0);
    proof {
        assert(body@.subrange(0, 6).subrange(0, 4) =~= body@.subrange(0, 4));
        assert(body@.subrange(0, 6).subrange(4, 6) =~= body@.subrange(4, 6));
    }
    Ok((dest, slice_subrange(body, FORWARD_BODY_OVERHEAD, body.len())))
}

/// Unwrapping a forward body gives back the destination and the inner
/// datagram it was built from.
pub proof fn lemma_forward_roundtrip(ip: u32, port: u16, inner: Seq<u8>)
    ensures
        forward_body(ip, port, inner).len() >= FORWARD_BODY_OVERHEAD,
        v4_of_wire(forward_body(ip, port, inner)) == (SockAddr::V4 { ip, port }),
        forward_body(ip, port, inner).subrange(
            FORWARD_BODY_OVERHEAD as int,
            forward_body(ip, port, inner).len() as int,
        ) == inner,
{
    lemma_v4_roundtrip(ip, port, inner);
    let b = forward_body(ip, port, inner);
    assert(b.subrange(6, b.len() as int) =~= inner);
}

} // verus!
