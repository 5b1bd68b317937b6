//! Socket addresses as the wire formats carry them.

use vstd::prelude::*;

use crate::bytes::{be_bytes, be_value, lemma_be_roundtrip, lemma_be_value_bound, lemma_pow256_le, pow256, push_be, read_be};

verus! {

/// A UDP endpoint: an IPv4 or IPv6 address (as the big-endian number its
/// octets spell) and a port.
#[derive(Clone, Copy, Debug, PartialEq, Eq, Structural)]
pub enum SockAddr {
    /// IPv4 address and port.
    V4 { ip: u32, port: u16 },
    /// IPv6 address and port.
    V6 { ip6: u128, port6: u16 },
}

/// The 6-byte wire form of an IPv4 endpoint: address octets, then the port,
/// both big-endian.
pub open spec fn v4_wire(ip: u32, port: u16) -> Seq<u8> {
    be_bytes(ip as nat, 4) + be_bytes(port as nat, 2)
}

/// The IPv4 endpoint that the first 6 wire bytes of `b` name.
pub open spec fn v4_of_wire(b: Seq<u8>) -> SockAddr
    recommends
        b.len() >= 6,
{
    SockAddr::V4 {
        ip: be_value(b.subrange(0, 4)) as u32,
        port: be_value(b.subrange(4, 6)) as u16,
    }
}

/// Append the 6-byte wire form of an IPv4 endpoint.
pub fn push_v4(out: &mut Vec<u8>, ip: u32, port: u16)
    ensures
        final(out)@ == old(out)@ + v4_wire(ip, port),
{
    push_be(out, ip as u64, 4);
    push_be(out, port as u64, 2);
    assert(final(out)@ =~= old(out)@ + v4_wire(ip, port));
}

/// Read the IPv4 endpoint at `b[start..start + 6]`.
pub fn read_v4(b: &[u8], start: usize) -> (a: SockAddr)
    requires
        start + 6 <= b@.len(),
    ensures
        a == v4_of_wire(b@.subrange(start as int, start + 6)),
{
    let _len = b.len();
    let ip = read_be(b, start, 4);
    let port = read_be(b, start + 4, 2);
    proof {
        lemma_be_value_bound(b@.subrange(start as int, start + 4));
        lemma_be_value_bound(b@.subrange(start + 4, start + 6));
        reveal_with_fuel(pow256, 5);
        let w = b@.subrange(start as int, start + 6);
        assert(w.subrange(0, 4) =~= b@.subrange(start as int, start + 4));
        assert(w.subrange(4, 6) =~= b@.subrange(start + 4, start + 6));
    }
    SockAddr::V4 { ip: ip as u32, port: port as u16 }
}

/// Reading back the wire form of an IPv4 endpoint gives the endpoint.
pub proof fn lemma_v4_roundtrip(ip: u32, port: u16, rest: Seq<u8>)
    ensures
        v4_wire(ip, port).len() == 6,
        v4_of_wire(v4_wire(ip, port) + rest) == (SockAddr::V4 { ip, port }),
{
    reveal_with_fuel(pow256, 5);
    lemma_be_roundtrip(ip as nat, 4);
    lemma_be_roundtrip(port as nat, 2);
    let w = v4_wire(ip, port) + rest;
    assert(w.subrange(0, 4) =~= be_bytes(ip as nat, 4));
    assert(w.subrange(4, 6) =~= be_bytes(port as nat, 2));
}

} // verus!
