//! Forward envelopes, the relay, onion layers and the onion relay.

use ppose::crypto::keys::IdentitySecret;
use ppose::network::addr::SockAddr;
use ppose::network::forward::{decode_forward_body, encode_forward_body};
use ppose::network::packet::{decode_outer, encode_datagram, PacketError, PacketType};
use ppose::onion::{peel_layer, wrap_route, OnionHop, OnionRelay};
use ppose::relay::Relay;

fn v4(a: u8, b: u8, c: u8, d: u8, port: u16) -> SockAddr {
    SockAddr::V4 { ip: u32::from_be_bytes([a, b, c, d]), port }
}

#[test]
fn wrap_peel_one_hop() {
    let hop = IdentitySecret::generate();
    let dest = v4(127, 0, 0, 1, 9);
    let inner = encode_datagram(PacketType::Data, b"xyz").unwrap();
    let hops = [OnionHop { addr: v4(127, 0, 0, 1, 8), pk: hop.public() }];
    let wire = wrap_route(&hops, dest, &inner).unwrap();
    let (ty, _, body) = decode_outer(&wire).unwrap();
    assert_eq!(ty, PacketType::Onion);
    let peeled = peel_layer(&hop, body).unwrap();
    assert_eq!(peeled.next, dest);
    assert_eq!(peeled.payload, inner);
}

#[test]
fn wrap_peel_two_hops() {
    let h1 = IdentitySecret::generate();
    let h2 = IdentitySecret::generate();
    let dest = v4(10, 0, 0, 3, 3000);
    let inner = encode_datagram(PacketType::Data, b"payload").unwrap();
    let hops = [
        OnionHop { addr: v4(10, 0, 0, 1, 1000), pk: h1.public() },
        OnionHop { addr: v4(10, 0, 0, 2, 2000), pk: h2.public() },
    ];
    let wire = wrap_route(&hops, dest, &inner).unwrap();
    assert_eq!(wire.len(), inner.len() + 2 * (78 + 8));
    let (_, _, b1) = decode_outer(&wire).unwrap();
    let p1 = peel_layer(&h1, b1).unwrap();
    assert_eq!(p1.next, v4(10, 0, 0, 2, 2000));
    let (ty, _, b2) = decode_outer(&p1.payload).unwrap();
    assert_eq!(ty, PacketType::Onion);
    assert!(peel_layer(&h1, b2).is_err());
    let p2 = peel_layer(&h2, b2).unwrap();
    assert_eq!(p2.next, dest);
    assert_eq!(p2.payload, inner);
}

#[test]
fn wrap_route_errors() {
    let hop = IdentitySecret::generate();
    let inner = encode_datagram(PacketType::Data, b"x").unwrap();
    assert_eq!(wrap_route(&[], v4(1, 2, 3, 4, 5), &inner), Err(PacketError::BadType));
    let hops = [OnionHop { addr: v4(1, 1, 1, 1, 1), pk: hop.public() }];
    let v6 = SockAddr::V6 { ip6: 1, port6: 1 };
    assert_eq!(wrap_route(&hops, v6, &inner), Err(PacketError::BadAddress));
    let big = vec![0u8; 1200 - 86 + 1];
    assert_eq!(wrap_route(&hops, v4(1, 2, 3, 4, 5), &big), Err(PacketError::TooLarge));
    assert!(peel_layer(&hop, &[0u8; 77]).is_err());
}

#[test]
fn forward_body_roundtrip() {
    let dest = v4(192, 168, 1, 2, 0x1234);
    let body = encode_forward_body(dest, b"inner").unwrap();
    assert_eq!(&body[..6], &[192, 168, 1, 2, 0x12, 0x34]);
    let (d, inner) = decode_forward_body(&body).unwrap();
    assert_eq!(d, dest);
    assert_eq!(inner, b"inner");
    assert_eq!(encode_forward_body(SockAddr::V6 { ip6: 0, port6: 0 }, b""), Err(PacketError::BadAddress));
    assert_eq!(encode_forward_body(dest, &[0u8; 1187]), Err(PacketError::TooLarge));
    assert_eq!(decode_forward_body(&[1, 2, 3]), Err(PacketError::Truncated));
}

#[test]
fn relay_forwards_with_return_address_once() {
    let mut relay = Relay::new();
    let alice = v4(127, 0, 0, 1, 4000);
    let bob = v4(127, 0, 0, 1, 5000);
    let inner = encode_datagram(PacketType::Data, b"hi").unwrap();
    let fb = encode_forward_body(bob, &inner).unwrap();
    let dg = encode_datagram(PacketType::Forward, &fb).unwrap();
    let (to, out) = relay.on_datagram(&dg, alice, 0).unwrap();
    assert_eq!(to, bob);
    let (ty, _, body) = decode_outer(&out).unwrap();
    assert_eq!(ty, PacketType::Forward);
    let (back, carried) = decode_forward_body(body).unwrap();
    assert_eq!(back, alice);
    assert_eq!(carried, inner);
    assert!(relay.on_datagram(&dg, alice, 10).is_none());
    assert!(relay.on_datagram(&inner, alice, 10).is_none());
    let v6 = SockAddr::V6 { ip6: 7, port6: 7 };
    let fb2 = encode_forward_body(bob, b"other").unwrap();
    let dg2 = encode_datagram(PacketType::Forward, &fb2).unwrap();
    assert!(relay.on_datagram(&dg2, v6, 10).is_none());
}

#[test]
fn onion_relay_peels_forwards_and_refuses_loops() {
    let hop_id = IdentitySecret::from_bytes([5; 32]);
    let own = v4(127, 0, 0, 1, 7000);
    let mut relay = OnionRelay::new(hop_id.clone());
    assert_eq!(relay.public(), hop_id.public());
    let dest = v4(127, 0, 0, 1, 7001);
    let inner = encode_datagram(PacketType::Data, b"secret").unwrap();
    let hops = [OnionHop { addr: own, pk: hop_id.public() }];
    let wire = wrap_route(&hops, dest, &inner).unwrap();
    let (next, payload) = relay.on_datagram(&wire, own, 0).unwrap();
    assert_eq!(next, dest);
    assert_eq!(payload, inner);
    assert!(relay.on_datagram(&wire, own, 1).is_none());
    let other = encode_datagram(PacketType::Data, b"looping").unwrap();
    let looped = wrap_route(&hops, own, &other).unwrap();
    assert!(relay.on_datagram(&looped, own, 2).is_none());
}

#[test]
fn wrap_unwrap() {
    let dest = v4(127, 0, 0, 1, 9000);
    let inner = b"\x4a\x7fhello";
    let body = encode_forward_body(dest, inner).unwrap();
    let (d, rest) = decode_forward_body(&body).unwrap();
    assert_eq!(d, dest);
    assert_eq!(rest, inner);
}
