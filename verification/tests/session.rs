//! Fragment sizing per path, and whole sessions driven in memory: every
//! datagram one side produces is handed to the other as if the network (and
//! any relay or onion hop on the path) had carried it.

use ppose::cover::CoverMode;
use ppose::crypto::keys::IdentitySecret;
use ppose::crypto::noise::{HandshakeRole, NoiseSession};
use ppose::network::addr::SockAddr;
use ppose::network::packet::{encode_datagram, PacketError, PacketType};
use ppose::onion::{wrap_route, OnionHop};
use ppose::relay::Relay;
use ppose::reliability::{encode_data, MAX_PAYLOAD};
use ppose::session::{max_fragment_for_path, Path, SessionError, UdpSession};

const NOISE_TAG_LEN: usize = 16;

fn v4(a: u8, b: u8, c: u8, d: u8, port: u16) -> SockAddr {
    SockAddr::V4 { ip: u32::from_be_bytes([a, b, c, d]), port }
}

fn transport_session() -> NoiseSession {
    let mut a = NoiseSession::new(HandshakeRole::Initiator, &IdentitySecret::generate()).unwrap();
    let mut b = NoiseSession::new(HandshakeRole::Responder, &IdentitySecret::generate()).unwrap();
    let (mut buf, mut tmp) = ([0u8; 1024], [0u8; 1024]);
    let n = a.write_handshake(&[], &mut buf).unwrap();
    b.read_handshake(&buf[..n], &mut tmp).unwrap();
    let n = b.write_handshake(&[], &mut buf).unwrap();
    a.read_handshake(&buf[..n], &mut tmp).unwrap();
    let n = a.write_handshake(&[], &mut buf).unwrap();
    b.read_handshake(&buf[..n], &mut tmp).unwrap();
    a
}

/// Seal a DATA fragment of `chunk` bytes and wrap it for `hops` onion hops.
fn fits(noise: &mut NoiseSession, hops: &[OnionHop], chunk: usize) -> bool {
    let inner = encode_data(0, 1, 0, 2, &vec![0u8; chunk]);
    let mut sealed = vec![0u8; inner.len() + NOISE_TAG_LEN];
    let n = noise.seal(&inner, &mut sealed).unwrap();
    let Ok(dg) = encode_datagram(PacketType::Data, &sealed[..n]) else {
        return false;
    };
    hops.is_empty() || wrap_route(hops, v4(127, 0, 0, 1, 9), &dg).is_ok()
}

#[test]
fn fragment_cap_is_exact_for_onion_paths() {
    let mut noise = transport_session();
    let hop = |port| OnionHop { addr: v4(127, 0, 0, 1, port), pk: IdentitySecret::generate().public() };
    for n_hops in 0..=4u16 {
        let hops: Vec<OnionHop> = (0..n_hops).map(|i| hop(9000 + i)).collect();
        let max = max_fragment_for_path(false, n_hops as usize);
        assert!(fits(&mut noise, &hops, max), "{n_hops} hops: {max} B must fit");
        if max < MAX_PAYLOAD {
            assert!(!fits(&mut noise, &hops, max + 1), "{n_hops} hops: cap not tight");
        }
    }
}

#[test]
fn fragment_cap_values() {
    assert_eq!(max_fragment_for_path(false, 0), MAX_PAYLOAD);
    assert_eq!(max_fragment_for_path(true, 0), MAX_PAYLOAD);
    assert_eq!(max_fragment_for_path(false, 1), MAX_PAYLOAD);
    assert_eq!(max_fragment_for_path(false, 2), 995);
    assert_eq!(max_fragment_for_path(false, 3), 909);
    assert_eq!(max_fragment_for_path(false, 14), 0);
    assert_eq!(max_fragment_for_path(false, usize::MAX), 0);
}

/// Hand every wire in `wires` from `from` to `to`, collecting its replies.
fn deliver(to: &mut UdpSession, wires: Vec<Vec<u8>>, from: SockAddr) -> Vec<Vec<u8>> {
    let mut back = Vec::new();
    for w in wires {
        if let Some(r) = to.on_datagram(&w, from).unwrap() {
            back.push(r);
        }
    }
    back
}

#[test]
fn alice_bob_direct_in_memory() {
    let a_addr = v4(127, 0, 0, 1, 1001);
    let b_addr = v4(127, 0, 0, 1, 1002);
    let a_id = IdentitySecret::generate();
    let b_id = IdentitySecret::generate();
    let (mut alice, m1) = UdpSession::start_initiator(&a_id, Path::Direct { peer: b_addr }).unwrap();
    let (mut bob, m2) = UdpSession::start_responder(&b_id, &m1, a_addr, None, None).unwrap();
    let m3 = alice.finish_initiator(&m2, b_addr).unwrap();
    alice.confirm(Some(b_id.public())).unwrap();
    bob.finish_responder(&m3, a_addr).unwrap();
    bob.confirm(Some(a_id.public())).unwrap();
    assert_eq!(bob.remote_static().unwrap(), a_id.public().as_bytes());
    assert_eq!(bob.peer(), a_addr);

    let big = vec![0x42u8; 3000];
    alice.enqueue(&big).unwrap();
    let (wires, r) = alice.flush(0);
    r.unwrap();
    assert_eq!(wires.len(), 3);
    let acks = deliver(&mut bob, wires, a_addr);
    assert_eq!(acks.len(), 3);
    assert_eq!(bob.pop_delivered().unwrap(), big);
    for ack in acks {
        assert!(alice.on_datagram(&ack, b_addr).unwrap().is_none());
    }
    assert_eq!(alice.unacked_len(), 0);

    bob.enqueue(b"ack").unwrap();
    let (wires, r) = bob.flush(10);
    r.unwrap();
    deliver(&mut alice, wires, b_addr);
    assert_eq!(alice.pop_delivered().unwrap(), b"ack");
}

#[test]
fn pin_rejects_wrong_key_in_memory() {
    let a_addr = v4(127, 0, 0, 1, 1101);
    let b_addr = v4(127, 0, 0, 1, 1102);
    let a_id = IdentitySecret::generate();
    let b_id = IdentitySecret::generate();
    let wrong = IdentitySecret::generate().public();
    let (mut alice, m1) = UdpSession::start_initiator(&a_id, Path::Direct { peer: b_addr }).unwrap();
    let (_bob, m2) = UdpSession::start_responder(&b_id, &m1, a_addr, None, None).unwrap();
    alice.finish_initiator(&m2, b_addr).unwrap();
    assert!(alice.confirm(Some(wrong)).is_err());
    assert!(alice.confirm(None).is_ok());
}

#[test]
fn handshake_checks_source_and_type() {
    let a_addr = v4(127, 0, 0, 1, 1201);
    let b_addr = v4(127, 0, 0, 1, 1202);
    let stranger = v4(127, 0, 0, 1, 1203);
    let a_id = IdentitySecret::generate();
    let b_id = IdentitySecret::generate();
    let (mut alice, m1) = UdpSession::start_initiator(&a_id, Path::Direct { peer: b_addr }).unwrap();
    assert!(matches!(
        UdpSession::start_responder(&b_id, &m1, a_addr, Some(stranger), None),
        Err(SessionError::UnexpectedAddr)
    ));
    let data = encode_datagram(PacketType::Data, b"nope").unwrap();
    assert!(matches!(UdpSession::start_responder(&b_id, &data, a_addr, None, None), Err(SessionError::UnexpectedType)));
    let (_bob, m2) = UdpSession::start_responder(&b_id, &m1, a_addr, None, None).unwrap();
    assert!(matches!(alice.finish_initiator(&m2, stranger), Err(SessionError::UnexpectedAddr)));
    assert!(matches!(alice.confirm(None), Err(SessionError::HandshakeIncomplete)));
    assert!(alice.finish_initiator(&m2, b_addr).is_ok());
    assert!(matches!(
        UdpSession::start_initiator(&a_id, Path::ViaOnion { hops: Vec::new(), dest: b_addr }),
        Err(SessionError::EmptyOnion)
    ));
}

#[test]
fn alice_bob_via_relay_in_memory() {
    let a_addr = v4(127, 0, 0, 1, 2001);
    let b_addr = v4(127, 0, 0, 1, 2002);
    let r_addr = v4(127, 0, 0, 1, 2000);
    let mut relay = Relay::new();
    let a_id = IdentitySecret::generate();
    let b_id = IdentitySecret::generate();
    let (mut alice, m1) =
        UdpSession::start_initiator(&a_id, Path::ViaRelay { relay: r_addr, peer: b_addr }).unwrap();
    let (to, m1r) = relay.on_datagram(&m1, a_addr, 0).unwrap();
    assert_eq!(to, b_addr);
    let (mut bob, m2) = UdpSession::start_responder(&b_id, &m1r, r_addr, Some(r_addr), None).unwrap();
    assert_eq!(bob.peer(), a_addr);
    assert_eq!(bob.next_hop(), r_addr);
    let (to, m2r) = relay.on_datagram(&m2, b_addr, 1).unwrap();
    assert_eq!(to, a_addr);
    let m3 = alice.finish_initiator(&m2r, r_addr).unwrap();
    let (_, m3r) = relay.on_datagram(&m3, a_addr, 2).unwrap();
    bob.finish_responder(&m3r, r_addr).unwrap();
    alice.confirm(None).unwrap();
    bob.confirm(None).unwrap();

    alice.enqueue(b"through the relay").unwrap();
    let (wires, r) = alice.flush(3);
    r.unwrap();
    for w in wires {
        let (to, fwd) = relay.on_datagram(&w, a_addr, 3).unwrap();
        assert_eq!(to, b_addr);
        bob.on_datagram(&fwd, r_addr).unwrap();
    }
    assert_eq!(bob.pop_delivered().unwrap(), b"through the relay");
}

#[test]
fn dropped_data_is_retransmitted() {
    let a_addr = v4(127, 0, 0, 1, 4001);
    let b_addr = v4(127, 0, 0, 1, 4002);
    let (mut alice, m1) = UdpSession::start_initiator(&IdentitySecret::generate(), Path::Direct { peer: b_addr }).unwrap();
    let (mut bob, m2) = UdpSession::start_responder(&IdentitySecret::generate(), &m1, a_addr, None, None).unwrap();
    let m3 = alice.finish_initiator(&m2, b_addr).unwrap();
    bob.finish_responder(&m3, a_addr).unwrap();
    alice.set_retx_timeout(5);
    alice.debug_drop_data(1);
    alice.enqueue(b"lossy").unwrap();
    let (wires, r) = alice.flush(0);
    r.unwrap();
    assert!(wires.is_empty());
    let (wires, r) = alice.flush(10);
    r.unwrap();
    assert_eq!(wires.len(), 1);
    let acks = deliver(&mut bob, wires, a_addr);
    assert_eq!(bob.pop_delivered().unwrap(), b"lossy");
    deliver(&mut alice, acks, b_addr);
    assert_eq!(alice.unacked_len(), 0);
}

#[test]
fn cover_datagrams_are_dropped_by_the_receiver() {
    let a_addr = v4(127, 0, 0, 1, 5001);
    let b_addr = v4(127, 0, 0, 1, 5002);
    let (mut alice, m1) = UdpSession::start_initiator(&IdentitySecret::generate(), Path::Direct { peer: b_addr }).unwrap();
    let (mut bob, m2) = UdpSession::start_responder(&IdentitySecret::generate(), &m1, a_addr, None, None).unwrap();
    let m3 = alice.finish_initiator(&m2, b_addr).unwrap();
    bob.finish_responder(&m3, a_addr).unwrap();
    assert!(alice.maybe_cover(1_000).unwrap().is_none());
    alice.set_cover(CoverMode::Stealth, 1_000);
    assert!(alice.maybe_cover(1_000).unwrap().is_none());
    let cover = alice.maybe_cover(1_070).unwrap().unwrap();
    assert!(cover.len() >= 8 + 16 && cover.len() <= 8 + 256);
    assert!(bob.on_datagram(&cover, a_addr).unwrap().is_none());
    alice.enqueue(b"real").unwrap();
    let (wires, _) = alice.flush(1_071);
    deliver(&mut bob, wires, a_addr);
    assert_eq!(bob.pop_delivered().unwrap(), b"real");
}

#[test]
fn first_handshake_steps_fail_only_where_stated() {
    let id = IdentitySecret::generate();
    let a_addr = v4(127, 0, 0, 1, 6001);
    let v6 = SockAddr::V6 { ip6: 1, port6: 1 };
    assert!(matches!(
        UdpSession::start_initiator(&id, Path::ViaRelay { relay: v4(127, 0, 0, 1, 6000), peer: v6 }),
        Err(SessionError::Packet(PacketError::BadAddress))
    ));
    let short = encode_datagram(PacketType::Handshake, &[0u8; 31]).unwrap();
    assert!(matches!(UdpSession::start_responder(&id, &short, a_addr, None, None), Err(SessionError::Noise(_))));
    let any_key = encode_datagram(PacketType::Handshake, &[7u8; 32]).unwrap();
    let (_, reply) = UdpSession::start_responder(&id, &any_key, a_addr, None, None).unwrap();
    assert_eq!(reply.len(), 8 + 96);
}
