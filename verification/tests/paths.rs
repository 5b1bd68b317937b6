//! Exchanges over each kind of path, driven in memory: every datagram is
//! carried by hand through the relay or onion hops that would forward it.

use ppose::cover::CoverMode;
use ppose::crypto::keys::IdentitySecret;
use ppose::network::addr::SockAddr;
use ppose::onion::{OnionHop, OnionRelay};
use ppose::relay::Relay;
use ppose::session::{Path, UdpSession};

fn v4(port: u16) -> SockAddr {
    SockAddr::V4 { ip: u32::from_be_bytes([127, 0, 0, 1]), port }
}

/// A direct-path pair after the handshake, each side pinning the other
/// when asked to.
fn direct_pair(a_addr: SockAddr, b_addr: SockAddr, pin: bool) -> (UdpSession, UdpSession) {
    let a_id = IdentitySecret::generate();
    let b_id = IdentitySecret::generate();
    let (mut alice, m1) = UdpSession::start_initiator(&a_id, Path::Direct { peer: b_addr }).expect("alice hs");
    let (mut bob, m2) = UdpSession::start_responder(&b_id, &m1, a_addr, None, None).expect("bob hs");
    let m3 = alice.finish_initiator(&m2, b_addr).expect("alice hs");
    bob.finish_responder(&m3, a_addr).expect("bob hs");
    if pin {
        alice.confirm(Some(b_id.public())).expect("alice pin");
        bob.confirm(Some(a_id.public())).expect("bob pin");
    } else {
        alice.confirm(None).expect("alice hs");
        bob.confirm(None).expect("bob hs");
    }
    (alice, bob)
}

/// Send `msg` from `tx` to `rx` on a direct path and carry the ACKs back;
/// returns what `rx` delivered.
fn send_direct(tx: &mut UdpSession, tx_addr: SockAddr, rx: &mut UdpSession, rx_addr: SockAddr, msg: &[u8], now: u64) -> Vec<u8> {
    tx.enqueue(msg).expect("send");
    let (wires, r) = tx.flush(now);
    r.expect("send");
    for w in wires {
        if let Some(ack) = rx.on_datagram(&w, tx_addr).expect("recv") {
            assert!(tx.on_datagram(&ack, rx_addr).expect("ack").is_none());
        }
    }
    assert_eq!(tx.unacked_len(), 0);
    rx.pop_delivered().expect("recv")
}

#[test]
fn alice_bob_loopback_chat() {
    let (a_addr, b_addr) = (v4(6001), v4(6002));
    let (mut alice, mut bob) = direct_pair(a_addr, b_addr, false);
    let msg = send_direct(&mut alice, a_addr, &mut bob, b_addr, b"hello from alice", 0);
    assert_eq!(msg, b"hello from alice");
    let reply = send_direct(&mut bob, b_addr, &mut alice, a_addr, b"hello from bob", 1);
    assert_eq!(reply, b"hello from bob");
}

#[test]
fn pin_accepts_correct_key() {
    let (a_addr, b_addr) = (v4(6101), v4(6102));
    let (mut alice, mut bob) = direct_pair(a_addr, b_addr, true);
    let msg = send_direct(&mut alice, a_addr, &mut bob, b_addr, b"pinned", 0);
    assert_eq!(msg, b"pinned");
}

#[test]
fn pin_rejects_wrong_key() {
    let (a_addr, b_addr) = (v4(6201), v4(6202));
    let a_id = IdentitySecret::generate();
    let b_id = IdentitySecret::generate();
    let wrong = IdentitySecret::generate().public();
    let (mut alice, m1) = UdpSession::start_initiator(&a_id, Path::Direct { peer: b_addr }).unwrap();
    let (_bob, m2) = UdpSession::start_responder(&b_id, &m1, a_addr, None, None).unwrap();
    alice.finish_initiator(&m2, b_addr).unwrap();
    let err = alice.confirm(Some(wrong));
    assert!(err.is_err());
}

#[test]
fn alice_bob_via_relay() {
    let (a_addr, b_addr, r_addr) = (v4(6301), v4(6302), v4(6300));
    let mut relay = Relay::new();
    let a_id = IdentitySecret::generate();
    let b_id = IdentitySecret::generate();
    let mut now = 0u64;
    let (mut alice, m1) =
        UdpSession::start_initiator(&a_id, Path::ViaRelay { relay: r_addr, peer: b_addr }).expect("alice hs");
    let (_, m1r) = relay.on_datagram(&m1, a_addr, now).unwrap();
    let (mut bob, m2) = UdpSession::start_responder(&b_id, &m1r, r_addr, Some(r_addr), None).expect("bob hs");
    let (_, m2r) = relay.on_datagram(&m2, b_addr, now).unwrap();
    let m3 = alice.finish_initiator(&m2r, r_addr).expect("alice hs");
    let (_, m3r) = relay.on_datagram(&m3, a_addr, now).unwrap();
    bob.finish_responder(&m3r, r_addr).expect("bob hs");

    alice.enqueue(b"via-relay").expect("alice send");
    now += 1;
    let (wires, r) = alice.flush(now);
    r.expect("alice send");
    for w in wires {
        let (to, fwd) = relay.on_datagram(&w, a_addr, now).unwrap();
        assert_eq!(to, b_addr);
        if let Some(ack) = bob.on_datagram(&fwd, r_addr).expect("bob recv") {
            let (to, back) = relay.on_datagram(&ack, b_addr, now).unwrap();
            assert_eq!(to, a_addr);
            alice.on_datagram(&back, r_addr).expect("alice ack");
        }
    }
    assert_eq!(bob.pop_delivered().expect("bob recv"), b"via-relay");

    bob.enqueue(b"ok").expect("bob send");
    now += 1;
    let (wires, r) = bob.flush(now);
    r.expect("bob send");
    for w in wires {
        let (to, fwd) = relay.on_datagram(&w, b_addr, now).unwrap();
        assert_eq!(to, a_addr);
        alice.on_datagram(&fwd, r_addr).expect("alice recv");
    }
    assert_eq!(alice.pop_delivered().expect("alice recv"), b"ok");
}

/// Two onion hops, in memory.
struct TwoHops {
    h1: OnionRelay,
    h2: OnionRelay,
    h1_addr: SockAddr,
    h2_addr: SockAddr,
    a_addr: SockAddr,
    b_addr: SockAddr,
    now: u64,
}

impl TwoHops {
    /// Alice to Bob: through h1, then h2.
    fn to_bob(&mut self, w: &[u8]) -> Vec<u8> {
        self.now += 1;
        let (n1, p1) = self.h1.on_datagram(w, self.h1_addr, self.now).unwrap();
        assert_eq!(n1, self.h2_addr);
        let (n2, p2) = self.h2.on_datagram(&p1, self.h2_addr, self.now).unwrap();
        assert_eq!(n2, self.b_addr);
        p2
    }

    /// Bob to Alice: through h2, then h1.
    fn to_alice(&mut self, w: &[u8]) -> Vec<u8> {
        self.now += 1;
        let (n1, p1) = self.h2.on_datagram(w, self.h2_addr, self.now).unwrap();
        assert_eq!(n1, self.h1_addr);
        let (n2, p2) = self.h1.on_datagram(&p1, self.h1_addr, self.now).unwrap();
        assert_eq!(n2, self.a_addr);
        p2
    }
}

/// Alice sends `request` to Bob over two onion hops; Bob replies `reply`
/// back over the reverse path. Both sides check what they receive.
fn two_hop_exchange(request: Vec<u8>, reply: Vec<u8>) {
    let h1_id = IdentitySecret::generate();
    let h2_id = IdentitySecret::generate();
    let mut net = TwoHops {
        h1: OnionRelay::new(h1_id.clone()),
        h2: OnionRelay::new(h2_id.clone()),
        h1_addr: v4(6401),
        h2_addr: v4(6402),
        a_addr: v4(6403),
        b_addr: v4(6404),
        now: 0,
    };
    let hop1 = OnionHop { addr: net.h1_addr, pk: h1_id.public() };
    let hop2 = OnionHop { addr: net.h2_addr, pk: h2_id.public() };
    let a_id = IdentitySecret::generate();
    let b_id = IdentitySecret::generate();

    let (mut alice, m1) =
        UdpSession::start_initiator(&a_id, Path::ViaOnion { hops: vec![hop1, hop2], dest: net.b_addr })
            .expect("alice hs");
    let m1b = net.to_bob(&m1);
    let (mut bob, m2) =
        UdpSession::start_responder(&b_id, &m1b, net.h2_addr, None, Some((vec![hop2, hop1], net.a_addr)))
            .expect("bob hs");
    let m2a = net.to_alice(&m2);
    let m3 = alice.finish_initiator(&m2a, net.h1_addr).expect("alice hs");
    let m3b = net.to_bob(&m3);
    bob.finish_responder(&m3b, net.h2_addr).expect("bob hs");

    alice.enqueue(&request).expect("alice send");
    let (wires, r) = alice.flush(net.now);
    r.expect("alice send");
    for w in wires {
        assert!(w.len() <= 1200);
        let d = net.to_bob(&w);
        if let Some(ack) = bob.on_datagram(&d, net.h2_addr).expect("bob recv") {
            let back = net.to_alice(&ack);
            alice.on_datagram(&back, net.h1_addr).expect("alice ack");
        }
    }
    assert_eq!(alice.unacked_len(), 0);
    assert_eq!(bob.pop_delivered().expect("bob recv"), request);

    bob.enqueue(&reply).expect("bob send");
    let (wires, r) = bob.flush(net.now);
    r.expect("bob send");
    for w in wires {
        assert!(w.len() <= 1200);
        let d = net.to_alice(&w);
        if let Some(ack) = alice.on_datagram(&d, net.h1_addr).expect("alice recv") {
            let back = net.to_bob(&ack);
            bob.on_datagram(&back, net.h2_addr).expect("bob ack");
        }
    }
    assert_eq!(bob.unacked_len(), 0);
    assert_eq!(alice.pop_delivered().expect("alice recv"), reply);
}

#[test]
fn alice_bob_two_hops() {
    two_hop_exchange(b"onion-hi".to_vec(), b"onion-ok".to_vec());
}

/// A message big enough to need full-size fragments: each hop adds 86 bytes
/// on the wire, so the fragments shrink to still fit once wrapped twice.
#[test]
fn large_message_over_two_hops() {
    let request: Vec<u8> = (0..2500u32).map(|i| (i % 251) as u8).collect();
    let reply: Vec<u8> = (0..1800u32).map(|i| (i % 241) as u8).collect();
    two_hop_exchange(request, reply);
}

/// Cover datagrams sent while the real message waits for its ACK do not
/// disturb the receiver's transport state.
#[test]
fn real_message_survives_interleaved_cover_traffic() {
    let (a_addr, b_addr) = (v4(6501), v4(6502));
    let (mut alice, mut bob) = direct_pair(a_addr, b_addr, false);
    alice.set_cover(CoverMode::Stealth, 0);
    alice.enqueue(b"real message despite cover noise").expect("alice send");
    let (wires, r) = alice.flush(0);
    r.expect("alice send");
    let mut sent_cover = 0;
    let mut t = 0u64;
    while sent_cover < 3 {
        t += 10;
        if let Some(c) = alice.maybe_cover(t).expect("cover") {
            assert!(bob.on_datagram(&c, a_addr).expect("bob recv").is_none());
            sent_cover += 1;
        }
    }
    for w in wires {
        if let Some(ack) = bob.on_datagram(&w, a_addr).expect("bob recv") {
            alice.on_datagram(&ack, b_addr).expect("alice ack");
        }
    }
    if let Some(c) = alice.maybe_cover(t + 100).expect("cover") {
        assert!(bob.on_datagram(&c, a_addr).expect("bob recv").is_none());
    }
    assert_eq!(bob.pop_delivered().expect("bob recv"), b"real message despite cover noise");
    assert_eq!(alice.unacked_len(), 0);
}
