//! Rendezvous tokens, wire forms and the registration table.

use ppose::network::addr::SockAddr;
use ppose::network::packet::{encode_datagram, PacketType};
use ppose::rendezvous::{
    decode_reply, encode_lookup, encode_register, token_from_psk, LookupAction, RendezvousAction, RendezvousLookup,
    RendezvousService, DEFAULT_CAP, DEFAULT_TTL_MS,
};

fn v4(a: u8, b: u8, c: u8, d: u8, port: u16) -> SockAddr {
    SockAddr::V4 { ip: u32::from_be_bytes([a, b, c, d]), port }
}

#[test]
fn registration_table_stays_bounded() {
    let mut svc = RendezvousService::with_bounds(DEFAULT_TTL_MS, 8);
    let now = 0;
    let from = v4(127, 0, 0, 1, 1);
    for i in 0u32..40 {
        let mut token = [0u8; 32];
        token[..4].copy_from_slice(&i.to_be_bytes());
        svc.register(token, from, now);
    }
    assert!(svc.len() <= 8, "registration table must stay bounded, got {}", svc.len());
}

#[test]
fn expired_registration_not_returned_before_next_sweep() {
    let mut svc = RendezvousService::with_bounds(1, DEFAULT_CAP);
    let t0 = 5_000;
    let mut token = [0u8; 32];
    token[0] = 0xAA;
    let from = v4(127, 0, 0, 1, 2);
    svc.register(token, from, t0);
    assert_eq!(svc.lookup(&token, t0), Some(v4(127, 0, 0, 1, 2)), "should be found immediately");
    let later = t0 + 1_000;
    assert_eq!(svc.lookup(&token, later), None, "must not be returned once past ttl, even though no sweep has run yet");
    assert!(svc.contains(&token));
}

#[test]
fn register_and_lookup() {
    let mut rs = RendezvousService::new();
    let token = token_from_psk(b"unit-psk", 1);
    let alice = v4(127, 0, 0, 1, 40001);
    let bob = v4(127, 0, 0, 1, 40002);
    assert!(matches!(rs.on_datagram(&encode_register(&token), alice, 100), RendezvousAction::Registered));
    let reply = match rs.on_datagram(&encode_lookup(&token), bob, 150) {
        RendezvousAction::Reply(p) => p,
        _ => panic!("lookup must be answered"),
    };
    assert_eq!(decode_reply(&reply), Some(alice));
}

#[test]
fn lookup_of_unknown_token_answers_not_found() {
    let mut rs = RendezvousService::new();
    let token = token_from_psk(b"nobody", 7);
    let reply = match rs.on_datagram(&encode_lookup(&token), v4(1, 2, 3, 4, 5), 0) {
        RendezvousAction::Reply(p) => p,
        _ => panic!("lookup must be answered"),
    };
    assert_eq!(&reply[8..], &[3, 0]);
    assert_eq!(decode_reply(&reply), None);
}

#[test]
fn ipv6_registrant_is_not_returned() {
    let mut rs = RendezvousService::new();
    let token = [1u8; 32];
    rs.register(token, SockAddr::V6 { ip6: 1, port6: 9 }, 0);
    assert!(rs.contains(&token));
    assert_eq!(rs.lookup(&token, 0), None);
}

#[test]
fn malformed_requests_are_ignored() {
    let mut rs = RendezvousService::new();
    let short = encode_datagram(PacketType::Rendezvous, &[1, 2, 3]).unwrap();
    assert!(matches!(rs.on_datagram(&short, v4(1, 1, 1, 1, 1), 0), RendezvousAction::Ignore));
    let mut body = vec![9u8];
    body.extend_from_slice(&[0u8; 32]);
    let bad_op = encode_datagram(PacketType::Rendezvous, &body).unwrap();
    assert!(matches!(rs.on_datagram(&bad_op, v4(1, 1, 1, 1, 1), 0), RendezvousAction::Ignore));
    let wrong_type = encode_datagram(PacketType::Data, &encode_register(&[0u8; 32])[8..]).unwrap();
    assert!(matches!(rs.on_datagram(&wrong_type, v4(1, 1, 1, 1, 1), 0), RendezvousAction::Ignore));
    assert_eq!(rs.len(), 0);
}

#[test]
fn token_depends_on_psk_and_epoch() {
    let a = token_from_psk(b"psk", 10);
    assert_eq!(a, token_from_psk(b"psk", 10));
    assert_ne!(a, token_from_psk(b"psk", 11));
    assert_ne!(a, token_from_psk(b"psk2", 10));
    let mut h = blake3::Hasher::new();
    h.update(b"ppose-rs");
    h.update(b"psk");
    h.update(&10u64.to_be_bytes());
    assert_eq!(a, *h.finalize().as_bytes());
}

#[test]
fn request_wire_forms() {
    let t = [0x5Au8; 32];
    let r = encode_register(&t);
    assert_eq!(r.len(), 8 + 33);
    assert_eq!(r[3], 6);
    assert_eq!(r[8], 1);
    assert_eq!(&r[9..], &t);
    assert_eq!(encode_lookup(&t)[8], 2);
}

#[test]
fn fifo_eviction_drops_oldest_first() {
    let mut rs = RendezvousService::with_bounds(DEFAULT_TTL_MS, 2);
    let from = v4(9, 9, 9, 9, 9);
    rs.register([1; 32], from, 0);
    rs.register([2; 32], from, 0);
    rs.register([3; 32], from, 0);
    assert!(!rs.contains(&[1; 32]));
    assert!(rs.contains(&[2; 32]));
    assert!(rs.contains(&[3; 32]));
}

#[test]
fn lookup_tries_the_previous_epoch_and_skips_strangers() {
    let server = v4(127, 0, 0, 1, 7000);
    let stranger = v4(127, 0, 0, 1, 7001);
    let alice = v4(10, 0, 0, 1, 4000);
    let mut svc = RendezvousService::new();
    // Alice registered in the previous epoch.
    let reg = encode_register(&token_from_psk(b"demo", 9));
    assert!(matches!(svc.on_datagram(&reg, alice, 0), RendezvousAction::Registered));
    let (mut lookup, act) = RendezvousLookup::start(server, b"demo", 10);
    let LookupAction::Send(q1) = act else { panic!("first action sends") };
    assert_eq!(q1, encode_lookup(&token_from_psk(b"demo", 10)));
    let RendezvousAction::Reply(r1) = svc.on_datagram(&q1, alice, 1) else { panic!("lookup answered") };
    assert_eq!(decode_reply(&r1), None);
    assert_eq!(lookup.on_reply(b"noise", stranger), LookupAction::Receive);
    let LookupAction::Send(q2) = lookup.on_reply(&r1, server) else { panic!("second epoch asked") };
    assert_eq!(q2, encode_lookup(&token_from_psk(b"demo", 9)));
    let RendezvousAction::Reply(r2) = svc.on_datagram(&q2, alice, 2) else { panic!("lookup answered") };
    assert_eq!(lookup.on_reply(&r2, server), LookupAction::Found(alice));
    assert_eq!(lookup.on_reply(&r2, server), LookupAction::NotFound);
}

#[test]
fn lookup_gives_up_after_eight_reads_per_epoch() {
    let server = v4(127, 0, 0, 1, 7000);
    let stranger = v4(127, 0, 0, 1, 7001);
    let (mut lookup, _) = RendezvousLookup::start(server, b"demo", 0);
    for _ in 0..7 {
        assert_eq!(lookup.on_reply(b"x", stranger), LookupAction::Receive);
    }
    let LookupAction::Send(q) = lookup.on_reply(b"x", stranger) else { panic!("second epoch asked") };
    assert_eq!(q, encode_lookup(&token_from_psk(b"demo", 0)));
    for _ in 0..7 {
        assert_eq!(lookup.on_reply(b"x", stranger), LookupAction::Receive);
    }
    assert_eq!(lookup.on_reply(b"x", stranger), LookupAction::NotFound);
}
