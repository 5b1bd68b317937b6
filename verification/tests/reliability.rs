//! Selective-repeat ARQ and the replay cache, driven by hand-picked times
//! (milliseconds).

use ppose::network::replay::ReplayCache;
use ppose::reliability::arq::MAX_PENDING_FRAGMENTS;
use ppose::reliability::{encode_data, Arq, ArqError, ArqGiveUp, MAX_PAYLOAD};

#[test]
fn in_order_delivery() {
    let mut a = Arq::new();
    let mut b = Arq::new();
    a.enqueue(b"hello").unwrap();
    let now = 0;
    for pt in a.take_new_sends(now) {
        let ack = b.ingest(&pt).unwrap();
        if let Some(ack) = ack {
            a.ingest(&ack).unwrap();
        }
    }
    assert_eq!(b.pop_delivered().unwrap(), b"hello");
    assert_eq!(a.unacked_len(), 0);
}

#[test]
fn recovers_from_loss() {
    let mut a = Arq::new();
    let mut b = Arq::new();
    a.set_retx(1);
    a.enqueue(b"one").unwrap();
    a.enqueue(b"two").unwrap();
    let t0 = 1_000;
    let sends = a.take_new_sends(t0);
    assert_eq!(sends.len(), 2);
    // drop first, deliver second (independent messages deliver out of order)
    let ack = b.ingest(&sends[1]).unwrap().unwrap();
    a.ingest(&ack).unwrap();
    assert_eq!(b.pop_delivered().as_deref(), Some(&b"two"[..]));
    let t1 = t0 + 5;
    let retrx = a.take_retransmits(t1).unwrap();
    assert_eq!(retrx.len(), 1);
    let ack = b.ingest(&retrx[0]).unwrap().unwrap();
    a.ingest(&ack).unwrap();
    assert_eq!(b.pop_delivered().as_deref(), Some(&b"one"[..]));
    assert_eq!(a.unacked_len(), 0);
}

#[test]
fn fragment_reassembly_is_bounded() {
    let mut b = Arq::new();
    let total_frags: u32 = MAX_PENDING_FRAGMENTS as u32 + 20;
    for frag_id in 0..total_frags {
        let pt = encode_data(frag_id, frag_id as u16, 0, 2, b"never completed");
        assert!(b.ingest(&pt).unwrap().is_some());
    }
    assert!(
        b.pending_reassemblies() <= MAX_PENDING_FRAGMENTS,
        "fragment table must stay bounded, got {}",
        b.pending_reassemblies()
    );
    assert!(b.pop_delivered().is_none());
}

#[test]
fn fragments_reassemble() {
    let mut a = Arq::new();
    let mut b = Arq::new();
    let big = vec![7u8; MAX_PAYLOAD + 50];
    a.enqueue(&big).unwrap();
    let now = 0;
    for pt in a.take_new_sends(now) {
        if let Some(ack) = b.ingest(&pt).unwrap() {
            a.ingest(&ack).unwrap();
        }
    }
    assert_eq!(b.pop_delivered().unwrap(), big);
}

#[test]
fn fragments_reassemble_out_of_order() {
    let mut a = Arq::new();
    let mut b = Arq::new();
    a.set_max_fragment(3);
    assert_eq!(a.max_fragment(), 3);
    let msg = b"abcdefgh";
    a.enqueue(msg).unwrap();
    let sends = a.take_new_sends(0);
    assert_eq!(sends.len(), 3);
    for i in [2usize, 0, 1] {
        b.ingest(&sends[i]).unwrap();
    }
    assert_eq!(b.pop_delivered().unwrap(), msg);
    assert!(b.pop_delivered().is_none());
}

#[test]
fn duplicate_data_is_delivered_once() {
    let mut a = Arq::new();
    let mut b = Arq::new();
    a.enqueue(b"once").unwrap();
    let sends = a.take_new_sends(0);
    assert!(b.ingest(&sends[0]).unwrap().is_some());
    assert!(b.ingest(&sends[0]).unwrap().is_some());
    assert_eq!(b.pop_delivered().unwrap(), b"once");
    assert!(b.pop_delivered().is_none());
}

#[test]
fn too_many_fragments_is_refused() {
    let mut a = Arq::new();
    a.set_max_fragment(1);
    assert_eq!(a.enqueue(&[0u8; 256]), Err(ArqError::TooLarge));
    assert_eq!(a.unacked_len(), 0);
    assert_eq!(a.enqueue(&[0u8; 255]), Ok(()));
    assert_eq!(a.unacked_len(), 255);
}

#[test]
fn retransmits_give_up_after_max_attempts() {
    let mut a = Arq::new();
    a.set_retx(10);
    a.enqueue(b"lost").unwrap();
    assert_eq!(a.take_new_sends(0).len(), 1);
    let mut t = 0;
    for _ in 0..4 {
        t += 10;
        assert_eq!(a.take_retransmits(t).unwrap().len(), 1);
    }
    t += 10;
    assert_eq!(a.take_retransmits(t), Err(ArqGiveUp { seq: 0, attempts: 5 }));
}

#[test]
fn retransmit_waits_for_timeout() {
    let mut a = Arq::new();
    a.enqueue(b"x").unwrap();
    assert_eq!(a.take_new_sends(100).len(), 1);
    assert!(a.take_new_sends(100).is_empty());
    assert!(a.take_retransmits(299).unwrap().is_empty());
    assert_eq!(a.take_retransmits(300).unwrap().len(), 1);
}

#[test]
fn empty_message_is_one_frame() {
    let mut a = Arq::new();
    let mut b = Arq::new();
    a.enqueue(b"").unwrap();
    let sends = a.take_new_sends(0);
    assert_eq!(sends.len(), 1);
    b.ingest(&sends[0]).unwrap();
    assert_eq!(b.pop_delivered().unwrap(), b"");
}

#[test]
fn take_ack_once() {
    let mut a = Arq::new();
    let mut b = Arq::new();
    assert!(b.take_ack().is_none());
    a.enqueue(b"m").unwrap();
    let sends = a.take_new_sends(0);
    let ack = b.ingest(&sends[0]).unwrap().unwrap();
    assert_eq!(b.take_ack(), Some(ack));
    assert!(b.take_ack().is_none());
}

#[test]
fn rejects_duplicate() {
    let mut c = ReplayCache::with_bounds(10_000, 8);
    let now = 0;
    assert!(c.accept(b"pkt", now));
    assert!(!c.accept(b"pkt", now));
    assert!(c.accept(b"other", now));
}

#[test]
fn ttl_expires() {
    let mut c = ReplayCache::with_bounds(5, 8);
    let t0 = 1_000;
    assert!(c.accept(b"pkt", t0));
    assert!(!c.accept(b"pkt", t0 + 1));
    assert!(c.accept(b"pkt", t0 + 10));
}

#[test]
fn ttl_correctness_survives_throttled_sweep() {
    let mut c = ReplayCache::with_bounds(5, 100_000);
    let t0 = 1_000;
    assert!(c.accept(b"pkt", t0));
    assert!(!c.accept(b"pkt", t0 + 1));
    assert!(c.accept(b"pkt", t0 + 10));
}

#[test]
fn sweep_reclaims_stale_entries_over_many_calls() {
    let ttl = 1;
    let mut c = ReplayCache::with_bounds(ttl, 100_000);
    let t0 = 1_000;
    for i in 0..200u32 {
        assert!(c.accept(&i.to_be_bytes(), t0));
    }
    assert_eq!(c.len(), 200);
    let t_far = t0 + 1_000;
    for i in 200..264u32 {
        c.accept(&i.to_be_bytes(), t_far);
    }
    assert!(c.len() < 200, "sweep should have reclaimed stale entries");
}

#[test]
fn replay_cache_stays_bounded() {
    let mut c = ReplayCache::with_bounds(1_000_000, 4);
    for i in 0..50u32 {
        assert!(c.accept(&i.to_be_bytes(), i as u64));
        assert!(c.len() <= 4);
    }
    assert!(!c.is_empty());
    assert!(ReplayCache::new().is_empty());
}
