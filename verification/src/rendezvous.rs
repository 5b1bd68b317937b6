//! Token rendezvous (DRAFT).
//!
//! A rendezvous service maps a 32-byte token to the registrar's source
//! address. It does **not** prove operator independence. Two colluding
//! servers plus a passive observer can correlate registrations.
//!
//! Token recommendation: `BLAKE3("ppose-rs" || psk || epoch_hours)`.

use std::collections::BTreeMap;
use std::collections::VecDeque;

use vstd::prelude::*;
use vstd::std_specs::btree::spec_btree_map_iter;
use vstd::std_specs::iter::IteratorSpec;

use crate::bytes::{be_bytes, key256, key256_at, key256_of, push_be};
use crate::crypto::blake3_hash::{blake3_digest, blake3_of};
use crate::network::addr::{lemma_v4_roundtrip, push_v4, read_v4, v4_of_wire, v4_wire, SockAddr};
use crate::network::packet::{datagram, decode_outer, encode_datagram, lemma_datagram_roundtrip, outer_decoding, PacketType};
use crate::network::replay::since;

verus! {

broadcast use vstd::std_specs::btree::group_btree_axioms, vstd::laws_cmp::group_laws_cmp;

/// Request op: register the sender under a token.
pub const OP_REGISTER: u8 = 1;

/// Request op: look a token up.
pub const OP_LOOKUP: u8 = 2;

/// Reply op: the answer to a lookup.
pub const OP_REPLY: u8 = 3;

/// Maximum distinct tokens retained at once. Registration takes no
/// authentication at all, so this cap is the only thing standing between
/// anyone who can send the service a datagram and unbounded memory growth.
pub const DEFAULT_CAP: usize = 4096;

/// How many registrations between full TTL sweeps, when not forced sooner
/// by hitting the cap. A lookup checks its own entry's freshness directly,
/// so this only delays memory reclamation, not correctness.
pub const SWEEP_EVERY: u32 = 64;

/// How long a registration stays live (milliseconds).
pub const DEFAULT_TTL_MS: u64 = 60_000;

/// Token derivation domain label, `"ppose-rs"`.
pub const TOKEN_DOMAIN: [u8; 8] = [0x70, 0x70, 0x6f, 0x73, 0x65, 0x2d, 0x72, 0x73];

/// The bytes of [`TOKEN_DOMAIN`].
pub open spec fn token_domain() -> Seq<u8> {
    seq![0x70u8, 0x70, 0x6f, 0x73, 0x65, 0x2d, 0x72, 0x73]
}

/// What a rendezvous token hashes: `"ppose-rs" || psk || epoch_hours`
/// (the hours as 8 big-endian bytes).
pub open spec fn token_input(psk: Seq<u8>, epoch_hours: u64) -> Seq<u8> {
    token_domain() + psk + be_bytes(epoch_hours as nat, 8)
}

/// Derive a rendezvous token from a pre-shared secret and epoch hours.
pub fn token_from_psk(psk: &[u8], epoch_hours: u64) -> (t: [u8; 32])
    ensures
        t@ == blake3_of(token_input(psk@, epoch_hours)),
{
    let mut input: Vec<u8> = Vec::new();
    input.extend_from_slice(&TOKEN_DOMAIN);
    input.extend_from_slice(psk);
    push_be(&mut input, epoch_hours, 8);
    assert(TOKEN_DOMAIN@ =~= token_domain());
    assert(input@ =~= token_input(psk@, epoch_hours));
    blake3_digest(input.as_slice())
}

/// A request body: the op byte, then the token.
pub open spec fn request_body(op: u8, token: Seq<u8>) -> Seq<u8> {
    seq![op] + token
}

/// A Rendezvous datagram carrying `op` and `token`.
fn encode_request(op: u8, token: &[u8; 32]) -> (r: Vec<u8>)
    ensures
        r@ == datagram(PacketType::Rendezvous, request_body(op, token@)),
{
    let mut body: Vec<u8> = Vec::with_capacity(33);
    body.push(op);
    body.extend_from_slice(token);
    assert(body@ =~= request_body(op, token@));
    match encode_datagram(PacketType::Rendezvous, body.as_slice()) {
        Ok(pkt) => pkt,
        Err(_) => {
            proof {
                assert(false);
            }
            Vec::new()
        },
    }
}

/// Build a register datagram.
pub fn encode_register(token: &[u8; 32]) -> (r: Vec<u8>)
    ensures
        r@ == datagram(PacketType::Rendezvous, request_body(OP_REGISTER, token@)),
{
    encode_request(OP_REGISTER, token)
}

/// Build a lookup datagram.
pub fn encode_lookup(token: &[u8; 32]) -> (r: Vec<u8>)
    ensures
        r@ == datagram(PacketType::Rendezvous, request_body(OP_LOOKUP, token@)),
{
    encode_request(OP_LOOKUP, token)
}

/// The body of a lookup reply: `[3, 0]` when nothing is found, else
/// `[3, 1]` and the IPv4 endpoint (address octets, port big-endian).
pub open spec fn reply_body(found: Option<SockAddr>) -> Seq<u8> {
    match found {
        Some(SockAddr::V4 { ip, port }) => seq![OP_REPLY, 1u8] + v4_wire(ip, port),
        _ => seq![OP_REPLY, 0u8],
    }
}

/// The address a lookup reply names, if it is a well-formed positive one.
pub open spec fn reply_decoding(pkt: Seq<u8>) -> Option<SockAddr> {
    match outer_decoding(pkt) {
        Ok((ty, _, body)) => if ty == PacketType::Rendezvous && body.len() >= 8 && body[0] == OP_REPLY
            && body[1] == 1 {
            Some(v4_of_wire(body.subrange(2, body.len() as int)))
        } else {
            None
        },
        Err(_) => None,
    }
}

/// Parse a lookup reply into an address.
pub fn decode_reply(pkt: &[u8]) -> (r: Option<SockAddr>)
    ensures
        r == reply_decoding(pkt@),
{
    let (ty, _flags, body) = match decode_outer(pkt) {
        Ok(v) => v,
        Err(_) => return None,
    };
    if ty != PacketType::Rendezvous || body.len() < 8 || body[0] != OP_REPLY || body[1] != 1 {
        return None;
    }
    let a = read_v4(body, 2);
    proof {
        let w = body@.subrange(2, body@.len() as int);
        assert(w.subrange(0, 4) =~= body@.subrange(2, 8).subrange(0, 4));
        assert(w.subrange(4, 6) =~= body@.subrange(2, 8).subrange(4, 6));
    }
    Some(a)
}

/// A reply built for `found` decodes back to it, when it is empty or IPv4.
pub proof fn lemma_reply_roundtrip(found: Option<SockAddr>)
    requires
        found matches Some(a) ==> a is V4,
    ensures
        reply_decoding(datagram(PacketType::Rendezvous, reply_body(found))) == found,
{
    let body = reply_body(found);
    lemma_datagram_roundtrip(PacketType::Rendezvous, body);
    if let Some(SockAddr::V4 { ip, port }) = found {
        lemma_v4_roundtrip(ip, port, Seq::<u8>::empty());
        assert(body.subrange(2, body.len() as int) =~= v4_wire(ip, port) + Seq::<u8>::empty());
    }
}

/// Abstract state of a [`RendezvousService`].
pub struct RendezvousView {
    /// Registered address and registration time of each token key.
    pub map: Map<(u128, u128), (SockAddr, u64)>,
    /// Insertion order of keys, for FIFO eviction; may hold keys already
    /// dropped by expiry, and a key more than once.
    pub order: Seq<(u128, u128)>,
    /// How long a registration stays live (milliseconds).
    pub ttl: u64,
    /// Capacity.
    pub cap: nat,
    /// Registrations since the last sweep.
    pub calls_since_sweep: u32,
}

/// The registrations of `map` still live at `now`.
pub open spec fn fresh_entries(map: Map<(u128, u128), (SockAddr, u64)>, now: u64, ttl: u64) -> Map<(u128, u128), (SockAddr, u64)> {
    Map::new(|k: (u128, u128)| map.contains_key(k) && since(now, map[k].1) < ttl, |k: (u128, u128)| map[k])
}

/// Pop keys off the front of `order`, dropping each from `map`, until the
/// map is under `cap` or the order runs dry.
pub open spec fn evict_fifo(
    map: Map<(u128, u128), (SockAddr, u64)>,
    order: Seq<(u128, u128)>,
    cap: nat,
) -> (Map<(u128, u128), (SockAddr, u64)>, Seq<(u128, u128)>)
    decreases order.len(),
{
    if map.dom().len() < cap || order.len() == 0 {
        (map, order)
    } else {
        evict_fifo(map.remove(order[0]), order.drop_first(), cap)
    }
}

/// What registering `key` for `from` at `now` does, from state `o` to state
/// `n`: a sweep of stale entries (every [`SWEEP_EVERY`] calls or at
/// capacity); then, for a key not present, FIFO eviction down to under the
/// cap and the key appended to the order; then the entry is (re)written.
pub open spec fn register_step(o: RendezvousView, n: RendezvousView, key: (u128, u128), from: SockAddr, now: u64) -> bool {
    let calls = o.calls_since_sweep + 1;
    let sweep = calls >= SWEEP_EVERY || o.map.dom().len() >= o.cap;
    let m1 = if sweep { fresh_entries(o.map, now, o.ttl) } else { o.map };
    let ev = evict_fifo(m1, o.order, o.cap);
    &&& n.ttl == o.ttl
    &&& n.cap == o.cap
    &&& n.calls_since_sweep == if sweep { 0 } else { calls as u32 }
    &&& if m1.contains_key(key) {
        n.map == m1.insert(key, (from, now)) && n.order == o.order
    } else {
        n.map == ev.0.insert(key, (from, now)) && n.order == ev.1.push(key)
    }
}

/// What a lookup of `key` at `now` answers: the registered IPv4 address,
/// if the entry exists and is still live.
pub open spec fn lookup_result(v: RendezvousView, key: (u128, u128), now: u64) -> Option<SockAddr> {
    if v.map.contains_key(key) && since(now, v.map[key].1) < v.ttl && v.map[key].0 is V4 {
        Some(v.map[key].0)
    } else {
        None
    }
}

/// The op and token of a well-formed register or lookup datagram.
pub open spec fn request_decoding(dgram: Seq<u8>) -> Option<(u8, Seq<u8>)> {
    match outer_decoding(dgram) {
        Ok((ty, _, body)) => if ty == PacketType::Rendezvous && body.len() >= 33 && (body[0] == OP_REGISTER
            || body[0] == OP_LOOKUP) {
            Some((body[0], body.subrange(1, 33)))
        } else {
            None
        },
        Err(_) => None,
    }
}

/// A request datagram decodes back to its op and token.
pub proof fn lemma_request_roundtrip(op: u8, token: Seq<u8>)
    requires
        op == OP_REGISTER || op == OP_LOOKUP,
        token.len() == 32,
    ensures
        request_decoding(datagram(PacketType::Rendezvous, request_body(op, token))) == Some((op, token)),
{
    let body = request_body(op, token);
    lemma_datagram_roundtrip(PacketType::Rendezvous, body);
    assert(body.subrange(1, 33) =~= token);
}

/// A lookup within the TTL of a registration answers the registered
/// address (when it is IPv4), whatever the sweep and eviction did.
pub proof fn lemma_lookup_after_register(
    o: RendezvousView,
    n: RendezvousView,
    key: (u128, u128),
    from: SockAddr,
    t1: u64,
    t2: u64,
)
    requires
        register_step(o, n, key, from, t1),
        since(t2, t1) < o.ttl,
    ensures
        lookup_result(n, key, t2) == if from is V4 { Some(from) } else { None::<SockAddr> },
{
}

/// Register then lookup, end to end on the wire: a client that registered
/// token `t` from an IPv4 address gets that address back from a lookup of
/// `t` made within the TTL.
pub proof fn lemma_rendezvous_roundtrip(
    o: RendezvousView,
    n: RendezvousView,
    t: Seq<u8>,
    from: SockAddr,
    t1: u64,
    t2: u64,
)
    requires
        t.len() == 32,
        from is V4,
        register_step(o, n, key256(t), from, t1),
        since(t2, t1) < o.ttl,
    ensures
        request_decoding(datagram(PacketType::Rendezvous, request_body(OP_REGISTER, t))) == Some((OP_REGISTER, t)),
        request_decoding(datagram(PacketType::Rendezvous, request_body(OP_LOOKUP, t))) == Some((OP_LOOKUP, t)),
        reply_decoding(datagram(PacketType::Rendezvous, reply_body(lookup_result(n, key256(t), t2)))) == Some(from),
{
    lemma_request_roundtrip(OP_REGISTER, t);
    lemma_request_roundtrip(OP_LOOKUP, t);
    lemma_lookup_after_register(o, n, key256(t), from, t1, t2);
    lemma_reply_roundtrip(Some(from));
}

proof fn lemma_evict_fifo(map: Map<(u128, u128), (SockAddr, u64)>, order: Seq<(u128, u128)>, cap: nat)
    requires
        map.dom().finite(),
        forall|k: (u128, u128)| #[trigger] map.contains_key(k) ==> order.contains(k),
    ensures
        evict_fifo(map, order, cap).0.dom().finite(),
        evict_fifo(map, order, cap).0.dom().len() < cap || evict_fifo(map, order, cap).0.dom().len() == 0,
        forall|k: (u128, u128)| #[trigger] evict_fifo(map, order, cap).0.contains_key(k) ==> evict_fifo(map, order, cap).1.contains(k),
    decreases order.len(),
{
    if map.dom().len() < cap || order.len() == 0 {
        if order.len() == 0 {
            assert(map.dom() =~= Set::<(u128, u128)>::empty());
        }
    } else {
        let m2 = map.remove(order[0]);
        let o2 = order.drop_first();
        assert forall|k: (u128, u128)| #[trigger] m2.contains_key(k) implies o2.contains(k) by {
            let x = choose|x: int| 0 <= x < order.len() && order[x] == k;
            assert(x != 0);
            assert(o2[x - 1] == k);
        }
        lemma_evict_fifo(m2, o2, cap);
    }
}

/// What one datagram received by the service does to it.
pub enum RendezvousAction {
    /// Not a well-formed register or lookup: dropped, nothing changed.
    Ignore,
    /// The sender was registered under the token.
    Registered,
    /// Send this reply datagram back to the sender.
    Reply(Vec<u8>),
}

/// In-memory rendezvous table.
pub struct RendezvousService {
    map: BTreeMap<(u128, u128), (SockAddr, u64)>,
    order: VecDeque<(u128, u128)>,
    ttl: u64,
    cap: usize,
    calls_since_sweep: u32,
}

impl View for RendezvousService {
    type V = RendezvousView;

    closed spec fn view(&self) -> RendezvousView {
        RendezvousView {
            map: self.map@,
            order: self.order@,
            ttl: self.ttl,
            cap: self.cap as nat,
            calls_since_sweep: self.calls_since_sweep,
        }
    }
}

impl RendezvousService {
    /// The table holds at most `max(cap, 1)` tokens, each still in the
    /// eviction order, and sweeps at least every [`SWEEP_EVERY`]
    /// registrations.
    pub closed spec fn wf(&self) -> bool {
        &&& self.map@.dom().len() <= if self.cap == 0 { 1 } else { self.cap as nat }
        &&& forall|k: (u128, u128)| #[trigger] self.map@.contains_key(k) ==> self.order@.contains(k)
        &&& self.calls_since_sweep < SWEEP_EVERY
    }

    /// Empty table with the default TTL and capacity.
    pub fn new() -> (s: Self)
        ensures
            s.wf(),
            s@ == (RendezvousView { map: Map::empty(), order: Seq::empty(), ttl: DEFAULT_TTL_MS, cap: DEFAULT_CAP as nat, calls_since_sweep: 0 }),
    {
        Self::with_bounds(DEFAULT_TTL_MS, DEFAULT_CAP)
    }

    /// Empty table with an explicit TTL (milliseconds) and capacity.
    pub fn with_bounds(ttl: u64, cap: usize) -> (s: Self)
        ensures
            s.wf(),
            s@ == (RendezvousView { map: Map::empty(), order: Seq::empty(), ttl, cap: cap as nat, calls_since_sweep: 0 }),
    {
        let s = Self { map: BTreeMap::new(), order: VecDeque::new(), ttl, cap, calls_since_sweep: 0 };
        assert(s.map@.dom() =~= Set::<(u128, u128)>::empty());
        s
    }

    /// The table never holds more than `max(cap, 1)` tokens.
    pub proof fn lemma_bounded(&self)
        requires
            self.wf(),
        ensures
            self@.map.dom().len() <= if self@.cap == 0 { 1 } else { self@.cap },
    {
    }

    /// Number of tokens held, live or not yet swept.
    pub fn len(&self) -> (n: usize)
        ensures
            n == self@.map.dom().len(),
    {
        self.map.len()
    }

    /// Whether `token` has an entry, live or not yet swept.
    pub fn contains(&self, token: &[u8; 32]) -> (b: bool)
        ensures
            b == self@.map.contains_key(key256(token@)),
    {
        let key = key256_of(token);
        self.map.contains_key(&key)
    }

    /// `token`'s registered IPv4 address, if it has one that is still fresh
    /// as of `now` (ms). Checks that entry's own timestamp directly rather
    /// than relying on a sweep having removed stale entries.
    pub fn lookup(&self, token: &[u8; 32], now: u64) -> (r: Option<SockAddr>)
        ensures
            r == lookup_result(self@, key256(token@), now),
    {
        let key = key256_of(token);
        self.lookup_key(key, now)
    }

    fn lookup_key(&self, key: (u128, u128), now: u64) -> (r: Option<SockAddr>)
        ensures
            r == lookup_result(self@, key, now),
    {
        match self.map.get(&key) {
            Some(entry) => {
                let (addr, seen_at) = *entry;
                if now.saturating_sub(seen_at) >= self.ttl {
                    None
                } else {
                    match addr {
                        SockAddr::V4 { .. } => Some(addr),
                        SockAddr::V6 { .. } => None,
                    }
                }
            },
            None => None,
        }
    }

    /// Register `from` under `token` at `now` (ms).
    pub fn register(&mut self, token: [u8; 32], from: SockAddr, now: u64)
        requires
            old(self).wf(),
        ensures
            final(self).wf(),
            register_step(old(self)@, final(self)@, key256(token@), from, now),
    {
        let key = key256_of(&token);
        self.register_key(key, from, now);
    }

    fn register_key(&mut self, key: (u128, u128), from: SockAddr, now: u64)
        requires
            old(self).wf(),
        ensures
            final(self).wf(),
            register_step(old(self)@, final(self)@, key, from, now),
    {
        let ghost o = old(self)@;
        self.calls_since_sweep = self.calls_since_sweep + 1;
        let ghost calls0 = self.calls_since_sweep;
        if self.calls_since_sweep >= SWEEP_EVERY || self.map.len() >= self.cap {
            self.calls_since_sweep = 0;
            self.expire(now);
        }
        let ghost m1 = self.map@;
        let ghost c1 = self.calls_since_sweep;
        proof {
            let sweep = o.calls_since_sweep + 1 >= SWEEP_EVERY || o.map.dom().len() >= o.cap;
            assert(m1 == if sweep { fresh_entries(o.map, now, o.ttl) } else { o.map });
            assert(m1.dom().subset_of(o.map.dom()));
            vstd::set_lib::lemma_len_subset(m1.dom(), o.map.dom());
        }
        if !self.map.contains_key(&key) {
            let ghost target = evict_fifo(m1, o.order, o.cap);
            proof {
                lemma_evict_fifo(m1, o.order, o.cap);
            }
            while self.map.len() >= self.cap
                invariant
                    evict_fifo(self.map@, self.order@, self.cap as nat) == target,
                    self.map@.dom().finite(),
                    self.cap == old(self).cap,
                    self.ttl == old(self).ttl,
                    self.calls_since_sweep == c1,
                    c1 < SWEEP_EVERY,
                    !self.map@.contains_key(key),
                    !m1.contains_key(key),
                    target == evict_fifo(m1, o.order, o.cap),
                    o.cap == old(self).cap as nat,
                ensures
                    evict_fifo(self.map@, self.order@, self.cap as nat) == target,
                    self.map@.dom().len() < self.cap || self.order@.len() == 0,
                decreases self.order@.len(),
            {
                match self.order.pop_front() {
                    Some(oldest) => {
                        let ghost mb = self.map@;
                        self.map.remove(&oldest);
                        proof {
                            assert(self.map@ =~= mb.remove(oldest));
                        }
                    },
                    None => {
                        break;
                    },
                }
            }
            proof {
                assert(self.map@ == target.0);
                assert(self.order@ == target.1);
                assert(!target.0.contains_key(key));
            }
            let ghost ob = self.order@;
            self.order.push_back(key);
            let ghost mb = self.map@;
            self.map.insert(key, (from, now));
            proof {
                assert(self.order@ =~= ob.push(key));
                assert(self.map@ =~= mb.insert(key, (from, now)));
                assert(self.map@.dom() =~= mb.dom().insert(key));
                assert forall|k: (u128, u128)| #[trigger] self.map@.contains_key(k) implies self.order@.contains(k) by {
                    if k == key {
                        assert(self.order@[self.order@.len() - 1] == key);
                    } else {
                        assert(mb.contains_key(k));
                        assert(ob.contains(k));
                        let x = choose|x: int| 0 <= x < ob.len() && ob[x] == k;
                        assert(self.order@[x] == k);
                    }
                }
            }
        } else {
            let ghost mb = self.map@;
            self.map.insert(key, (from, now));
            proof {
                assert(self.map@ =~= mb.insert(key, (from, now)));
                assert(self.map@.dom() =~= mb.dom());
            }
        }
    }

    /// Drop every registration older than the TTL at `now`.
    fn expire(&mut self, now: u64)
        ensures
            final(self)@ == (RendezvousView { map: fresh_entries(old(self)@.map, now, old(self)@.ttl), ..old(self)@ }),
    {
        let mut stale: Vec<(u128, u128)> = Vec::new();
        for kv in it: self.map.iter()
            invariant
                it.seq() == spec_btree_map_iter(&self.map).remaining(),
                forall|k: (u128, u128)| #[trigger] stale@.contains(k) ==> self.map@.contains_key(k) && since(now, self.map@[k].1) >= self.ttl,
                forall|i: int| 0 <= i < it.index() && since(now, (*it.seq()[i].1).1) >= self.ttl ==> stale@.contains(*(#[trigger] it.seq()[i]).0),
        {
            let (k, v) = kv;
            proof {
                let s = spec_btree_map_iter(&self.map).remaining();
                assert(kv == s[it.index() as int]);
                assert(self.map@.contains_key(*s[it.index() as int].0));
            }
            let ghost st = stale@;
            if now.saturating_sub(v.1) >= self.ttl {
                stale.push(*k);
            }
            proof {
                assert forall|j: (u128, u128)| #[trigger] stale@.contains(j) implies st.contains(j) || j == *k by {
                    vstd::seq_lib::lemma_seq_contains_after_push(st, *k, j);
                }
                assert forall|j: (u128, u128)| st.contains(j) implies #[trigger] stale@.contains(j) by {
                    vstd::seq_lib::lemma_seq_contains_after_push(st, *k, j);
                }
                let idx = it.index() as int;
                assert forall|i: int| 0 <= i < idx + 1 && since(now, (*it.seq()[i].1).1) >= self.ttl implies stale@.contains(*(#[trigger] it.seq()[i]).0) by {
                    if i < idx {
                        assert(st.contains(*it.seq()[i].0));
                    } else {
                        assert(it.seq()[i] == kv);
                        vstd::seq_lib::lemma_seq_contains_after_push(st, *k, *k);
                    }
                }
            }
        }
        let ghost s0 = self.map@;
        let mut i: usize = 0;
        while i < stale.len()
            invariant
                i <= stale@.len(),
                forall|k: (u128, u128)| #[trigger] stale@.contains(k) ==> s0.contains_key(k) && since(now, s0[k].1) >= self.ttl,
                forall|k: (u128, u128)| #[trigger] self.map@.contains_key(k) <==> (s0.contains_key(k) && !stale@.take(i as int).contains(k)),
                forall|k: (u128, u128)| #[trigger] self.map@.contains_key(k) ==> self.map@[k] == s0[k],
                self.ttl == old(self).ttl,
                self.cap == old(self).cap,
                self.calls_since_sweep == old(self).calls_since_sweep,
                self.order == old(self).order,
                s0 == old(self)@.map,
            decreases stale@.len() - i,
        {
            let k = stale[i];
            self.map.remove(&k);
            proof {
                assert(stale@.take(i + 1) =~= stale@.take(i as int).push(k));
                assert forall|j: (u128, u128)| stale@.take(i + 1).contains(j) <==> (stale@.take(i as int).contains(j) || j == k) by {
                    vstd::seq_lib::lemma_seq_contains_after_push(stale@.take(i as int), k, j);
                }
            }
            i = i + 1;
        }
        proof {
            assert(stale@.take(i as int) =~= stale@);
            let v = spec_btree_map_iter(&old(self).map).remaining();
            assert forall|k: (u128, u128)| #[trigger] s0.contains_key(k) && since(now, s0[k].1) >= old(self).ttl implies stale@.contains(k) by {
                assert(v.contains((&k, &s0[k])));
                let x = choose|x: int| 0 <= x < v.len() && v[x] == (&k, &s0[k]);
                assert((*v[x].1).1 == s0[k].1);
            }
            assert(self.map@ =~= fresh_entries(s0, now, old(self).ttl));
        }
    }

    /// Decide what to do with one datagram received from `from` at `now`
    /// (ms): register the sender, answer a lookup, or drop it.
    pub fn on_datagram(&mut self, dgram: &[u8], from: SockAddr, now: u64) -> (act: RendezvousAction)
        requires
            old(self).wf(),
        ensures
            final(self).wf(),
            match request_decoding(dgram@) {
                None => act is Ignore && final(self)@ == old(self)@,
                Some((op, token)) => if op == OP_REGISTER {
                    act is Registered && register_step(old(self)@, final(self)@, key256(token), from, now)
                } else {
                    final(self)@ == old(self)@ && (act matches RendezvousAction::Reply(p) && p@ == datagram(
                        PacketType::Rendezvous,
                        reply_body(lookup_result(old(self)@, key256(token), now)),
                    ))
                },
            },
    {
        let (ty, _flags, body) = match decode_outer(dgram) {
            Ok(v) => v,
            Err(_) => return RendezvousAction::Ignore,
        };
        if ty != PacketType::Rendezvous || body.len() < 33 {
            return RendezvousAction::Ignore;
        }
        let op = body[0];
        if op != OP_REGISTER && op != OP_LOOKUP {
            return RendezvousAction::Ignore;
        }
        let key = key256_at(body, 1);
        if op == OP_REGISTER {
            self.register_key(key, from, now);
            return RendezvousAction::Registered;
        }
        let found = self.lookup_key(key, now);
        let mut reply: Vec<u8> = Vec::new();
        reply.push(OP_REPLY);
        match found {
            Some(SockAddr::V4 { ip, port }) => {
                reply.push(1);
                push_v4(&mut reply, ip, port);
                proof {
                    lemma_v4_roundtrip(ip, port, Seq::<u8>::empty());
                }
            },
            _ => {
                reply.push(0);
            },
        }
        proof {
            assert(reply@ =~= reply_body(found));
        }
        match encode_datagram(PacketType::Rendezvous, reply.as_slice()) {
            Ok(pkt) => RendezvousAction::Reply(pkt),
            Err(_) => {
                proof {
                    assert(false);
                }
                RendezvousAction::Ignore
            },
        }
    }
}

/// Replies a lookup reads per asked epoch before it moves on.
pub const LOOKUP_READS: u8 = 8;

/// The lookup datagram for `psk` in epoch `e`.
pub open spec fn lookup_packet(psk: Seq<u8>, e: u64) -> Seq<u8> {
    datagram(PacketType::Rendezvous, request_body(OP_LOOKUP, blake3_of(token_input(psk, e))))
}

/// The epoch a lookup asks about on its attempt `a`: the current one, then
/// the one before (not below 0).
pub open spec fn lookup_epoch(epoch: u64, a: u8) -> u64 {
    if a == 0 { epoch } else if epoch == 0 { 0 } else { (epoch - 1) as u64 }
}

/// What a lookup asks of the socket next.
#[derive(Clone, Debug, PartialEq, Eq)]
pub enum LookupAction {
    /// Send this lookup datagram to the server, then read replies.
    Send(Vec<u8>),
    /// Read the next reply.
    Receive,
    /// The server knows the token: here is the registered address.
    Found(SockAddr),
    /// Neither epoch's token is known; the lookup is over.
    NotFound,
}

/// A client's lookup of a token at a rendezvous server: it asks for the
/// current epoch's token, then the previous epoch's, and for each reads up
/// to [`LOOKUP_READS`] replies, skipping those from other senders; the
/// first reply from the server settles that epoch.
pub struct RendezvousLookup {
    server: SockAddr,
    psk: Vec<u8>,
    epoch: u64,
    attempt: u8,
    reads: u8,
    done: bool,
}

/// Abstract state of a [`RendezvousLookup`].
pub struct LookupView {
    /// The rendezvous server.
    pub server: SockAddr,
    /// The pre-shared secret.
    pub psk: Seq<u8>,
    /// The current epoch (hours).
    pub epoch: u64,
    /// 0 while asking about the current epoch, 1 for the previous one.
    pub attempt: u8,
    /// Replies read for this attempt.
    pub reads: u8,
    /// The lookup is over.
    pub done: bool,
}

impl View for RendezvousLookup {
    type V = LookupView;

    closed spec fn view(&self) -> LookupView {
        LookupView {
            server: self.server,
            psk: self.psk@,
            epoch: self.epoch,
            attempt: self.attempt,
            reads: self.reads,
            done: self.done,
        }
    }
}

/// The lookup after attempt `o.attempt` ends without an answer: the second
/// attempt starts, or, after it, the lookup is over.
pub open spec fn lookup_next(o: LookupView, n: LookupView, act: LookupAction) -> bool {
    if o.attempt == 0 {
        n == (LookupView { attempt: 1, reads: 0, ..o }) && (act matches LookupAction::Send(w) && w@ == lookup_packet(
            o.psk,
            lookup_epoch(o.epoch, 1),
        ))
    } else {
        n == (LookupView { done: true, ..o }) && act == LookupAction::NotFound
    }
}

impl RendezvousLookup {
    /// Attempt and read counts stay in range.
    pub closed spec fn wf(&self) -> bool {
        self.attempt <= 1 && self.reads < LOOKUP_READS
    }

    /// Start a lookup of the token of `psk` at `server`, in epoch `epoch`
    /// (hours) first: the first datagram to send.
    pub fn start(server: SockAddr, psk: &[u8], epoch: u64) -> (r: (RendezvousLookup, LookupAction))
        ensures
            r.0.wf(),
            r.0@ == (LookupView { server, psk: psk@, epoch, attempt: 0, reads: 0, done: false }),
            r.1 matches LookupAction::Send(w) && w@ == lookup_packet(psk@, epoch),
    {
        let l = RendezvousLookup { server, psk: vstd::slice::slice_to_vec(psk), epoch, attempt: 0, reads: 0, done: false };
        let w = encode_lookup(&token_from_psk(psk, epoch));
        (l, LookupAction::Send(w))
    }

    /// Take one reply `pkt` read from `from`: a reply from the server
    /// settles the attempt (found, or on to the next); one from elsewhere
    /// is skipped, and the attempt ends after [`LOOKUP_READS`] reads.
    pub fn on_reply(&mut self, pkt: &[u8], from: SockAddr) -> (act: LookupAction)
        requires
            old(self).wf(),
        ensures
            final(self).wf(),
            old(self)@.done ==> act == LookupAction::NotFound && final(self)@ == old(self)@,
            !old(self)@.done && from == old(self)@.server && reply_decoding(pkt@) is Some ==> act
                == LookupAction::Found(reply_decoding(pkt@)->0) && final(self)@ == (LookupView { done: true, ..old(self)@ }),
            !old(self)@.done && from == old(self)@.server && reply_decoding(pkt@) is None ==> lookup_next(
                old(self)@,
                final(self)@,
                act,
            ),
            !old(self)@.done && from != old(self)@.server && old(self)@.reads + 1 < LOOKUP_READS ==> act
                == LookupAction::Receive && final(self)@ == (LookupView { reads: (old(self)@.reads + 1) as u8, ..old(self)@ }),
            !old(self)@.done && from != old(self)@.server && old(self)@.reads + 1 >= LOOKUP_READS ==> lookup_next(
                old(self)@,
                final(self)@,
                act,
            ),
    {
        if self.done {
            return LookupAction::NotFound;
        }
        if from == self.server {
            match decode_reply(pkt) {
                Some(a) => {
                    self.done = true;
                    return LookupAction::Found(a);
                },
                None => return self.next_attempt(),
            }
        }
        if self.reads + 1 < LOOKUP_READS {
            self.reads = self.reads + 1;
            LookupAction::Receive
        } else {
            self.next_attempt()
        }
    }

    /// End the current attempt without an answer.
    fn next_attempt(&mut self) -> (act: LookupAction)
        requires
            old(self).wf(),
            !old(self).done,
        ensures
            final(self).wf(),
            lookup_next(old(self)@, final(self)@, act),
    {
        if self.attempt == 0 {
            self.attempt = 1;
            self.reads = 0;
            let e = self.epoch.saturating_sub(1);
            let w = encode_lookup(&token_from_psk(self.psk.as_slice(), e));
            LookupAction::Send(w)
        } else {
            self.done = true;
            LookupAction::NotFound
        }
    }
}

} // verus!
