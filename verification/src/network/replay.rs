//! Bounded replay cache for forwarders.
//!
//! Stores truncated BLAKE3 of recently forwarded **inner** datagrams with a
//! TTL. This is ephemeral anti-DoS state — not a circuit table.

use std::collections::HashMap;

use vstd::prelude::*;
use vstd::std_specs::hash::spec_hash_map_iter;
use vstd::std_specs::iter::IteratorSpec;

use crate::bytes::{be_value, lemma_be_value_bound, lemma_pow256_le, pow256, read_be};
use crate::crypto::blake3_hash::{blake3_digest, blake3_of};

verus! {

broadcast use vstd::std_specs::hash::group_hash_axioms;

/// Default TTL for remembered packet hashes (milliseconds).
pub const DEFAULT_TTL_MS: u64 = 30_000;

/// Default maximum distinct hashes retained.
pub const DEFAULT_CAP: usize = 4096;

/// How many `accept` calls between full sweeps of stale entries, when not
/// forced sooner by hitting `cap`. Duplicate detection never depends on a
/// sweep having run; this only delays memory reclamation.
pub const SWEEP_EVERY: u32 = 64;

/// The cache key of a datagram: the first 16 bytes of its BLAKE3 hash,
/// read big-endian.
pub open spec fn replay_key(data: Seq<u8>) -> u128 {
    let h = blake3_of(data);
    (be_value(h.subrange(0, 8)) * 0x1_0000_0000_0000_0000 + be_value(h.subrange(8, 16))) as u128
}

/// Time from `then` to `now`, or 0 if `then` is later.
pub open spec fn since(now: u64, then: u64) -> u64 {
    if now >= then {
        (now - then) as u64
    } else {
        0
    }
}

/// Abstract state of a [`ReplayCache`].
pub struct ReplayView {
    /// When each remembered key was last accepted.
    pub seen: Map<u128, u64>,
    /// How long a key is remembered (milliseconds).
    pub ttl: u64,
    /// Capacity.
    pub cap: nat,
    /// Calls since the last sweep.
    pub calls_since_sweep: u32,
}

/// The entries of `seen` still alive at `now`.
pub open spec fn live(seen: Map<u128, u64>, now: u64, ttl: u64) -> Map<u128, u64> {
    Map::new(|k: u128| seen.contains_key(k) && since(now, seen[k]) < ttl, |k: u128| seen[k])
}

/// `k` is an entry of `seen` with the earliest timestamp.
pub open spec fn is_oldest(seen: Map<u128, u64>, k: u128) -> bool {
    seen.contains_key(k) && forall|j: u128| #[trigger] seen.contains_key(j) ==> seen[k] <= seen[j]
}

/// `after` is `before` with one oldest entry dropped and `key` recorded at
/// `now`.
pub open spec fn evicted_one(before: Map<u128, u64>, after: Map<u128, u64>, key: u128, now: u64) -> bool {
    exists|victim: u128| #[trigger] is_oldest(before, victim) && after == before.remove(victim).insert(key, now)
}

/// What one call of `accept(data, now)` does, from state `o` to state `n`
/// with result `r`: a key seen within the TTL is refused and nothing
/// changes; otherwise the key is recorded at `now`, after a sweep of stale
/// entries (every [`SWEEP_EVERY`] calls or at capacity) and, if still at
/// capacity, the eviction of one oldest entry.
pub open spec fn accept_step(o: ReplayView, n: ReplayView, data: Seq<u8>, now: u64, r: bool) -> bool {
    let key = replay_key(data);
    let dup = o.seen.contains_key(key) && since(now, o.seen[key]) < o.ttl;
    let calls = o.calls_since_sweep + 1;
    let sweep = calls >= SWEEP_EVERY || o.seen.dom().len() >= o.cap;
    let swept = if sweep { live(o.seen, now, o.ttl) } else { o.seen };
    &&& r == !dup
    &&& n.ttl == o.ttl
    &&& n.cap == o.cap
    &&& dup ==> n == o
    &&& !dup ==> n.calls_since_sweep == if sweep { 0 } else { calls as u32 }
    &&& !dup ==> if swept.dom().len() >= o.cap && swept.dom().len() > 0 {
        evicted_one(swept, n.seen, key, now)
    } else {
        n.seen == swept.insert(key, now)
    }
}

/// A datagram accepted at `t1` is refused when it comes again at `t2`
/// within the TTL of `t1`.
pub proof fn lemma_replay_refused(
    a: ReplayView,
    b: ReplayView,
    c: ReplayView,
    data: Seq<u8>,
    t1: u64,
    t2: u64,
    r1: bool,
    r2: bool,
)
    requires
        accept_step(a, b, data, t1, r1),
        accept_step(b, c, data, t2, r2),
        r1,
        since(t2, t1) < a.ttl,
    ensures
        !r2,
{
    let key = replay_key(data);
    let calls = a.calls_since_sweep + 1;
    let sweep = calls >= SWEEP_EVERY || a.seen.dom().len() >= a.cap;
    let swept = if sweep { live(a.seen, t1, a.ttl) } else { a.seen };
    if swept.dom().len() >= a.cap && swept.dom().len() > 0 {
        let victim = choose|victim: u128| #[trigger] is_oldest(swept, victim) && b.seen == swept.remove(victim).insert(key, t1);
    }
    assert(b.seen.contains_key(key) && b.seen[key] == t1);
}

/// `vs`, `xs`, `ts`, `rs` are a run of `accept` calls: call `j` takes the
/// cache from `vs[j]` to `vs[j + 1]` on datagram `xs[j]` at time `ts[j]`,
/// answering `rs[j]`.
pub open spec fn replay_run(vs: Seq<ReplayView>, xs: Seq<Seq<u8>>, ts: Seq<u64>, rs: Seq<bool>) -> bool {
    &&& vs.len() == xs.len() + 1
    &&& ts.len() == xs.len()
    &&& rs.len() == xs.len()
    &&& forall|j: int| 0 <= j < xs.len() ==> #[trigger] accept_step(vs[j], vs[j + 1], xs[j], ts[j], rs[j])
}

/// A call removed key `k` while it was still live at `now`: only an
/// eviction to make room does that.
pub open spec fn evicted_live(o: ReplayView, n: ReplayView, k: u128, now: u64) -> bool {
    o.seen.contains_key(k) && !n.seen.contains_key(k) && since(now, o.seen[k]) < o.ttl
}

/// After the accepting call `i`, state `j` either still holds key `k` as
/// recorded at `ts[i]`, or dropped it once it was stale.
spec fn kept_since(vs: Seq<ReplayView>, ts: Seq<u64>, i: int, j: int, k: u128) -> bool {
    &&& vs[j].ttl == vs[i].ttl
    &&& vs[j].seen.contains_key(k) ==> vs[j].seen[k] == ts[i]
    &&& !vs[j].seen.contains_key(k) ==> ts[j - 1] >= ts[i] && ts[j - 1] - ts[i] >= vs[i].ttl
}

proof fn lemma_kept_since(vs: Seq<ReplayView>, xs: Seq<Seq<u8>>, ts: Seq<u64>, rs: Seq<bool>, i: int, j: int, k: u128)
    requires
        replay_run(vs, xs, ts, rs),
        0 <= i < j <= xs.len(),
        rs[i],
        replay_key(xs[i]) == k,
        forall|m: int| i < m < xs.len() ==> !(rs[m] && #[trigger] replay_key(xs[m]) == k),
        forall|m: int, q: int| i <= m <= q < xs.len() ==> ts[m] <= ts[q],
        forall|m: int| i < m < xs.len() ==> !#[trigger] evicted_live(vs[m], vs[m + 1], k, ts[m]),
    ensures
        kept_since(vs, ts, i, j, k),
    decreases j,
{
    if j == i + 1 {
        assert(accept_step(vs[i], vs[i + 1], xs[i], ts[i], rs[i]));
        let o = vs[i];
        let calls = o.calls_since_sweep + 1;
        let sweep = calls >= SWEEP_EVERY || o.seen.dom().len() >= o.cap;
        let swept = if sweep { live(o.seen, ts[i], o.ttl) } else { o.seen };
        if swept.dom().len() >= o.cap && swept.dom().len() > 0 {
            let victim = choose|victim: u128| #[trigger] is_oldest(swept, victim) && vs[i + 1].seen == swept.remove(victim).insert(k, ts[i]);
        }
    } else {
        lemma_kept_since(vs, xs, ts, rs, i, j - 1, k);
        let m = j - 1;
        assert(accept_step(vs[m], vs[m + 1], xs[m], ts[m], rs[m]));
        assert(!evicted_live(vs[m], vs[m + 1], k, ts[m]));
        assert(ts[m - 1] <= ts[m]);
        let o = vs[m];
        let key = replay_key(xs[m]);
        if rs[m] {
            assert(key != k);
            let calls = o.calls_since_sweep + 1;
            let sweep = calls >= SWEEP_EVERY || o.seen.dom().len() >= o.cap;
            let swept = if sweep { live(o.seen, ts[m], o.ttl) } else { o.seen };
            if swept.dom().len() >= o.cap && swept.dom().len() > 0 {
                let victim = choose|victim: u128| #[trigger] is_oldest(swept, victim) && vs[m + 1].seen == swept.remove(victim).insert(key, ts[m]);
            }
            if o.seen.contains_key(k) && !vs[m + 1].seen.contains_key(k) {
                assert(since(ts[m], o.seen[k]) >= o.ttl);
            }
        }
    }
}

/// What the cache answers over a history: a datagram is refused exactly
/// when its key was last accepted at some `t` with `now - t` under the TTL,
/// whether or not a sweep ran in between, as long as no eviction to make
/// room removed that record while it was live (refused calls change
/// nothing, so they do not refresh it). Times must not go backwards.
pub proof fn lemma_replay_history(
    vs: Seq<ReplayView>,
    xs: Seq<Seq<u8>>,
    ts: Seq<u64>,
    rs: Seq<bool>,
    i: int,
    x: Seq<u8>,
    now: u64,
    n: ReplayView,
    r: bool,
)
    requires
        replay_run(vs, xs, ts, rs),
        0 <= i < xs.len(),
        rs[i],
        replay_key(xs[i]) == replay_key(x),
        forall|m: int| i < m < xs.len() ==> !(rs[m] && #[trigger] replay_key(xs[m]) == replay_key(x)),
        forall|m: int, q: int| i <= m <= q < xs.len() ==> ts[m] <= ts[q],
        now >= ts[xs.len() - 1],
        forall|m: int| i < m < xs.len() ==> !#[trigger] evicted_live(vs[m], vs[m + 1], replay_key(x), ts[m]),
        accept_step(vs.last(), n, x, now, r),
    ensures
        r == !(since(now, ts[i]) < vs[i].ttl),
{
    let l = xs.len() as int;
    lemma_kept_since(vs, xs, ts, rs, i, l, replay_key(x));
    assert(vs.last() == vs[l]);
    assert(ts[i] <= ts[l - 1]);
}

/// Stale entries are reclaimed at least once every [`SWEEP_EVERY`]
/// accepting calls: in any run of that many accepting calls from a
/// well-formed cache, one call sweeps, after which every entry but the key
/// it recorded is live at that call's time.
pub proof fn lemma_reclaims_within_sweep_period(vs: Seq<ReplayView>, xs: Seq<Seq<u8>>, ts: Seq<u64>, rs: Seq<bool>)
    requires
        replay_run(vs, xs, ts, rs),
        xs.len() >= SWEEP_EVERY,
        vs[0].calls_since_sweep < SWEEP_EVERY,
        forall|j: int| 0 <= j < xs.len() ==> #[trigger] rs[j],
    ensures
        exists|j: int|
            0 <= j < SWEEP_EVERY && #[trigger] vs[j + 1].calls_since_sweep == 0 && forall|k: u128|
                vs[j + 1].seen.contains_key(k) && k != replay_key(xs[j]) ==> since(ts[j], #[trigger] vs[j + 1].seen[k]) < vs[j].ttl,
{
    let j = lemma_first_sweep(vs, xs, ts, rs, 0);
    let o = vs[j];
    assert(accept_step(vs[j], vs[j + 1], xs[j], ts[j], rs[j]));
    let key = replay_key(xs[j]);
    let swept = live(o.seen, ts[j], o.ttl);
    if swept.dom().len() >= o.cap && swept.dom().len() > 0 {
        let victim = choose|victim: u128| #[trigger] is_oldest(swept, victim) && vs[j + 1].seen == swept.remove(victim).insert(key, ts[j]);
    }
    assert forall|k: u128| vs[j + 1].seen.contains_key(k) && k != key implies since(ts[j], #[trigger] vs[j + 1].seen[k]) < vs[j].ttl by {
        assert(swept.contains_key(k));
    }
}

/// The first call from `j0` on that sweeps: while none does, the counter
/// climbs by one per accepting call, and it sweeps when it reaches
/// [`SWEEP_EVERY`].
proof fn lemma_first_sweep(vs: Seq<ReplayView>, xs: Seq<Seq<u8>>, ts: Seq<u64>, rs: Seq<bool>, j0: int) -> (j: int)
    requires
        replay_run(vs, xs, ts, rs),
        0 <= j0,
        j0 + SWEEP_EVERY - vs[j0].calls_since_sweep <= SWEEP_EVERY,
        j0 + SWEEP_EVERY - vs[j0].calls_since_sweep <= xs.len(),
        vs[j0].calls_since_sweep < SWEEP_EVERY,
        forall|m: int| 0 <= m < xs.len() ==> #[trigger] rs[m],
    ensures
        j0 <= j < SWEEP_EVERY,
        vs[j + 1].calls_since_sweep == 0,
        ({
            let o = vs[j];
            o.calls_since_sweep + 1 >= SWEEP_EVERY || o.seen.dom().len() >= o.cap
        }),
    decreases SWEEP_EVERY - vs[j0].calls_since_sweep,
{
    let o = vs[j0];
    assert(accept_step(vs[j0], vs[j0 + 1], xs[j0], ts[j0], rs[j0]));
    assert(rs[j0]);
    let calls = o.calls_since_sweep + 1;
    let sweep = calls >= SWEEP_EVERY || o.seen.dom().len() >= o.cap;
    if sweep {
        j0
    } else {
        lemma_first_sweep(vs, xs, ts, rs, j0 + 1)
    }
}

/// Hash-and-TTL replay filter.
pub struct ReplayCache {
    seen: HashMap<u128, u64>,
    ttl: u64,
    cap: usize,
    calls_since_sweep: u32,
}

impl View for ReplayCache {
    type V = ReplayView;

    closed spec fn view(&self) -> ReplayView {
        ReplayView { seen: self.seen@, ttl: self.ttl, cap: self.cap as nat, calls_since_sweep: self.calls_since_sweep }
    }
}

impl Default for ReplayCache {
    fn default() -> (c: Self)
        ensures
            c.wf(),
            c@ == (ReplayView { seen: Map::empty(), ttl: DEFAULT_TTL_MS, cap: DEFAULT_CAP as nat, calls_since_sweep: 0 }),
    {
        ReplayCache::new()
    }
}

impl ReplayCache {
    /// The cache holds at most `max(cap, 1)` keys and sweeps at least every
    /// [`SWEEP_EVERY`] calls.
    pub closed spec fn wf(&self) -> bool {
        &&& self.seen@.dom().len() <= if self.cap == 0 { 1 } else { self.cap as nat }
        &&& self.calls_since_sweep < SWEEP_EVERY
    }

    /// New cache with default TTL and capacity.
    pub fn new() -> (c: Self)
        ensures
            c.wf(),
            c@ == (ReplayView { seen: Map::empty(), ttl: DEFAULT_TTL_MS, cap: DEFAULT_CAP as nat, calls_since_sweep: 0 }),
    {
        Self::with_bounds(DEFAULT_TTL_MS, DEFAULT_CAP)
    }

    /// Construct with explicit bounds (TTL in milliseconds).
    pub fn with_bounds(ttl: u64, cap: usize) -> (c: Self)
        ensures
            c.wf(),
            c@ == (ReplayView { seen: Map::empty(), ttl, cap: cap as nat, calls_since_sweep: 0 }),
    {
        let c = Self { seen: HashMap::new(), ttl, cap, calls_since_sweep: 0 };
        assert(c.seen@.dom() =~= Set::<u128>::empty());
        c
    }

    /// Returns `true` if `inner` was not seen within the TTL before `now`
    /// (milliseconds), and records it.
    pub fn accept(&mut self, inner: &[u8], now: u64) -> (r: bool)
        requires
            old(self).wf(),
        ensures
            final(self).wf(),
            accept_step(old(self)@, final(self)@, inner@, now, r),
    {
        let h = blake3_digest(inner);
        let hi = read_be(&h, 0, 8);
        let lo = read_be(&h, 8, 8);
        proof {
            lemma_be_value_bound(h@.subrange(0, 8));
            lemma_be_value_bound(h@.subrange(8, 16));
            reveal_with_fuel(pow256, 9);
        }
        let key: u128 = (hi as u128) * 0x1_0000_0000_0000_0000u128 + lo as u128;
        assert(key == replay_key(inner@));
        let ghost o = old(self)@;
        let live_duplicate = match self.seen.get(&key) {
            Some(seen_at) => now.saturating_sub(*seen_at) < self.ttl,
            None => false,
        };
        if live_duplicate {
            return false;
        }
        self.calls_since_sweep = self.calls_since_sweep + 1;
        if self.calls_since_sweep >= SWEEP_EVERY || self.seen.len() >= self.cap {
            self.calls_since_sweep = 0;
            self.expire(now);
        }
        let ghost swept = self.seen@;
        proof {
            let sweep = o.calls_since_sweep + 1 >= SWEEP_EVERY || o.seen.dom().len() >= o.cap;
            assert(swept == if sweep { live(o.seen, now, o.ttl) } else { o.seen });
            assert(swept.dom().subset_of(o.seen.dom()));
            vstd::set_lib::lemma_len_subset(swept.dom(), o.seen.dom());
        }
        if self.seen.len() >= self.cap {
            match self.oldest() {
                Some(victim) => {
                    assert(is_oldest(swept, victim));
                    self.seen.remove(&victim);
                    proof {
                        assert(self.seen@ == swept.remove(victim));
                        assert(self.seen@.dom().len() == swept.dom().len() - 1);
                    }
                    self.seen.insert(key, now);
                    proof {
                        assert(self.seen@ == swept.remove(victim).insert(key, now));
                        assert(self.seen@.dom() =~= swept.dom().remove(victim).insert(key));
                        assert(evicted_one(swept, self@.seen, key, now));
                    }
                    return true;
                },
                None => {},
            }
        }
        self.seen.insert(key, now);
        proof {
            assert(self.seen@.dom() =~= swept.dom().insert(key));
        }
        true
    }

    /// A key with the earliest timestamp, if any.
    fn oldest(&self) -> (v: Option<u128>)
        ensures
            v is None <==> self.seen@.dom().len() == 0,
            v matches Some(k) ==> is_oldest(self.seen@, k),
    {
        let mut best: Option<(u128, u64)> = None;
        for kv in it: self.seen.iter()
            invariant
                it.seq() == spec_hash_map_iter(&self.seen).remaining(),
                best is None <==> it.index() == 0,
                best matches Some(b) ==> self.seen@.contains_key(b.0) && self.seen@[b.0] == b.1,
                best matches Some(b) ==> forall|i: int| 0 <= i < it.index() ==> b.1 <= *(#[trigger] it.seq()[i]).1,
        {
            let (k, t) = kv;
            best = match best {
                None => Some((*k, *t)),
                Some(b) => if *t < b.1 {
                    Some((*k, *t))
                } else {
                    Some(b)
                },
            };
        }
        proof {
            let v = spec_hash_map_iter(&self.seen).remaining();
            if v.len() == 0 {
                assert(self.seen@.dom().len() == 0);
            }
            if let Some(b) = best {
                assert forall|j: u128| #[trigger] self.seen@.contains_key(j) implies self.seen@[b.0] <= self.seen@[j] by {
                    assert(v.contains((&j, &self.seen@[j])));
                    let i = choose|i: int| 0 <= i < v.len() && v[i] == (&j, &self.seen@[j]);
                    assert(b.1 <= *v[i].1);
                }
            }
        }
        match best {
            Some(b) => Some(b.0),
            None => None,
        }
    }

    /// Drop every entry older than the TTL at `now`.
    fn expire(&mut self, now: u64)
        ensures
            final(self)@ == (ReplayView { seen: live(old(self)@.seen, now, old(self)@.ttl), ..old(self)@ }),
    {
        let mut stale: Vec<u128> = Vec::new();
        for kv in it: self.seen.iter()
            invariant
                it.seq() == spec_hash_map_iter(&self.seen).remaining(),
                forall|k: u128| #[trigger] stale@.contains(k) ==> self.seen@.contains_key(k) && since(now, self.seen@[k]) >= self.ttl,
                forall|i: int| 0 <= i < it.index() && since(now, *it.seq()[i].1) >= self.ttl ==> stale@.contains(*(#[trigger] it.seq()[i]).0),
        {
            let (k, t) = kv;
            proof {
                let v = spec_hash_map_iter(&self.seen).remaining();
                assert(kv == v[it.index() as int]);
                assert(self.seen@.contains_key(*v[it.index() as int].0));
            }
            let ghost st = stale@;
            if now.saturating_sub(*t) >= self.ttl {
                stale.push(*k);
            }
            proof {
                assert forall|j: u128| #[trigger] stale@.contains(j) implies st.contains(j) || j == *k by {
                    vstd::seq_lib::lemma_seq_contains_after_push(st, *k, j);
                }
                assert forall|j: u128| st.contains(j) implies #[trigger] stale@.contains(j) by {
                    vstd::seq_lib::lemma_seq_contains_after_push(st, *k, j);
                }
                let idx = it.index() as int;
                assert forall|i: int| 0 <= i < idx + 1 && since(now, *it.seq()[i].1) >= self.ttl implies stale@.contains(*(#[trigger] it.seq()[i]).0) by {
                    if i < idx {
                        assert(st.contains(*it.seq()[i].0));
                    } else {
                        assert(it.seq()[i] == kv);
                        vstd::seq_lib::lemma_seq_contains_after_push(st, *k, *k);
                    }
                }
            }
        }
        let ghost s0 = self.seen@;
        let mut i: usize = 0;
        while i < stale.len()
            invariant
                i <= stale@.len(),
                forall|k: u128| #[trigger] stale@.contains(k) ==> s0.contains_key(k) && since(now, s0[k]) >= self.ttl,
                forall|k: u128| #[trigger] self.seen@.contains_key(k) <==> (s0.contains_key(k) && !stale@.take(i as int).contains(k)),
                forall|k: u128| #[trigger] self.seen@.contains_key(k) ==> self.seen@[k] == s0[k],
                self.ttl == old(self).ttl,
                self.cap == old(self).cap,
                self.calls_since_sweep == old(self).calls_since_sweep,
                s0 == old(self)@.seen,
            decreases stale@.len() - i,
        {
            let k = stale[i];
            self.seen.remove(&k);
            proof {
                assert(stale@.take(i + 1) =~= stale@.take(i as int).push(k));
                assert forall|j: u128| stale@.take(i + 1).contains(j) <==> (stale@.take(i as int).contains(j) || j == k) by {
                    vstd::seq_lib::lemma_seq_contains_after_push(stale@.take(i as int), k, j);
                }
            }
            i = i + 1;
        }
        proof {
            assert(stale@.take(i as int) =~= stale@);
            let v = spec_hash_map_iter(&old(self).seen).remaining();
            assert forall|k: u128| #[trigger] s0.contains_key(k) && since(now, s0[k]) >= old(self).ttl implies stale@.contains(k) by {
                assert(v.contains((&k, &s0[k])));
                let x = choose|x: int| 0 <= x < v.len() && v[x] == (&k, &s0[k]);
                assert(*v[x].1 == s0[k]);
            }
            assert(self.seen@ =~= live(s0, now, old(self).ttl));
        }
    }

    /// The cache never holds more than `max(cap, 1)` keys.
    pub proof fn lemma_bounded(&self)
        requires
            self.wf(),
        ensures
            self@.seen.dom().len() <= if self@.cap == 0 { 1 } else { self@.cap },
    {
    }

    /// Occupancy.
    pub fn len(&self) -> (n: usize)
        ensures
            n == self@.seen.dom().len(),
    {
        self.seen.len()
    }

    /// Empty?
    pub fn is_empty(&self) -> (b: bool)
        ensures
            b == (self@.seen.dom().len() == 0),
    {
        self.seen.len() == 0
    }
}

} // verus!
