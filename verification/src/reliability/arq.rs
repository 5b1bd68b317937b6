//! Selective-repeat ARQ with pre-encryption fragmentation.

use std::collections::BTreeMap;
use std::collections::HashMap;
use std::collections::VecDeque;

use vstd::prelude::*;
use vstd::std_specs::btree::{increasing_seq, spec_keys_iter};
use vstd::std_specs::cmp::OrdSpec;
use vstd::std_specs::iter::IteratorSpec;
use vstd::slice::slice_subrange;

use crate::reliability::frame::{ack_frame, data_frame, decode_inner, encode_ack, encode_data, inner_decoding, FrameError, FrameView, InnerFrame, ACK_LEN, MAX_PAYLOAD};

verus! {

broadcast use vstd::std_specs::btree::group_btree_axioms, vstd::std_specs::hash::group_hash_axioms, vstd::laws_cmp::group_laws_cmp;

/// Sliding window (packets).
pub const WINDOW_SIZE: u32 = 32;

/// Default retransmit timeout (milliseconds).
pub const DEFAULT_RETX_MS: u64 = 200;

/// Default give-up after this many sends (the first send plus retries).
pub const DEFAULT_MAX_ATTEMPTS: u8 = 5;

/// Maximum number of distinct in-progress fragment reassemblies kept at
/// once. A peer that completed the handshake could otherwise send fragments
/// under ever new `frag_id`s and never complete any of them. Oldest-inserted
/// entries are evicted once this cap is reached.
pub const MAX_PENDING_FRAGMENTS: usize = 64;

/// Receive window width in sequence numbers (bits of the ACK bitmap).
pub const RECV_WINDOW: u32 = 64;

/// ARQ errors.
#[derive(Clone, Copy, Debug, PartialEq, Eq, Structural)]
pub enum ArqError {
    /// Application message exceeds 255 fragments of `max_fragment` bytes.
    TooLarge,
    /// Inner frame codec.
    Frame(FrameError),
}

impl From<FrameError> for ArqError {
    fn from(e: FrameError) -> (r: Self) {
        ArqError::Frame(e)
    }
}

impl vstd::std_specs::convert::FromSpecImpl<FrameError> for ArqError {
    open spec fn obeys_from_spec() -> bool {
        true
    }

    open spec fn from_spec(v: FrameError) -> ArqError {
        ArqError::Frame(v)
    }
}

/// Give-up after too many retransmits.
#[derive(Clone, Copy, Debug, PartialEq, Eq, Structural)]
pub struct ArqGiveUp {
    /// Sequence that exhausted retries.
    pub seq: u32,
    /// Attempts used.
    pub attempts: u8,
}

struct Outgoing {
    plaintext: Vec<u8>,
    last_sent: Option<u64>,
    attempts: u8,
}

struct FragBuf {
    total: u8,
    parts: Vec<Option<Vec<u8>>>,
}

/// One queued DATA frame as the sender tracks it.
pub struct OutgoingView {
    /// Inner plaintext to seal on every (re)send.
    pub plaintext: Seq<u8>,
    /// When it was last sent (milliseconds), if ever.
    pub last_sent: Option<u64>,
    /// How many times it has been sent.
    pub attempts: u8,
}

/// One in-progress reassembly.
pub struct FragView {
    /// Fragment count announced by the sender.
    pub total: u8,
    /// Received fragment payloads by index.
    pub parts: Seq<Option<Seq<u8>>>,
}

/// Abstract state of an [`Arq`].
pub struct ArqView {
    /// Sequence number of the next queued DATA frame.
    pub next_seq: u32,
    /// Identifier of the next fragmented message (never 0).
    pub next_frag_id: u16,
    /// Queued, not yet acknowledged DATA frames by sequence number.
    pub unacked: Map<u32, OutgoingView>,
    /// Lowest sequence number not yet received.
    pub recv_base: u32,
    /// Bit `i` set: `recv_base + i` received.
    pub recv_bits: u64,
    /// In-progress reassemblies by fragment identifier.
    pub fragments: Map<u16, FragView>,
    /// Insertion order of reassemblies, for FIFO eviction (may hold stale ids).
    pub fragment_order: Seq<u16>,
    /// Complete application messages not yet popped.
    pub delivered: Seq<Seq<u8>>,
    /// An ACK is owed to the peer.
    pub pending_ack: bool,
    /// Give up after this many sends.
    pub max_attempts: u8,
    /// Retransmit timeout (milliseconds).
    pub retx: u64,
    /// Outgoing fragment payload cap.
    pub max_fragment: nat,
}

impl Outgoing {
    spec fn view(&self) -> OutgoingView {
        OutgoingView { plaintext: self.plaintext@, last_sent: self.last_sent, attempts: self.attempts }
    }
}

/// A received fragment slot as a sequence.
pub open spec fn part_view(p: Option<Vec<u8>>) -> Option<Seq<u8>> {
    match p {
        Some(v) => Some(v@),
        None => None,
    }
}

impl FragBuf {
    spec fn view(&self) -> FragView {
        FragView { total: self.total, parts: self.parts@.map_values(|p: Option<Vec<u8>>| part_view(p)) }
    }
}

/// Endpoint ARQ state machine.
pub struct Arq {
    next_seq: u32,
    next_frag_id: u16,
    unacked: BTreeMap<u32, Outgoing>,
    recv_base: u32,
    recv_bits: u64,
    fragments: HashMap<u16, FragBuf>,
    fragment_order: VecDeque<u16>,
    delivered: VecDeque<Vec<u8>>,
    pending_ack: bool,
    max_attempts: u8,
    retx: u64,
    max_fragment: usize,
}

impl View for Arq {
    type V = ArqView;

    closed spec fn view(&self) -> ArqView {
        ArqView {
            next_seq: self.next_seq,
            next_frag_id: self.next_frag_id,
            unacked: Map::new(
                |k: u32| self.unacked@.contains_key(k),
                |k: u32| self.unacked@[k].view(),
            ),
            recv_base: self.recv_base,
            recv_bits: self.recv_bits,
            fragments: Map::new(
                |k: u16| self.fragments@.contains_key(k),
                |k: u16| self.fragments@[k].view(),
            ),
            fragment_order: self.fragment_order@,
            delivered: self.delivered@.map_values(|v: Vec<u8>| v@),
            pending_ack: self.pending_ack,
            max_attempts: self.max_attempts,
            retx: self.retx,
            max_fragment: self.max_fragment as nat,
        }
    }
}

/// `a - b` modulo 2^32: how far sequence `a` lies ahead of `b`.
pub open spec fn seq_dist(a: u32, b: u32) -> nat {
    if a >= b {
        (a - b) as nat
    } else {
        (a - b + 0x1_0000_0000) as nat
    }
}

/// `a + n` modulo 2^32.
pub open spec fn seq_add(a: u32, n: nat) -> u32 {
    ((a as nat + n) % 0x1_0000_0000) as u32
}

/// Bit `i` of `bits`.
pub open spec fn bit_set(bits: u64, i: u64) -> bool {
    (bits >> i) & 1u64 == 1u64
}

/// Whether an ACK `(base, bitmap)` acknowledges `seq`: inside its 64-wide
/// window by the bitmap, below the window (within a million) implicitly.
pub open spec fn is_acked(base: u32, bitmap: u64, seq: u32) -> bool {
    let ahead = seq_dist(seq, base);
    if ahead < 64 {
        bit_set(bitmap, ahead as u64)
    } else {
        let behind = seq_dist(base, seq);
        0 < behind && behind < 1_000_000
    }
}

/// Slide a receive window past every received sequence at its base.
pub open spec fn slide(base: u32, bits: u64) -> (u32, u64)
    decreases bits,
{
    if bits % 2 == 1 {
        slide(seq_add(base, 1), bits / 2)
    } else {
        (base, bits)
    }
}

/// The set of received sequence numbers a window `(base, bits)` records.
pub open spec fn window_has(base: u32, bits: u64, seq: u32) -> bool {
    seq_dist(seq, base) < 64 && bit_set(bits, seq_dist(seq, base) as u64)
}

impl Default for Arq {
    fn default() -> (a: Self)
        ensures
            a.wf(),
            a@.next_seq == 0,
            a@.next_frag_id == 1,
            a@.unacked == Map::<u32, OutgoingView>::empty(),
            a@.recv_base == 0,
            a@.recv_bits == 0,
            a@.fragments == Map::<u16, FragView>::empty(),
            a@.fragment_order == Seq::<u16>::empty(),
            a@.delivered == Seq::<Seq<u8>>::empty(),
            !a@.pending_ack,
            a@.max_attempts == DEFAULT_MAX_ATTEMPTS,
            a@.retx == DEFAULT_RETX_MS,
            a@.max_fragment == MAX_PAYLOAD,
    {
        Arq::new()
    }
}

impl Arq {
    /// Internal consistency: every reassembly is tracked in the eviction
    /// order, there are at most [`MAX_PENDING_FRAGMENTS`] of them, each has
    /// one slot per announced fragment, and the fragment cap is in range.
    pub closed spec fn wf(&self) -> bool {
        &&& forall|k: u16| #[trigger] self@.fragments.contains_key(k) ==> self@.fragment_order.contains(k)
        &&& self@.fragments.dom().len() <= MAX_PENDING_FRAGMENTS
        &&& forall|k: u16| #[trigger] self@.fragments.contains_key(k) ==> self@.fragments[k].parts.len() == self@.fragments[k].total as nat
        &&& 1 <= self.max_fragment <= MAX_PAYLOAD
    }

    /// New ARQ state.
    pub fn new() -> (a: Self)
        ensures
            a.wf(),
            a@.next_seq == 0,
            a@.next_frag_id == 1,
            a@.unacked == Map::<u32, OutgoingView>::empty(),
            a@.recv_base == 0,
            a@.recv_bits == 0,
            a@.fragments == Map::<u16, FragView>::empty(),
            a@.fragment_order == Seq::<u16>::empty(),
            a@.delivered == Seq::<Seq<u8>>::empty(),
            !a@.pending_ack,
            a@.max_attempts == DEFAULT_MAX_ATTEMPTS,
            a@.retx == DEFAULT_RETX_MS,
            a@.max_fragment == MAX_PAYLOAD,
    {
        let a = Self {
            next_seq: 0,
            next_frag_id: 1,
            unacked: BTreeMap::new(),
            recv_base: 0,
            recv_bits: 0,
            fragments: HashMap::new(),
            fragment_order: VecDeque::new(),
            delivered: VecDeque::new(),
            pending_ack: false,
            max_attempts: DEFAULT_MAX_ATTEMPTS,
            retx: DEFAULT_RETX_MS,
            max_fragment: MAX_PAYLOAD,
        };
        assert(a@.unacked =~= Map::<u32, OutgoingView>::empty());
        assert(a@.fragments =~= Map::<u16, FragView>::empty());
        assert(a@.delivered =~= Seq::<Seq<u8>>::empty());
        a
    }

    /// Cap outgoing fragment payloads at `n` bytes (clamped to
    /// `1..=MAX_PAYLOAD`). Only affects this side's sending; the receiver
    /// reassembles fragments of any size.
    pub fn set_max_fragment(&mut self, n: usize)
        requires
            old(self).wf(),
        ensures
            final(self).wf(),
            final(self)@ == (ArqView {
                max_fragment: if n < 1 { 1 } else if n > MAX_PAYLOAD { MAX_PAYLOAD as nat } else { n as nat },
                ..old(self)@
            }),
    {
        self.max_fragment = if n < 1 {
            1
        } else if n > MAX_PAYLOAD {
            MAX_PAYLOAD
        } else {
            n
        };
    }

    /// Current outgoing fragment payload cap.
    pub fn max_fragment(&self) -> (n: usize)
        ensures
            n == self@.max_fragment,
    {
        self.max_fragment
    }

    /// Set the retransmit timeout (milliseconds).
    pub fn set_retx(&mut self, ms: u64)
        requires
            old(self).wf(),
        ensures
            final(self).wf(),
            final(self)@ == (ArqView { retx: ms, ..old(self)@ }),
    {
        self.retx = ms;
    }

    /// Number of queued frames not yet acknowledged.
    pub fn unacked_len(&self) -> (n: usize)
        ensures
            n == self@.unacked.dom().len(),
    {
        let n = self.unacked.len();
        assert(self@.unacked.dom() =~= self.unacked@.dom());
        n
    }

    /// The send queue is finite, whatever state the ARQ is in.
    pub proof fn lemma_queue_finite(&self)
        ensures
            self@.unacked.dom().finite(),
    {
        assert(self@.unacked.dom() =~= self.unacked@.dom());
    }

    /// However many calls it took to get here, at most
    /// [`MAX_PENDING_FRAGMENTS`] reassemblies are pending: every operation
    /// keeps `wf`.
    pub proof fn lemma_pending_bounded(&self)
        requires
            self.wf(),
        ensures
            self@.fragments.dom().len() <= MAX_PENDING_FRAGMENTS,
    {
    }

    /// Number of reassemblies in progress.
    pub fn pending_reassemblies(&self) -> (n: usize)
        ensures
            n == self@.fragments.dom().len(),
    {
        let n = self.fragments.len();
        assert(self@.fragments.dom() =~= self.fragments@.dom());
        n
    }

    /// Pop a fully reassembled application message.
    pub fn pop_delivered(&mut self) -> (m: Option<Vec<u8>>)
        requires
            old(self).wf(),
        ensures
            final(self).wf(),
            old(self)@.delivered.len() == 0 ==> m is None && final(self)@ == old(self)@,
            old(self)@.delivered.len() > 0 ==> (m matches Some(v) && v@ == old(self)@.delivered[0]
                && final(self)@ == (ArqView { delivered: old(self)@.delivered.drop_first(), ..old(self)@ })),
            pop_step(old(self)@, final(self)@, match m {
                Some(v) => Some(v@),
                None => None::<Seq<u8>>,
            }),
    {
        let m = self.delivered.pop_front();
        proof {
            assert(self@.delivered =~= old(self)@.delivered.drop_first() || old(self)@.delivered.len() == 0);
            if old(self)@.delivered.len() == 0 {
                assert(self@.delivered =~= old(self)@.delivered);
            }
        }
        m
    }

    /// An ACK plaintext for the current receive window, if one is owed.
    pub fn take_ack(&mut self) -> (a: Option<[u8; ACK_LEN]>)
        requires
            old(self).wf(),
        ensures
            final(self).wf(),
            old(self)@.pending_ack ==> (a matches Some(b) && b@ == ack_frame(old(self)@.recv_base, old(self)@.recv_bits)),
            !old(self)@.pending_ack ==> a is None,
            final(self)@ == (ArqView { pending_ack: false, ..old(self)@ }),
            ack_step(old(self)@, final(self)@, match a {
                Some(b) => Some(b@),
                None => None::<Seq<u8>>,
            }),
    {
        if !self.pending_ack {
            return None;
        }
        self.pending_ack = false;
        Some(encode_ack(self.recv_base, self.recv_bits))
    }
}

/// What queuing message `m` does, from state `o` to state `n` with result
/// `r`: an empty message is one unfragmented frame; a longer one is cut
/// into fragments of at most `max_fragment` bytes, refused when that makes
/// more than 255.
pub open spec fn enqueue_step(o: ArqView, n: ArqView, m: Seq<u8>, r: Result<(), ArqError>) -> bool {
    &&& m.len() == 0 ==> r is Ok && n == (ArqView {
        next_seq: seq_add(o.next_seq, 1),
        unacked: o.unacked.insert(o.next_seq, fresh(data_frame(o.next_seq, 0, 0, 1, m))),
        ..o
    })
    &&& m.len() > 0 && fragments_of(m, o.max_fragment).len() > 255 ==> r == Err::<(), ArqError>(ArqError::TooLarge) && n == o
    &&& m.len() > 0 && fragments_of(m, o.max_fragment).len() <= 255 ==> r is Ok && n == (ArqView {
        next_seq: seq_add(o.next_seq, fragments_of(m, o.max_fragment).len()),
        next_frag_id: frag_id_after(o.next_frag_id),
        unacked: queued(
            o.unacked,
            o.next_seq,
            o.next_frag_id,
            fragments_of(m, o.max_fragment),
            fragments_of(m, o.max_fragment).len(),
        ),
        ..o
    })
}

/// The state after handing out the never-sent frames that fit the window:
/// they are marked sent at `now`.
pub open spec fn new_sends_state(o: ArqView, now: u64) -> ArqView {
    ArqView {
        unacked: Map::new(
            |k: u32| o.unacked.contains_key(k),
            |k: u32|
                if unsent_keys(o.unacked).take(new_send_count(o.unacked) as int).contains(k) {
                    first_sent(o.unacked[k], now)
                } else {
                    o.unacked[k]
                },
        ),
        ..o
    }
}

/// The frames handed out for a first send: the never-sent ones that fit
/// the window, in sequence order.
pub open spec fn new_sends(o: ArqView) -> Seq<Seq<u8>> {
    Seq::new(new_send_count(o.unacked), |j: int| o.unacked[unsent_keys(o.unacked)[j]].plaintext)
}

/// What a retransmit pass at `now` does, from state `o` to state `n` with
/// result `r`: the due frames, in sequence order, are resent, unless one
/// has used up its attempts first; then that one is reported and the frames
/// before it stay resent.
pub open spec fn retransmit_step(o: ArqView, n: ArqView, now: u64, r: Result<Seq<Seq<u8>>, ArqGiveUp>) -> bool {
    let u = o.unacked;
    let d = due_keys(u, now, o.retx);
    let g = first_exhausted(d, u, o.max_attempts);
    &&& g < d.len() ==> r == Err::<Seq<Seq<u8>>, ArqGiveUp>(ArqGiveUp { seq: d[g as int], attempts: u[d[g as int]].attempts })
    &&& g >= d.len() ==> r == Ok::<Seq<Seq<u8>>, ArqGiveUp>(Seq::new(d.len(), |j: int| u[d[j]].plaintext))
    &&& n == (ArqView {
        unacked: Map::new(
            |k: u32| u.contains_key(k),
            |k: u32| if d.take(g as int).contains(k) { resent(u[k], now) } else { u[k] },
        ),
        ..o
    })
}

/// What a retransmit pass at `now` answers in state `o`: the first due
/// frame that has used up its attempts, else the due frames' plaintexts in
/// sequence order.
pub open spec fn retransmit_result(o: ArqView, now: u64) -> Result<Seq<Seq<u8>>, ArqGiveUp> {
    let u = o.unacked;
    let d = due_keys(u, now, o.retx);
    let g = first_exhausted(d, u, o.max_attempts);
    if g < d.len() {
        Err(ArqGiveUp { seq: d[g as int], attempts: u[d[g as int]].attempts })
    } else {
        Ok(Seq::new(d.len(), |j: int| u[d[j]].plaintext))
    }
}

/// A retransmit pass answers [`retransmit_result`].
pub proof fn lemma_retransmit_result(o: ArqView, n: ArqView, now: u64, r: Result<Seq<Seq<u8>>, ArqGiveUp>)
    requires
        retransmit_step(o, n, now, r),
    ensures
        r == retransmit_result(o, now),
{
}

/// The views of a list of frames.
pub open spec fn frames_view(v: Seq<Vec<u8>>) -> Seq<Seq<u8>> {
    Seq::new(v.len(), |j: int| v[j]@)
}

/// What taking in the decrypted inner frame `p` does, from state `o` to
/// state `n` with result `r`: an ACK clears the acknowledged frames; a DATA
/// frame is recorded in the receive window and, if new, delivered or added
/// to its reassembly, and an ACK for the updated window is owed and
/// returned.
pub open spec fn ingest_step(o: ArqView, n: ArqView, p: Seq<u8>, r: Result<Option<Seq<u8>>, ArqError>) -> bool {
    match inner_decoding(p) {
        Err(e) => r == Err::<Option<Seq<u8>>, ArqError>(ArqError::Frame(e)) && n == o,
        Ok(FrameView::Ack { base, bitmap }) => r == Ok::<Option<Seq<u8>>, ArqError>(None) && n == (ArqView {
            unacked: Map::new(
                |k: u32| o.unacked.contains_key(k) && !is_acked(base, bitmap, k),
                |k: u32| o.unacked[k],
            ),
            ..o
        }),
        Ok(FrameView::Data { seq, frag_id, index, total, payload }) => {
            let accepted = seq_dist(seq, o.recv_base) < 64 && !bit_set(o.recv_bits, seq_dist(seq, o.recv_base) as u64);
            &&& r == Ok::<Option<Seq<u8>>, ArqError>(Some(ack_frame(n.recv_base, n.recv_bits)))
            &&& n.pending_ack
            &&& accepted ==> (n.recv_base, n.recv_bits) == slide(o.recv_base, o.recv_bits | (1u64 << (seq_dist(seq, o.recv_base) as u64)))
            &&& !accepted ==> n.recv_base == o.recv_base && n.recv_bits == o.recv_bits
            &&& (!accepted ==> n.fragments == o.fragments && n.fragment_order == o.fragment_order && n.delivered == o.delivered)
            &&& (accepted && total == 1 ==> n.fragments == o.fragments && n.fragment_order == o.fragment_order
                && n.delivered == o.delivered.push(payload))
            &&& (accepted && total != 1 ==> (n.fragments, n.fragment_order, n.delivered) == reassemble(
                o.fragments, o.fragment_order, o.delivered, frag_id, index, total, payload))
            &&& n.next_seq == o.next_seq
            &&& n.next_frag_id == o.next_frag_id
            &&& n.unacked == o.unacked
            &&& n.max_attempts == o.max_attempts
            &&& n.retx == o.retx
            &&& n.max_fragment == o.max_fragment
        },
    }
}

/// Delivery is first in, first out: taking in a frame leaves the messages
/// already waiting as they are and adds at most one, at the back (and
/// `pop_delivered` takes from the front).
pub proof fn lemma_delivery_appends(o: ArqView, n: ArqView, p: Seq<u8>, r: Result<Option<Seq<u8>>, ArqError>)
    requires
        ingest_step(o, n, p, r),
    ensures
        n.delivered == o.delivered || exists|m: Seq<u8>| n.delivered == #[trigger] o.delivered.push(m),
{
    if let Ok(FrameView::Data { seq, frag_id, index, total, payload }) = inner_decoding(p) {
        let accepted = seq_dist(seq, o.recv_base) < 64 && !bit_set(o.recv_bits, seq_dist(seq, o.recv_base) as u64);
        if accepted && total == 1 {
            assert(n.delivered == o.delivered.push(payload));
        } else if accepted {
            let (f1, o1) = if o.fragments.contains_key(frag_id) {
                (o.fragments, o.fragment_order)
            } else {
                let (fe, oe) = evict(o.fragments, o.fragment_order);
                (fe.insert(frag_id, FragView { total, parts: Seq::new(total as nat, |i: int| None) }), oe.push(frag_id))
            };
            let buf = f1[frag_id];
            if !(buf.total != total || index >= buf.parts.len()) {
                let parts = buf.parts.update(index as int, Some(payload));
                if all_present(parts) {
                    assert(n.delivered == o.delivered.push(joined(parts)));
                }
            }
        }
    }
}

/// A DATA frame taken in leaves an ACK owed for the updated receive window,
/// and the ACK returned is that one: the next `take_ack` gives the same
/// bytes, and the one after it gives none.
pub proof fn lemma_ack_after_data(o: ArqView, n: ArqView, p: Seq<u8>, r: Result<Option<Seq<u8>>, ArqError>)
    requires
        ingest_step(o, n, p, r),
        inner_decoding(p) is Ok,
        !(inner_decoding(p)->Ok_0 is Ack),
    ensures
        n.pending_ack,
        r == Ok::<Option<Seq<u8>>, ArqError>(Some(ack_frame(n.recv_base, n.recv_bits))),
{
}

/// What one `pop_delivered` does, from state `o` to state `n`, handing out
/// `out`: the front message, if any, leaves the queue.
pub open spec fn pop_step(o: ArqView, n: ArqView, out: Option<Seq<u8>>) -> bool {
    if o.delivered.len() == 0 {
        out is None && n == o
    } else {
        out == Some(o.delivered[0]) && n == (ArqView { delivered: o.delivered.drop_first(), ..o })
    }
}

/// What one `take_ack` does, from state `o` to state `n`, handing out
/// `out`: the ACK for the receive window if one is owed, which is then no
/// longer owed.
pub open spec fn ack_step(o: ArqView, n: ArqView, out: Option<Seq<u8>>) -> bool {
    &&& out == if o.pending_ack { Some(ack_frame(o.recv_base, o.recv_bits)) } else { None::<Seq<u8>> }
    &&& n == (ArqView { pending_ack: false, ..o })
}

/// The ACK is given once: after a DATA frame is taken in, and while later
/// calls leave the receive window and the owed ACK as they are (every call
/// but taking in another DATA frame or `take_ack` does), `take_ack` gives
/// the very ACK that taking in the DATA frame returned, and the next
/// `take_ack` gives none.
pub proof fn lemma_ack_once(
    o: ArqView,
    m: ArqView,
    p: Seq<u8>,
    r: Result<Option<Seq<u8>>, ArqError>,
    m2: ArqView,
    m3: ArqView,
    a1: Option<Seq<u8>>,
    m4: ArqView,
    a2: Option<Seq<u8>>,
)
    requires
        ingest_step(o, m, p, r),
        inner_decoding(p) matches Ok(FrameView::Data { .. }),
        m2.recv_base == m.recv_base,
        m2.recv_bits == m.recv_bits,
        m2.pending_ack == m.pending_ack,
        ack_step(m2, m3, a1),
        ack_step(m3, m4, a2),
    ensures
        a1 is Some,
        r == Ok::<Option<Seq<u8>>, ArqError>(a1),
        a2 is None,
{
}

/// One call's effect on the delivery queue: taking in a frame, popping a
/// message (handed out as `out`), or any other call, which leaves the queue
/// as it is.
pub open spec fn delivery_step(o: ArqView, n: ArqView, out: Option<Seq<u8>>) -> bool {
    ||| out is None && exists|p: Seq<u8>, r: Result<Option<Seq<u8>>, ArqError>| #[trigger] ingest_step(o, n, p, r)
    ||| pop_step(o, n, out)
    ||| out is None && n.delivered == o.delivered
}

/// The messages a call completed: those it added at the back of the queue.
pub open spec fn completed_by(o: ArqView, n: ArqView, out: Option<Seq<u8>>) -> Seq<Seq<u8>> {
    if out is Some || n.delivered.len() <= o.delivered.len() {
        Seq::empty()
    } else {
        n.delivered.skip(o.delivered.len() as int)
    }
}

/// The messages popped in the first `k` calls of a run, in order.
pub open spec fn popped(outs: Seq<Option<Seq<u8>>>, k: nat) -> Seq<Seq<u8>>
    decreases k,
{
    if k == 0 || k > outs.len() {
        Seq::empty()
    } else {
        popped(outs, (k - 1) as nat) + match outs[k - 1] {
            Some(msg) => seq![msg],
            None => Seq::empty(),
        }
    }
}

/// The messages completed in the first `k` calls of a run, in order.
pub open spec fn completed(vs: Seq<ArqView>, outs: Seq<Option<Seq<u8>>>, k: nat) -> Seq<Seq<u8>>
    decreases k,
{
    if k == 0 || k > outs.len() || k >= vs.len() {
        Seq::empty()
    } else {
        completed(vs, outs, (k - 1) as nat) + completed_by(vs[k - 1], vs[k as int], outs[k - 1])
    }
}

/// Delivery is first in, first out, each message exactly once: over any run
/// of calls, the messages popped followed by those still waiting are the
/// messages waiting at the start followed by those completed, in the order
/// they were completed.
pub proof fn lemma_fifo_delivery(vs: Seq<ArqView>, outs: Seq<Option<Seq<u8>>>)
    requires
        vs.len() == outs.len() + 1,
        forall|i: int| 0 <= i < outs.len() ==> #[trigger] delivery_step(vs[i], vs[i + 1], outs[i]),
    ensures
        popped(outs, outs.len()) + vs.last().delivered == vs[0].delivered + completed(vs, outs, outs.len()),
    decreases outs.len(),
{
    let l = outs.len();
    if l == 0 {
        assert(popped(outs, 0) + vs.last().delivered =~= vs[0].delivered + completed(vs, outs, 0));
    } else {
        let vs0 = vs.drop_last();
        let outs0 = outs.drop_last();
        assert forall|i: int| 0 <= i < outs0.len() implies #[trigger] delivery_step(vs0[i], vs0[i + 1], outs0[i]) by {
            assert(delivery_step(vs[i], vs[i + 1], outs[i]));
        }
        lemma_fifo_delivery(vs0, outs0);
        assert forall|k: nat| k <= outs0.len() implies #[trigger] popped(outs0, k) == popped(outs, k) by {
            lemma_popped_prefix(outs0, outs, k);
        }
        assert forall|k: nat| k <= outs0.len() implies #[trigger] completed(vs0, outs0, k) == completed(vs, outs, k) by {
            lemma_completed_prefix(vs0, outs0, vs, outs, k);
        }
        let o = vs[l - 1];
        let n = vs[l as int];
        let out = outs[l - 1];
        assert(vs0.last() == o);
        let before = popped(outs, (l - 1) as nat);
        let done = completed(vs, outs, (l - 1) as nat);
        assert(before + o.delivered == vs[0].delivered + done);
        assert(delivery_step(o, n, out));
        if out is None && exists|p: Seq<u8>, r: Result<Option<Seq<u8>>, ArqError>| #[trigger] ingest_step(o, n, p, r) {
            let (p, r) = choose|p: Seq<u8>, r: Result<Option<Seq<u8>>, ArqError>| #[trigger] ingest_step(o, n, p, r);
            lemma_delivery_appends(o, n, p, r);
            if n.delivered == o.delivered {
                assert(completed_by(o, n, out) =~= Seq::<Seq<u8>>::empty());
                assert(popped(outs, l) =~= before);
                assert(popped(outs, l) + n.delivered =~= vs[0].delivered + completed(vs, outs, l));
            } else {
                let msg = choose|msg: Seq<u8>| n.delivered == #[trigger] o.delivered.push(msg);
                assert(completed_by(o, n, out) =~= seq![msg]);
                assert(popped(outs, l) =~= before);
                assert(completed(vs, outs, l) == done + seq![msg]);
                assert(n.delivered =~= o.delivered + seq![msg]);
                assert(before + (o.delivered + seq![msg]) =~= (before + o.delivered) + seq![msg]);
                assert(vs[0].delivered + (done + seq![msg]) =~= (vs[0].delivered + done) + seq![msg]);
                assert(popped(outs, l) + n.delivered =~= vs[0].delivered + completed(vs, outs, l));
            }
        } else if pop_step(o, n, out) {
            if o.delivered.len() == 0 {
                assert(completed_by(o, n, out) =~= Seq::<Seq<u8>>::empty());
                assert(popped(outs, l) =~= before);
            } else {
                assert(completed_by(o, n, out) =~= Seq::<Seq<u8>>::empty());
                assert(popped(outs, l) =~= before + seq![o.delivered[0]]);
                assert(seq![o.delivered[0]] + o.delivered.drop_first() =~= o.delivered);
                assert((before + seq![o.delivered[0]]) + n.delivered =~= before + o.delivered);
            }
            assert(popped(outs, l) + n.delivered =~= vs[0].delivered + completed(vs, outs, l));
        } else {
            assert(completed_by(o, n, out) =~= Seq::<Seq<u8>>::empty());
            assert(popped(outs, l) =~= before);
            assert(popped(outs, l) + n.delivered =~= vs[0].delivered + completed(vs, outs, l));
        }
    }
}

proof fn lemma_popped_prefix(a: Seq<Option<Seq<u8>>>, b: Seq<Option<Seq<u8>>>, k: nat)
    requires
        k <= a.len(),
        a.len() <= b.len(),
        forall|i: int| 0 <= i < a.len() ==> a[i] == b[i],
    ensures
        popped(a, k) == popped(b, k),
    decreases k,
{
    if k > 0 {
        lemma_popped_prefix(a, b, (k - 1) as nat);
    }
}

proof fn lemma_completed_prefix(va: Seq<ArqView>, a: Seq<Option<Seq<u8>>>, vb: Seq<ArqView>, b: Seq<Option<Seq<u8>>>, k: nat)
    requires
        k <= a.len(),
        va.len() == a.len() + 1,
        vb.len() == b.len() + 1,
        a.len() <= b.len(),
        forall|i: int| 0 <= i < a.len() ==> a[i] == b[i],
        forall|i: int| 0 <= i < va.len() ==> va[i] == vb[i],
    ensures
        completed(va, a, k) == completed(vb, b, k),
    decreases k,
{
    if k > 0 {
        lemma_completed_prefix(va, a, vb, b, (k - 1) as nat);
    }
}

/// The fragments a message is cut into: consecutive pieces of `size`
/// bytes, the last one possibly shorter.
pub open spec fn fragments_of(m: Seq<u8>, size: nat) -> Seq<Seq<u8>>
    decreases m.len(),
{
    if m.len() == 0 || size == 0 {
        Seq::empty()
    } else if m.len() <= size {
        seq![m]
    } else {
        seq![m.take(size as int)] + fragments_of(m.skip(size as int), size)
    }
}

/// The concatenation of a sequence of byte strings.
pub open spec fn concat(parts: Seq<Seq<u8>>) -> Seq<u8>
    decreases parts.len(),
{
    if parts.len() == 0 {
        Seq::empty()
    } else {
        concat(parts.drop_last()) + parts.last()
    }
}

/// A queued frame that was never sent.
pub open spec fn fresh(plaintext: Seq<u8>) -> OutgoingView {
    OutgoingView { plaintext, last_sent: None, attempts: 0 }
}

/// The fragment identifier used after `id` (0 is never used).
pub open spec fn frag_id_after(id: u16) -> u16 {
    if id == 65535 {
        1
    } else {
        (id + 1) as u16
    }
}

/// The queue after the first `n` of the fragments `frs` of one message are
/// appended, starting at sequence `seq0`, under fragment identifier
/// `frag_id`.
pub open spec fn queued(
    old_q: Map<u32, OutgoingView>,
    seq0: u32,
    frag_id: u16,
    frs: Seq<Seq<u8>>,
    n: nat,
) -> Map<u32, OutgoingView> {
    Map::new(
        |k: u32| old_q.contains_key(k) || seq_dist(k, seq0) < n,
        |k: u32|
            if seq_dist(k, seq0) < n {
                fresh(data_frame(k, frag_id, seq_dist(k, seq0) as u8, frs.len() as u8, frs[seq_dist(k, seq0) as int]))
            } else {
                old_q[k]
            },
    )
}

proof fn lemma_seq_add_dist(a: u32, n: nat)
    requires
        n < 0x1_0000_0000,
    ensures
        seq_dist(seq_add(a, n), a) == n,
        seq_add(a, n + 1) == seq_add(seq_add(a, n), 1),
        forall|k: u32| seq_dist(k, a) < n + 1 <==> (seq_dist(k, a) < n || k == seq_add(a, n)),
{
}

proof fn lemma_fragments_step(m: Seq<u8>, size: nat)
    requires
        m.len() > 0,
        size > 0,
    ensures
        fragments_of(m, size).len() == 1 + fragments_of(m.skip(if m.len() <= size { m.len() as int } else { size as int }), size).len(),
        fragments_of(m, size)[0] == m.take(if m.len() <= size { m.len() as int } else { size as int }),
        fragments_of(m, size).drop_first() == fragments_of(m.skip(if m.len() <= size { m.len() as int } else { size as int }), size),
{
    if m.len() <= size {
        assert(m.skip(m.len() as int).len() == 0);
        assert(m.take(m.len() as int) =~= m);
        assert(fragments_of(m, size).drop_first() =~= fragments_of(m.skip(m.len() as int), size));
    } else {
        assert(fragments_of(m, size).drop_first() =~= fragments_of(m.skip(size as int), size));
    }
}

/// Cutting a message into fragments loses nothing: the fragments,
/// concatenated in order, are the message, and each is non-empty and at
/// most `size` bytes.
pub proof fn lemma_fragments_concat(m: Seq<u8>, size: nat)
    requires
        size > 0,
    ensures
        concat(fragments_of(m, size)) == m,
        forall|i: int| 0 <= i < fragments_of(m, size).len() ==> 0 < #[trigger] fragments_of(m, size)[i].len() <= size,
    decreases m.len(),
{
    if m.len() == 0 {
    } else if m.len() <= size {
        assert(seq![m].drop_last() =~= Seq::<Seq<u8>>::empty());
        assert(concat(Seq::<Seq<u8>>::empty()) == Seq::<u8>::empty());
        assert(Seq::<u8>::empty() + m =~= m);
    } else {
        let rest = fragments_of(m.skip(size as int), size);
        lemma_fragments_concat(m.skip(size as int), size);
        lemma_concat_prepend(m.take(size as int), rest);
        assert(m.take(size as int) + m.skip(size as int) =~= m);
        let f = fragments_of(m, size);
        assert forall|i: int| 0 <= i < f.len() implies 0 < #[trigger] f[i].len() <= size by {
            if i > 0 {
                assert(f[i] == rest[i - 1]);
            }
        }
    }
}

/// A message whose fragments all arrive is reassembled whole: slots filled
/// with the fragments the sender cut, in index order, join to the message.
pub proof fn lemma_reassembly_restores_message(m: Seq<u8>, size: nat, parts: Seq<Option<Seq<u8>>>)
    requires
        size > 0,
        parts.len() == fragments_of(m, size).len(),
        forall|i: int| 0 <= i < parts.len() ==> #[trigger] parts[i] == Some(fragments_of(m, size)[i]),
    ensures
        all_present(parts),
        joined(parts) == m,
{
    lemma_fragments_concat(m, size);
    assert(parts.map_values(|p: Option<Seq<u8>>| p->0) =~= fragments_of(m, size));
}

proof fn lemma_concat_prepend(a: Seq<u8>, rest: Seq<Seq<u8>>)
    ensures
        concat(seq![a] + rest) == a + concat(rest),
    decreases rest.len(),
{
    if rest.len() == 0 {
        assert((seq![a] + rest).drop_last() =~= Seq::<Seq<u8>>::empty());
        assert(concat(Seq::<Seq<u8>>::empty()) == Seq::<u8>::empty());
        assert(seq![a] + rest =~= seq![a]);
        assert(Seq::<u8>::empty() + a =~= a);
        assert(a + Seq::<u8>::empty() =~= a);
    } else {
        lemma_concat_prepend(a, rest.drop_last());
        assert((seq![a] + rest).drop_last() =~= seq![a] + rest.drop_last());
        assert((seq![a] + rest).last() == rest.last());
        assert(a + concat(rest.drop_last()) + rest.last() =~= a + (concat(rest.drop_last()) + rest.last()));
    }
}

/// Strictly increasing.
pub open spec fn increasing_u32(s: Seq<u32>) -> bool {
    forall|i: int, j: int| 0 <= i < j < s.len() ==> s[i] < s[j]
}

/// The members of a set of sequence numbers in increasing order.
pub open spec fn key_order(s: Set<u32>) -> Seq<u32> {
    choose|q: Seq<u32>| q.to_set() == s && increasing_u32(q)
}

/// Frames of the queue `u` that were sent at least once, in sequence order.
pub open spec fn sent_keys(u: Map<u32, OutgoingView>) -> Seq<u32> {
    key_order(u.dom()).filter(|k: u32| u[k].last_sent is Some)
}

/// Frames of the queue `u` that were never sent, in sequence order.
pub open spec fn unsent_keys(u: Map<u32, OutgoingView>) -> Seq<u32> {
    key_order(u.dom()).filter(|k: u32| u[k].last_sent is None)
}

/// How many never-sent frames `take_new_sends` hands out from queue `u`:
/// as many as fit beside the frames already in flight in a window of
/// [`WINDOW_SIZE`].
pub open spec fn new_send_count(u: Map<u32, OutgoingView>) -> nat {
    if sent_keys(u).len() >= WINDOW_SIZE {
        0
    } else if unsent_keys(u).len() < WINDOW_SIZE - sent_keys(u).len() {
        unsent_keys(u).len()
    } else {
        (WINDOW_SIZE - sent_keys(u).len()) as nat
    }
}

/// A frame after being sent at `now` for the first time.
pub open spec fn first_sent(o: OutgoingView, now: u64) -> OutgoingView {
    OutgoingView { plaintext: o.plaintext, last_sent: Some(now), attempts: 1 }
}

/// `now - then`, or 0 if `then` is later.
pub open spec fn elapsed(now: u64, then: u64) -> u64 {
    if now >= then {
        (now - then) as u64
    } else {
        0
    }
}

/// A sent frame whose retransmit timeout `retx` has run out at `now`.
pub open spec fn is_due(o: OutgoingView, now: u64, retx: u64) -> bool {
    o.last_sent matches Some(t) && elapsed(now, t) >= retx
}

/// Frames of the queue `u` due for retransmission at `now`, in sequence order.
pub open spec fn due_keys(u: Map<u32, OutgoingView>, now: u64, retx: u64) -> Seq<u32> {
    key_order(u.dom()).filter(|k: u32| is_due(u[k], now, retx))
}

/// Index of the first frame in `d` that has used up `max` attempts, or
/// `d.len()` if none has.
pub open spec fn first_exhausted(d: Seq<u32>, u: Map<u32, OutgoingView>, max: u8) -> nat
    decreases d.len(),
{
    if d.len() == 0 {
        0
    } else if u[d[0]].attempts >= max {
        0
    } else {
        1 + first_exhausted(d.drop_first(), u, max)
    }
}

/// A frame after being sent again at `now`.
pub open spec fn resent(o: OutgoingView, now: u64) -> OutgoingView {
    OutgoingView { plaintext: o.plaintext, last_sent: Some(now), attempts: (o.attempts + 1) as u8 }
}

proof fn lemma_first_exhausted_append(a: Seq<u32>, b: Seq<u32>, u: Map<u32, OutgoingView>, max: u8)
    ensures
        first_exhausted(a, u, max) <= a.len(),
        first_exhausted(a + b, u, max) == if first_exhausted(a, u, max) < a.len() {
            first_exhausted(a, u, max)
        } else {
            a.len() + first_exhausted(b, u, max)
        },
    decreases a.len(),
{
    if a.len() == 0 {
        assert(a + b =~= b);
    } else {
        lemma_first_exhausted_append(a.drop_first(), b, u, max);
        assert((a + b).drop_first() =~= a.drop_first() + b);
    }
}

/// Make room for one more reassembly: drop the oldest-inserted ones (in
/// `order`, which may hold ids already gone) until fewer than
/// [`MAX_PENDING_FRAGMENTS`] remain or the order runs dry.
pub open spec fn evict(frags: Map<u16, FragView>, order: Seq<u16>) -> (Map<u16, FragView>, Seq<u16>)
    decreases order.len(),
{
    if frags.dom().len() < MAX_PENDING_FRAGMENTS || order.len() == 0 {
        (frags, order)
    } else {
        evict(frags.remove(order[0]), order.drop_first())
    }
}

/// Every slot of a reassembly is filled.
pub open spec fn all_present(parts: Seq<Option<Seq<u8>>>) -> bool {
    forall|i: int| 0 <= i < parts.len() ==> (#[trigger] parts[i]) is Some
}

/// The payloads of filled slots, in index order, concatenated.
pub open spec fn joined(parts: Seq<Option<Seq<u8>>>) -> Seq<u8> {
    concat(parts.map_values(|p: Option<Seq<u8>>| p->0))
}

/// The reassembly state `(fragments, order, delivered)` after fragment
/// `index` of `total` of message `frag_id` arrives with `payload`.
pub open spec fn reassemble(
    frags: Map<u16, FragView>,
    order: Seq<u16>,
    delivered: Seq<Seq<u8>>,
    frag_id: u16,
    index: u8,
    total: u8,
    payload: Seq<u8>,
) -> (Map<u16, FragView>, Seq<u16>, Seq<Seq<u8>>) {
    let (f1, o1) = if frags.contains_key(frag_id) {
        (frags, order)
    } else {
        let (fe, oe) = evict(frags, order);
        (fe.insert(frag_id, FragView { total, parts: Seq::new(total as nat, |i: int| None) }), oe.push(frag_id))
    };
    let buf = f1[frag_id];
    if buf.total != total || index >= buf.parts.len() {
        (f1, o1, delivered)
    } else {
        let parts = buf.parts.update(index as int, Some(payload));
        if all_present(parts) {
            (
                f1.remove(frag_id),
                if o1.len() > 0 && o1[0] == frag_id { o1.drop_first() } else { o1 },
                delivered.push(joined(parts)),
            )
        } else {
            (f1.insert(frag_id, FragView { total, parts }), o1, delivered)
        }
    }
}

proof fn lemma_evict(frags: Map<u16, FragView>, order: Seq<u16>)
    requires
        frags.dom().finite(),
        forall|k: u16| #[trigger] frags.contains_key(k) ==> order.contains(k),
    ensures
        evict(frags, order).0.dom().len() < MAX_PENDING_FRAGMENTS,
        evict(frags, order).0.dom().finite(),
        forall|k: u16| #[trigger] evict(frags, order).0.contains_key(k) ==> evict(frags, order).1.contains(k),
        forall|k: u16| #[trigger] evict(frags, order).0.contains_key(k) ==> frags.contains_key(k) && evict(frags, order).0[k] == frags[k],
    decreases order.len(),
{
    if frags.dom().len() < MAX_PENDING_FRAGMENTS || order.len() == 0 {
        if order.len() == 0 {
            assert(frags.dom() =~= Set::<u16>::empty());
        }
    } else {
        let f2 = frags.remove(order[0]);
        let o2 = order.drop_first();
        assert forall|k: u16| #[trigger] f2.contains_key(k) implies o2.contains(k) by {
            let x = choose|x: int| 0 <= x < order.len() && order[x] == k;
            assert(x != 0);
            assert(o2[x - 1] == k);
        }
        lemma_evict(f2, o2);
    }
}

proof fn lemma_increasing_unique(a: Seq<u32>, b: Seq<u32>)
    requires
        increasing_u32(a),
        increasing_u32(b),
        a.to_set() == b.to_set(),
    ensures
        a == b,
    decreases a.len(),
{
    if a.len() == 0 {
        if b.len() > 0 {
            assert(b.to_set().contains(b[0]));
        }
        assert(a =~= b);
    } else if b.len() == 0 {
        assert(a.to_set().contains(a[0]));
    } else {
        assert(b.to_set().contains(a[0]));
        assert(a.to_set().contains(b[0]));
        let i = choose|i: int| 0 <= i < a.len() && a[i] == b[0];
        let j = choose|j: int| 0 <= j < b.len() && b[j] == a[0];
        assert(a[0] == b[0]);
        let a1 = a.drop_first();
        let b1 = b.drop_first();
        assert forall|x: u32| a1.to_set().contains(x) == b1.to_set().contains(x) by {
            if a1.to_set().contains(x) {
                let p = choose|p: int| 0 <= p < a1.len() && a1[p] == x;
                assert(a.to_set().contains(x));
                let q = choose|q: int| 0 <= q < b.len() && b[q] == x;
                assert(q != 0);
                assert(b1[q - 1] == x);
            }
            if b1.to_set().contains(x) {
                let p = choose|p: int| 0 <= p < b1.len() && b1[p] == x;
                assert(b.to_set().contains(x));
                let q = choose|q: int| 0 <= q < a.len() && a[q] == x;
                assert(q != 0);
                assert(a1[q - 1] == x);
            }
        }
        assert(a1.to_set() =~= b1.to_set());
        lemma_increasing_unique(a1, b1);
        assert forall|x: int| 0 <= x < a.len() implies a[x] == b[x] by {
            if x > 0 {
                assert(a[x] == a1[x - 1]);
                assert(b[x] == b1[x - 1]);
            }
        }
        assert(a =~= b);
    }
}

proof fn lemma_key_order(s: Set<u32>, q: Seq<u32>)
    requires
        q.to_set() == s,
        increasing_u32(q),
    ensures
        key_order(s) == q,
{
    let k = key_order(s);
    assert(k.to_set() == s && increasing_u32(k));
    lemma_increasing_unique(k, q);
}

/// The members of `s` below `b`, in increasing order.
proof fn lemma_sorted_below(s: Set<u32>, b: nat) -> (q: Seq<u32>)
    requires
        b <= 0x1_0000_0000,
    ensures
        increasing_u32(q),
        forall|x: u32| #[trigger] q.contains(x) <==> (s.contains(x) && x < b),
    decreases b,
{
    if b == 0 {
        Seq::<u32>::empty()
    } else {
        let q0 = lemma_sorted_below(s, (b - 1) as nat);
        let x = (b - 1) as u32;
        if s.contains(x) {
            let q = q0.push(x);
            assert forall|i: int, j: int| 0 <= i < j < q.len() implies q[i] < q[j] by {
                if j == q.len() - 1 {
                    assert(q0.contains(q0[i]));
                }
            }
            assert forall|y: u32| #[trigger] q.contains(y) <==> (s.contains(y) && y < b) by {
                if q.contains(y) && y != x {
                    let i = choose|i: int| 0 <= i < q.len() && q[i] == y;
                    assert(q0[i] == y);
                    assert(q0.contains(y));
                }
                if s.contains(y) && y < b && y != x {
                    assert(q0.contains(y));
                    let i = choose|i: int| 0 <= i < q0.len() && q0[i] == y;
                    assert(q[i] == y);
                }
                if y == x {
                    assert(q[q.len() - 1] == x);
                }
            }
            q
        } else {
            q0
        }
    }
}

/// Every set of sequence numbers has its increasing order.
proof fn lemma_key_order_exists(s: Set<u32>)
    ensures
        key_order(s).to_set() == s,
        increasing_u32(key_order(s)),
{
    let q = lemma_sorted_below(s, 0x1_0000_0000);
    assert(q.to_set() =~= s);
}

/// Filtering keeps every element when all pass, and none when none do.
proof fn lemma_filter_all(q: Seq<u32>, p: spec_fn(u32) -> bool)
    ensures
        (forall|i: int| 0 <= i < q.len() ==> #[trigger] p(q[i])) ==> q.filter(p) == q,
        (forall|i: int| 0 <= i < q.len() ==> !#[trigger] p(q[i])) ==> q.filter(p) == Seq::<u32>::empty(),
    decreases q.len(),
{
    reveal(Seq::filter);
    if q.len() > 0 {
        let q0 = q.drop_last();
        lemma_filter_all(q0, p);
        if forall|i: int| 0 <= i < q.len() ==> #[trigger] p(q[i]) {
            assert forall|i: int| 0 <= i < q0.len() implies #[trigger] p(q0[i]) by {
                assert(p(q[i]));
            }
            assert(p(q[q.len() - 1]));
            assert(q0.push(q.last()) =~= q);
        }
        if forall|i: int| 0 <= i < q.len() ==> !#[trigger] p(q[i]) {
            assert forall|i: int| 0 <= i < q0.len() implies !#[trigger] p(q0[i]) by {
                assert(!p(q[i]));
            }
            assert(!p(q[q.len() - 1]));
        }
    }
}

/// After the frames `fr` are queued at `s0, s0 + 1, ...` (not crossing
/// the top of the number space) beside frames that were all sent, with
/// room in the window, the next first-send pass hands out exactly `fr`, in
/// order.
proof fn lemma_sends_after_queue(o: Map<u32, OutgoingView>, n: Map<u32, OutgoingView>, s0: u32, fr: Seq<Seq<u8>>)
    requires
        forall|k: u32| #[trigger] o.contains_key(k) ==> o[k].last_sent is Some && !(s0 <= k && k < s0 + fr.len()),
        s0 + fr.len() <= 0x1_0000_0000,
        o.dom().len() + fr.len() <= WINDOW_SIZE,
        forall|k: u32| #[trigger] n.contains_key(k) <==> (o.contains_key(k) || (s0 <= k && k < s0 + fr.len())),
        forall|k: u32| #[trigger] o.contains_key(k) ==> n[k] == o[k],
        forall|i: int| 0 <= i < fr.len() ==> #[trigger] n[(s0 + i) as u32] == fresh(fr[i]),
    ensures
        new_send_count(n) == fr.len(),
        Seq::new(new_send_count(n), |j: int| n[unsent_keys(n)[j]].plaintext) == fr,
{
    let nw = Seq::new(fr.len(), |i: int| (s0 + i) as u32);
    let nd = o.dom() + nw.to_set();
    assert(nw.to_set().finite()) by {
        vstd::seq_lib::seq_to_set_is_finite(nw);
    }
    assert(n.dom() =~= nd) by {
        assert forall|x: u32| n.dom().contains(x) <==> nd.contains(x) by {
            if s0 <= x && x < s0 + fr.len() {
                assert(nw[x - s0] == x);
            }
        }
    }
    lemma_key_order_exists(n.dom());
    let q = key_order(n.dom());
    let ps = |k: u32| n[k].last_sent is Some;
    let pu = |k: u32| n[k].last_sent is None;
    lemma_filter_increasing(q, ps);
    lemma_filter_increasing(q, pu);
    let ss = q.filter(ps);
    let us = q.filter(pu);
    assert(sent_keys(n) == ss);
    assert(unsent_keys(n) == us);
    assert(increasing_u32(nw));
    assert(us.to_set() =~= nw.to_set()) by {
        assert forall|x: u32| us.to_set().contains(x) <==> nw.to_set().contains(x) by {
            assert(q.contains(x) <==> n.dom().contains(x)) by {
                assert(q.to_set().contains(x) == q.contains(x));
            }
            if s0 <= x && x < s0 + fr.len() {
                assert(nw[x - s0] == x);
                assert(n[(s0 + (x - s0)) as u32] == fresh(fr[x - s0]));
            }
            if nw.contains(x) {
                let i = choose|i: int| 0 <= i < nw.len() && nw[i] == x;
                assert(n[(s0 + i) as u32] == fresh(fr[i]));
            }
        }
    }
    lemma_increasing_unique(us, nw);
    assert(ss.to_set() =~= o.dom()) by {
        assert forall|x: u32| ss.to_set().contains(x) <==> o.dom().contains(x) by {
            assert(q.contains(x) <==> n.dom().contains(x)) by {
                assert(q.to_set().contains(x) == q.contains(x));
            }
            if s0 <= x && x < s0 + fr.len() && !o.contains_key(x) {
                assert(n[(s0 + (x - s0)) as u32] == fresh(fr[x - s0]));
            }
        }
    }
    lemma_increasing_card(ss);
    assert(Seq::new(new_send_count(n), |j: int| n[unsent_keys(n)[j]].plaintext) =~= fr);
}

/// Filtering an increasing sequence keeps it increasing and keeps exactly
/// the members that pass.
proof fn lemma_filter_increasing(q: Seq<u32>, p: spec_fn(u32) -> bool)
    requires
        increasing_u32(q),
    ensures
        increasing_u32(q.filter(p)),
        forall|x: u32| #[trigger] q.filter(p).contains(x) <==> (q.contains(x) && p(x)),
    decreases q.len(),
{
    reveal(Seq::filter);
    if q.len() > 0 {
        let q0 = q.drop_last();
        lemma_filter_increasing(q0, p);
        let f0 = q0.filter(p);
        assert(q.filter(p) == if p(q.last()) { f0.push(q.last()) } else { f0 });
        if p(q.last()) {
            let f = f0.push(q.last());
            assert forall|i: int, j: int| 0 <= i < j < f.len() implies f[i] < f[j] by {
                if j == f.len() - 1 {
                    assert(f0.contains(f0[i]));
                    let k = choose|k: int| 0 <= k < q0.len() && q0[k] == f0[i];
                    assert(q[k] == q0[k]);
                }
            }
        }
        assert forall|x: u32| #[trigger] q.filter(p).contains(x) <==> (q.contains(x) && p(x)) by {
            if q.contains(x) && x != q.last() {
                let k = choose|k: int| 0 <= k < q.len() && q[k] == x;
                assert(k != q.len() - 1);
                assert(q0[k] == x);
                assert(q0.contains(x));
            }
            if q0.contains(x) {
                let k = choose|k: int| 0 <= k < q0.len() && q0[k] == x;
                assert(q[k] == x);
            }
            if p(q.last()) {
                let f = f0.push(q.last());
                assert(f[f.len() - 1] == q.last());
                if f0.contains(x) {
                    let k = choose|k: int| 0 <= k < f0.len() && f0[k] == x;
                    assert(f[k] == x);
                }
                if f.contains(x) && x != q.last() {
                    let k = choose|k: int| 0 <= k < f.len() && f[k] == x;
                    assert(f0[k] == x);
                }
            }
            assert(q[q.len() - 1] == q.last());
        }
    }
}

/// An increasing sequence has as many members as its set.
proof fn lemma_increasing_card(q: Seq<u32>)
    requires
        increasing_u32(q),
    ensures
        q.to_set().len() == q.len(),
        q.no_duplicates(),
{
    assert forall|i: int, j: int| 0 <= i < q.len() && 0 <= j < q.len() && i != j implies q[i] != q[j] by {
        if i < j {
            assert(q[i] < q[j]);
        } else {
            assert(q[j] < q[i]);
        }
    }
    q.unique_seq_to_set();
}

/// A first-send pass takes the never-sent frames in increasing sequence
/// number, as many as fit beside those in flight in a window of
/// [`WINDOW_SIZE`]; exactly those become sent, the rest stay queued in the
/// same order, so no more than the window is ever in flight.
pub proof fn lemma_new_sends_window(o: ArqView, now: u64)
    ensures
        increasing_u32(unsent_keys(o.unacked)),
        sent_keys(o.unacked).len() <= WINDOW_SIZE ==> new_sends(o).len() == if unsent_keys(o.unacked).len() < WINDOW_SIZE
            - sent_keys(o.unacked).len() {
            unsent_keys(o.unacked).len()
        } else {
            (WINDOW_SIZE - sent_keys(o.unacked).len()) as nat
        },
        sent_keys(o.unacked).len() >= WINDOW_SIZE ==> new_sends(o).len() == 0,
        forall|j: int| 0 <= j < new_sends(o).len() ==> #[trigger] new_sends(o)[j] == o.unacked[unsent_keys(o.unacked)[j]].plaintext,
        sent_keys(new_sends_state(o, now).unacked).len() == sent_keys(o.unacked).len() + new_sends(o).len(),
        sent_keys(o.unacked).len() <= WINDOW_SIZE ==> sent_keys(new_sends_state(o, now).unacked).len() <= WINDOW_SIZE,
        unsent_keys(new_sends_state(o, now).unacked) == unsent_keys(o.unacked).skip(new_sends(o).len() as int),
{
    let u = o.unacked;
    let n = new_sends_state(o, now).unacked;
    lemma_key_order_exists(u.dom());
    let q = key_order(u.dom());
    assert(n.dom() =~= u.dom());
    let pu = |k: u32| u[k].last_sent is None;
    let ps = |k: u32| u[k].last_sent is Some;
    let nu = |k: u32| n[k].last_sent is None;
    let ns = |k: u32| n[k].last_sent is Some;
    lemma_filter_increasing(q, pu);
    lemma_filter_increasing(q, ps);
    lemma_filter_increasing(q, nu);
    lemma_filter_increasing(q, ns);
    let us = q.filter(pu);
    let ss = q.filter(ps);
    let c = new_send_count(u);
    let taken = us.take(c as int);
    assert(unsent_keys(u) == us);
    assert(sent_keys(u) == ss);
    assert(unsent_keys(n) == q.filter(nu));
    assert(sent_keys(n) == q.filter(ns));
    let sa = q.filter(ns);
    assert forall|x: u32| #[trigger] sa.to_set().contains(x) <==> (ss.to_set() + taken.to_set()).contains(x) by {
        if taken.contains(x) {
            let i = choose|i: int| 0 <= i < taken.len() && taken[i] == x;
            assert(us[i] == x);
            assert(us.contains(x));
        }
    }
    assert(sa.to_set() =~= ss.to_set() + taken.to_set());
    lemma_increasing_card(sa);
    lemma_increasing_card(ss);
    assert(increasing_u32(taken));
    lemma_increasing_card(taken);
    assert(ss.to_set().disjoint(taken.to_set())) by {
        assert forall|x: u32| ss.to_set().contains(x) implies !taken.to_set().contains(x) by {
            assert(ss.contains(x));
            if taken.contains(x) {
                let i = choose|i: int| 0 <= i < taken.len() && taken[i] == x;
                assert(us[i] == x);
                assert(us.contains(x));
            }
        }
    }
    vstd::set_lib::lemma_set_disjoint_lens(ss.to_set(), taken.to_set());
    let rest = us.skip(c as int);
    assert(increasing_u32(rest));
    lemma_increasing_card(us);
    assert forall|x: u32| #[trigger] rest.to_set().contains(x) <==> q.filter(nu).to_set().contains(x) by {
        if rest.contains(x) {
            let i = choose|i: int| 0 <= i < rest.len() && rest[i] == x;
            assert(us[c + i] == x);
            assert(us.contains(x));
            if taken.contains(x) {
                let j = choose|j: int| 0 <= j < taken.len() && taken[j] == x;
                assert(us[j] == x);
            }
        }
        if q.filter(nu).contains(x) {
            assert(us.contains(x));
            let i = choose|i: int| 0 <= i < us.len() && us[i] == x;
            if i < c {
                assert(taken[i] == x);
                assert(taken.contains(x));
            }
            assert(rest[i - c] == x);
        }
    }
    assert(rest.to_set() =~= q.filter(nu).to_set());
    lemma_increasing_unique(rest, q.filter(nu));
}

/// The frames queuing `m` adds: one unfragmented frame for an empty
/// message, else one per fragment, numbered on from `next_seq` under the
/// next fragment identifier.
pub open spec fn message_frames(o: ArqView, m: Seq<u8>) -> Seq<Seq<u8>> {
    if m.len() == 0 {
        seq![data_frame(o.next_seq, 0, 0, 1, m)]
    } else {
        let frs = fragments_of(m, o.max_fragment);
        Seq::new(frs.len(), |i: int| data_frame(seq_add(o.next_seq, i as nat), o.next_frag_id, i as u8, frs.len() as u8, frs[i]))
    }
}

/// Queuing a message beside frames that were all sent (none of them
/// numbered where the new frames go), with room in the window, makes the
/// next first-send pass carry exactly its frames, numbered on from
/// `next_seq`, in order; a fragmented message's fragments join to the
/// message. The new numbers must not cross the top of the number space:
/// the queue hands frames out in numeric order, so a message numbered
/// `u32::MAX, 0` goes out as its second fragment first.
pub proof fn lemma_enqueue_then_send(o: ArqView, n: ArqView, m: Seq<u8>)
    requires
        enqueue_step(o, n, m, Ok::<(), ArqError>(())),
        o.max_fragment >= 1,
        forall|k: u32| #[trigger] o.unacked.contains_key(k) ==> o.unacked[k].last_sent is Some
            && seq_dist(k, o.next_seq) >= message_frames(o, m).len(),
        o.next_seq + message_frames(o, m).len() <= 0x1_0000_0000,
        o.unacked.dom().len() + message_frames(o, m).len() <= WINDOW_SIZE,
    ensures
        new_sends(n) == message_frames(o, m),
        m.len() > 0 ==> concat(fragments_of(m, o.max_fragment)) == m,
{
    let fr = message_frames(o, m);
    if m.len() == 0 {
        assert forall|k: u32| #[trigger] n.unacked.contains_key(k) <==> (o.unacked.contains_key(k) || (o.next_seq <= k && k < o.next_seq + fr.len())) by {}
        assert(n.unacked[(o.next_seq + 0) as u32] == fresh(fr[0]));
        lemma_sends_after_queue(o.unacked, n.unacked, o.next_seq, fr);
    } else {
        let frs = fragments_of(m, o.max_fragment);
        lemma_fragments_concat(m, o.max_fragment);
        assert forall|k: u32| #[trigger] n.unacked.contains_key(k) <==> (o.unacked.contains_key(k) || (o.next_seq <= k && k < o.next_seq + fr.len())) by {}
        assert forall|k: u32| #[trigger] o.unacked.contains_key(k) implies n.unacked[k] == o.unacked[k] by {
            assert(seq_dist(k, o.next_seq) >= frs.len());
        }
        assert forall|i: int| 0 <= i < fr.len() implies #[trigger] n.unacked[(o.next_seq + i) as u32] == fresh(fr[i]) by {
            assert(seq_dist((o.next_seq + i) as u32, o.next_seq) == i);
            vstd::arithmetic::div_mod::lemma_small_mod((o.next_seq + i) as nat, 0x1_0000_0000);
            assert(seq_add(o.next_seq, i as nat) == (o.next_seq + i) as u32);
        }
        lemma_sends_after_queue(o.unacked, n.unacked, o.next_seq, fr);
    }
    assert(new_sends(n) =~= fr);
}

proof fn lemma_increasing_refs(r: Seq<&u32>)
    requires
        increasing_seq(r),
    ensures
        forall|i: int, j: int| 0 <= i < j < r.len() ==> *r[i] < *r[j],
{
    assert(vstd::laws_cmp::obeys_cmp::<&u32>());
    vstd::std_specs::btree::axiom_increasing_seq_meaning(r);
    assert forall|i: int, j: int| 0 <= i < j < r.len() implies *r[i] < *r[j] by {
        assert(OrdSpec::cmp_spec(&r[i], &r[j]) is Less);
    }
}

/// Sequence `s` is recorded by the receive window `(b, x)`: inside it with
/// its bit set, or slid past by `k` (1 to 64) with no bits left at or above
/// `64 - k`.
pub open spec fn recorded(b: u32, x: u64, s: u32) -> bool {
    ||| window_has(b, x, s)
    ||| 1 <= seq_dist(b, s) <= 64 && (x >> ((64 - seq_dist(b, s)) as u64)) == 0u64
}

proof fn lemma_shift_facts(x: u64, d: u64)
    ensures
        1 <= d < 64 ==> (((x >> d) & 1u64 == 1u64) == (((x / 2) >> ((d - 1) as u64)) & 1u64 == 1u64)),
        1 <= d < 64 && (x >> ((64 - d) as u64)) == 0u64 ==> ((x / 2) >> ((63 - d) as u64)) == 0u64,
        (x >> 0u64) == 0u64 ==> x == 0u64,
        ((x / 2) >> 63u64) == 0u64,
{
    assert(1 <= d < 64 ==> (((x >> d) & 1u64 == 1u64) == (((x / 2) >> ((d - 1) as u64)) & 1u64 == 1u64))) by (bit_vector);
    assert(1 <= d < 64 && (x >> ((64 - d) as u64)) == 0u64 ==> ((x / 2) >> ((63 - d) as u64)) == 0u64) by (bit_vector);
    assert((x >> 0u64) == 0u64 ==> x == 0u64) by (bit_vector);
    assert(((x / 2) >> 63u64) == 0u64) by (bit_vector);
}

/// Sliding the window keeps every recorded sequence recorded.
proof fn lemma_slide_recorded(b: u32, x: u64, s: u32)
    requires
        recorded(b, x, s),
    ensures
        recorded(slide(b, x).0, slide(b, x).1, s),
    decreases x,
{
    if x % 2 == 1 {
        let b1 = seq_add(b, 1);
        let x1 = x / 2;
        if window_has(b, x, s) {
            let d = seq_dist(s, b);
            lemma_shift_facts(x, d as u64);
            if d == 0 {
                assert(s == b);
                assert(seq_dist(b1, s) == 1);
            } else {
                assert(seq_dist(s, b1) == d - 1);
                assert(bit_set(x1, (d - 1) as u64));
            }
        } else {
            let k = seq_dist(b, s);
            lemma_shift_facts(x, k as u64);
            if k == 64 {
                assert(x == 0);
            }
            assert(k < 64);
            assert(seq_dist(b1, s) == k + 1);
        }
        lemma_slide_recorded(b1, x1, s);
    }
}

/// A sequence number the receive window took in is never taken in again:
/// once recorded (and the window slid), a repeat is refused.
pub proof fn lemma_no_double_accept(base: u32, bits: u64, seq: u32)
    requires
        seq_dist(seq, base) < 64,
        !bit_set(bits, seq_dist(seq, base) as u64),
    ensures
        ({
            let (b2, x2) = slide(base, bits | (1u64 << (seq_dist(seq, base) as u64)));
            !(seq_dist(seq, b2) < 64 && !bit_set(x2, seq_dist(seq, b2) as u64))
        }),
{
    let d = seq_dist(seq, base) as u64;
    let x = bits | (1u64 << d);
    assert(((x >> d) & 1u64) == 1u64) by (bit_vector)
        requires
            x == bits | (1u64 << d),
            d < 64,
    ;
    assert(window_has(base, x, seq));
    lemma_slide_recorded(base, x, seq);
    let (b2, x2) = slide(base, x);
    if !window_has(b2, x2, seq) {
        assert(seq_dist(seq, b2) >= 0x1_0000_0000 - 64);
    }
}

/// A DATA frame taken in twice in a row changes nothing the second time:
/// no second delivery, no reassembly change, the same receive window.
pub proof fn lemma_duplicate_data_ignored(
    o: ArqView,
    m: ArqView,
    n: ArqView,
    p: Seq<u8>,
    r1: Result<Option<Seq<u8>>, ArqError>,
    r2: Result<Option<Seq<u8>>, ArqError>,
)
    requires
        ingest_step(o, m, p, r1),
        ingest_step(m, n, p, r2),
        inner_decoding(p) matches Ok(FrameView::Data { .. }),
    ensures
        n.delivered == m.delivered,
        n.fragments == m.fragments,
        n.fragment_order == m.fragment_order,
        n.recv_base == m.recv_base,
        n.recv_bits == m.recv_bits,
{
    if let Ok(FrameView::Data { seq, .. }) = inner_decoding(p) {
        let accepted = seq_dist(seq, o.recv_base) < 64 && !bit_set(o.recv_bits, seq_dist(seq, o.recv_base) as u64);
        if accepted {
            lemma_no_double_accept(o.recv_base, o.recv_bits, seq);
        }
    }
}

proof fn lemma_low_bit(bits: u64)
    ensures
        (bits & 1u64 == 1u64) == (bits % 2 == 1),
        bits >> 1u64 == bits / 2,
{
    assert((bits & 1u64 == 1u64) == (bits % 2 == 1)) by (bit_vector);
    assert(bits >> 1u64 == bits / 2) by (bit_vector);
}

proof fn lemma_mask_bit(bits: u64, a: u64)
    requires
        a < 64,
    ensures
        ((bits & (1u64 << a)) != 0u64) == ((bits >> a) & 1u64 == 1u64),
{
    assert(((bits & (1u64 << a)) != 0u64) == ((bits >> a) & 1u64 == 1u64)) by (bit_vector)
        requires
            a < 64,
    ;
}

impl Arq {
    /// The queued sequence numbers in increasing order.
    fn sorted_unacked_keys(&self) -> (ks: Vec<u32>)
        ensures
            ks@ == key_order(self@.unacked.dom()),
            ks@.to_set() == self.unacked@.dom(),
            ks@.no_duplicates(),
            increasing_u32(ks@),
    {
        let mut ks: Vec<u32> = Vec::new();
        for k in it: self.unacked.keys()
            invariant
                it.seq() == spec_keys_iter(&self.unacked).remaining(),
                ks@ == it.seq().take(it.index() as int).map_values(|r: &u32| *r),
        {
            ks.push(*k);
        }
        proof {
            let r = spec_keys_iter(&self.unacked).remaining();
            assert(ks@ =~= r.unref());
            lemma_increasing_refs(r);
            assert(self@.unacked.dom() =~= self.unacked@.dom());
            lemma_key_order(self@.unacked.dom(), ks@);
        }
        ks
    }

    /// Record `seq` in the receive window. Returns true if it is newly
    /// accepted; the window then slides past every received sequence at its
    /// base.
    fn mark_received(&mut self, seq: u32) -> (accepted: bool)
        ensures
            accepted == (seq_dist(seq, old(self).recv_base) < 64 && !bit_set(old(self).recv_bits, seq_dist(seq, old(self).recv_base) as u64)),
            accepted ==> (final(self).recv_base, final(self).recv_bits) == slide(
                old(self).recv_base,
                old(self).recv_bits | (1u64 << (seq_dist(seq, old(self).recv_base) as u64)),
            ),
            !accepted ==> final(self).recv_base == old(self).recv_base && final(self).recv_bits == old(self).recv_bits,
            final(self).next_seq == old(self).next_seq,
            final(self).next_frag_id == old(self).next_frag_id,
            final(self).unacked == old(self).unacked,
            final(self).fragments == old(self).fragments,
            final(self).fragment_order == old(self).fragment_order,
            final(self).delivered == old(self).delivered,
            final(self).pending_ack == old(self).pending_ack,
            final(self).max_attempts == old(self).max_attempts,
            final(self).retx == old(self).retx,
            final(self).max_fragment == old(self).max_fragment,
    {
        let ahead = seq.wrapping_sub(self.recv_base);
        if ahead >= RECV_WINDOW {
            return false;
        }
        let a = ahead as u64;
        let bit = 1u64 << a;
        proof {
            lemma_mask_bit(self.recv_bits, a);
        }
        if self.recv_bits & bit != 0 {
            return false;
        }
        let mut bits = self.recv_bits | bit;
        let mut base = self.recv_base;
        let ghost target = slide(base, bits);
        proof {
            lemma_low_bit(bits);
        }
        while bits & 1 == 1
            invariant
                slide(base, bits) == target,
            decreases bits,
        {
            proof {
                lemma_low_bit(bits);
            }
            base = base.wrapping_add(1);
            bits = bits >> 1;
            proof {
                lemma_low_bit(bits);
            }
        }
        proof {
            lemma_low_bit(bits);
        }
        self.recv_base = base;
        self.recv_bits = bits;
        true
    }

    /// Queue `message` as one unfragmented DATA frame.
    fn enqueue_one(&mut self, message: &[u8]) -> (r: Result<(), ArqError>)
        requires
            old(self).wf(),
        ensures
            final(self).wf(),
            r is Ok,
            final(self)@ == (ArqView {
                next_seq: seq_add(old(self)@.next_seq, 1),
                unacked: old(self)@.unacked.insert(old(self)@.next_seq, fresh(data_frame(old(self)@.next_seq, 0, 0, 1, message@))),
                ..old(self)@
            }),
    {
        let seq = self.next_seq;
        self.next_seq = self.next_seq.wrapping_add(1);
        let plaintext = encode_data(seq, 0, 0, 1, message);
        self.unacked.insert(seq, Outgoing { plaintext, last_sent: None, attempts: 0 });
        proof {
            assert(self@.unacked =~= old(self)@.unacked.insert(seq, fresh(data_frame(seq, 0, 0, 1, message@))));
        }
        Ok(())
    }

    /// Queue an application message, cut into fragments of at most
    /// `max_fragment` bytes. The frames wait in the queue until
    /// [`Arq::take_new_sends`] hands them out within the send window.
    pub fn enqueue(&mut self, message: &[u8]) -> (r: Result<(), ArqError>)
        requires
            old(self).wf(),
        ensures
            final(self).wf(),
            enqueue_step(old(self)@, final(self)@, message@, r),
    {
        if message.len() == 0 {
            return self.enqueue_one(message);
        }
        let len = message.len();
        let mf = self.max_fragment;
        let ghost frs = fragments_of(message@, mf as nat);
        let mut count: usize = 0;
        let mut off: usize = 0;
        proof {
            assert(message@.skip(0) =~= message@);
        }
        while off < len
            invariant
                len == message@.len(),
                1 <= mf,
                off <= len,
                count <= off,
                count + fragments_of(message@.skip(off as int), mf as nat).len() == frs.len(),
            decreases len - off,
        {
            let step = if len - off < mf { len - off } else { mf };
            proof {
                lemma_fragments_step(message@.skip(off as int), mf as nat);
                assert(message@.skip(off as int).skip(step as int) =~= message@.skip(off + step));
            }
            off = off + step;
            count = count + 1;
        }
        proof {
            assert(message@.skip(off as int).len() == 0);
        }
        if count > 255 {
            return Err(ArqError::TooLarge);
        }
        let total = count as u8;
        let frag_id = self.next_frag_id;
        self.next_frag_id = self.next_frag_id.wrapping_add(1);
        if self.next_frag_id == 0 {
            self.next_frag_id = 1;
        }
        let ghost seq0 = self.next_seq;
        let mut i: usize = 0;
        off = 0;
        proof {
            assert(message@.skip(0) =~= message@);
            assert(self@.unacked =~= queued(old(self)@.unacked, seq0, frag_id, frs, 0));
        }
        while i < count
            invariant
                len == message@.len(),
                1 <= mf,
                count == frs.len(),
                count <= 255,
                total == count,
                i <= count,
                off <= len,
                fragments_of(message@.skip(off as int), mf as nat) == frs.skip(i as int),
                self.next_seq == seq_add(seq0, i as nat),
                self@.unacked == queued(old(self)@.unacked, seq0, frag_id, frs, i as nat),
                self@ == (ArqView {
                    next_seq: self.next_seq,
                    next_frag_id: frag_id_after(old(self)@.next_frag_id),
                    unacked: self@.unacked,
                    ..old(self)@
                }),
                self.wf(),
            decreases count - i,
        {
            proof {
                if off == len {
                    assert(message@.skip(off as int).len() == 0);
                    assert(frs.skip(i as int).len() > 0);
                }
                lemma_fragments_step(message@.skip(off as int), mf as nat);
            }
            let end = if len - off < mf { len } else { off + mf };
            let chunk = slice_subrange(message, off, end);
            let seq = self.next_seq;
            self.next_seq = self.next_seq.wrapping_add(1);
            let plaintext = encode_data(seq, frag_id, i as u8, total, chunk);
            let ghost before = self.unacked@;
            let ghost before_view = self@.unacked;
            self.unacked.insert(seq, Outgoing { plaintext, last_sent: None, attempts: 0 });
            proof {
                lemma_seq_add_dist(seq0, i as nat);
                assert(frs[i as int] == frs.skip(i as int)[0]);
                assert(chunk@ =~= message@.skip(off as int).take((end - off) as int));
                assert(message@.skip(off as int).skip((end - off) as int) =~= message@.skip(end as int));
                assert(frs.skip(i + 1) =~= frs.skip(i as int).drop_first());
                assert(self.unacked@ == before.insert(seq, Outgoing { plaintext, last_sent: None, attempts: 0 }));
                let q = queued(old(self)@.unacked, seq0, frag_id, frs, (i + 1) as nat);
                let qi = queued(old(self)@.unacked, seq0, frag_id, frs, i as nat);
                assert(before_view == qi);
                assert forall|k: u32| #[trigger] q.contains_key(k) == self@.unacked.contains_key(k) by {
                    assert(seq_dist(k, seq0) < i + 1 <==> (seq_dist(k, seq0) < i || k == seq));
                    assert(before_view.contains_key(k) == before.contains_key(k));
                    assert(qi.contains_key(k) == (old(self)@.unacked.contains_key(k) || seq_dist(k, seq0) < i));
                }
                assert forall|k: u32| q.contains_key(k) implies #[trigger] q[k] == self@.unacked[k] by {
                    assert(seq_dist(k, seq0) < i + 1 <==> (seq_dist(k, seq0) < i || k == seq));
                    if k == seq {
                        assert(self@.unacked[k].plaintext == plaintext@);
                    } else {
                        assert(before_view.contains_key(k) == before.contains_key(k));
                        assert(qi.contains_key(k));
                        assert(before_view[k] == before[k].view());
                        assert(qi[k] == q[k]);
                    }
                }
                assert(self@.unacked =~= q);
            }
            off = end;
            i = i + 1;
        }
        Ok(())
    }

    /// Number of queued frames already sent at least once.
    fn in_flight_sent(&self, ks: &Vec<u32>) -> (n: usize)
        requires
            ks@ == key_order(self@.unacked.dom()),
            ks@.to_set() == self@.unacked.dom(),
        ensures
            n == sent_keys(self@.unacked).len(),
    {
        let ghost u = self@.unacked;
        let ghost p = |k: u32| u[k].last_sent is Some;
        let mut n: usize = 0;
        let mut i: usize = 0;
        while i < ks.len()
            invariant
                ks@ == key_order(u.dom()),
                ks@.to_set() == u.dom(),
                u == self@.unacked,
                p == (|k: u32| u[k].last_sent is Some),
                i <= ks@.len(),
                n == ks@.take(i as int).filter(p).len(),
                n <= i,
            decreases ks@.len() - i,
        {
            let k = ks[i];
            proof {
                assert(ks@.take(i + 1) =~= ks@.take(i as int).push(k));
                ks@.take(i as int).lemma_filter_push(k, p);
                assert(ks@.to_set().contains(k));
                assert(self@.unacked.contains_key(k));
                assert(self.unacked@.contains_key(k));
            }
            match self.unacked.get(&k) {
                Some(o) => {
                    if o.last_sent.is_some() {
                        n = n + 1;
                    }
                },
                None => {},
            }
            i = i + 1;
        }
        proof {
            assert(ks@.take(i as int) =~= ks@);
        }
        n
    }

    /// Inner frames that have never been sent and fit in the window, in
    /// sequence order; they are marked sent at `now` (milliseconds).
    pub fn take_new_sends(&mut self, now: u64) -> (out: Vec<Vec<u8>>)
        requires
            old(self).wf(),
        ensures
            final(self).wf(),
            frames_view(out@) == new_sends(old(self)@),
            final(self)@ == new_sends_state(old(self)@, now),
    {
        let ghost u = old(self)@.unacked;
        let ghost p = |k: u32| u[k].last_sent is None;
        let ks = self.sorted_unacked_keys();
        proof {
            assert(self@.unacked.dom() =~= self.unacked@.dom());
        }
        let sent0 = self.in_flight_sent(&ks);
        let mut sent = sent0;
        let mut out: Vec<Vec<u8>> = Vec::new();
        let mut i: usize = 0;
        proof {
            assert(ks@.take(0) =~= Seq::<u32>::empty());
            assert(Seq::<u32>::empty().filter(p) =~= Seq::<u32>::empty());
            assert(self@.unacked =~= Map::new(
                |k: u32| u.contains_key(k),
                |k: u32| if ks@.take(0).filter(p).contains(k) { first_sent(u[k], now) } else { u[k] },
            ));
        }
        while i < ks.len()
            invariant_except_break
                sent0 < WINDOW_SIZE ==> sent <= WINDOW_SIZE,
            invariant
                ks@ == key_order(u.dom()),
                ks@.to_set() == u.dom(),
                ks@.no_duplicates(),
                u == old(self)@.unacked,
                p == (|k: u32| u[k].last_sent is None),
                sent0 == sent_keys(u).len(),
                i <= ks@.len(),
                sent == sent0 + ks@.take(i as int).filter(p).len(),
                sent0 >= WINDOW_SIZE ==> ks@.take(i as int).filter(p).len() == 0,
                out@.len() == ks@.take(i as int).filter(p).len(),
                forall|j: int| 0 <= j < out@.len() ==> #[trigger] out@[j]@ == u[ks@.take(i as int).filter(p)[j]].plaintext,
                self@ == (ArqView {
                    unacked: Map::new(
                        |k: u32| u.contains_key(k),
                        |k: u32| if ks@.take(i as int).filter(p).contains(k) { first_sent(u[k], now) } else { u[k] },
                    ),
                    ..old(self)@
                }),
                self.wf(),
            ensures
                i == ks@.len() || sent >= WINDOW_SIZE,
                sent0 < WINDOW_SIZE ==> sent <= WINDOW_SIZE,
            decreases ks@.len() - i,
        {
            if sent >= WINDOW_SIZE as usize {
                break;
            }
            let k = ks[i];
            let ghost pre = ks@.take(i as int);
            proof {
                assert(ks@.take(i + 1) =~= pre.push(k));
                pre.lemma_filter_push(k, p);
                assert(ks@.to_set().contains(k));
                assert(self@.unacked.contains_key(k));
                assert(self.unacked@.contains_key(k));
                assert(!pre.contains(k)) by {
                    if pre.contains(k) {
                        let x = choose|x: int| 0 <= x < pre.len() && pre[x] == k;
                        assert(ks@[x] == ks@[i as int]);
                    }
                }
                assert(!pre.filter(p).contains(k)) by {
                    if pre.filter(p).contains(k) {
                        pre.lemma_filter_contains_rev(p, k);
                    }
                }
                assert(self@.unacked[k] == u[k]);
                assert(self.unacked@[k].view() == u[k]);
            }
            let ghost before = self.unacked@;
            let ghost before_view = self@.unacked;
            let unsent_plaintext: Option<Vec<u8>> = match self.unacked.get(&k) {
                Some(o) => if o.last_sent.is_none() {
                    let c = o.plaintext.clone();
                    assert(c@ == u[k].plaintext);
                    Some(c)
                } else {
                    None
                },
                None => None,
            };
            match unsent_plaintext {
                Some(pt) => {
                    let pt2 = pt.clone();
                    self.unacked.insert(k, Outgoing { plaintext: pt2, last_sent: Some(now), attempts: 1 });
                    assert(self.unacked@ == before.insert(k, Outgoing { plaintext: pt2, last_sent: Some(now), attempts: 1 }));
                    assert(pt2@ == pt@);
                    out.push(pt);
                    sent = sent + 1;
                    proof {
                        assert(p(k));
                        assert(pre.push(k).filter(p) == pre.filter(p).push(k));
                        let m = Map::new(
                            |k2: u32| u.contains_key(k2),
                            |k2: u32| if pre.push(k).filter(p).contains(k2) { first_sent(u[k2], now) } else { u[k2] },
                        );
                        assert forall|k2: u32| #[trigger] pre.push(k).filter(p).contains(k2) <==> (pre.filter(p).contains(k2) || k2 == k) by {
                            vstd::seq_lib::lemma_seq_contains_after_push(pre.filter(p), k, k2);
                        }
                        assert forall|k2: u32| #[trigger] self@.unacked.contains_key(k2) == m.contains_key(k2) by {
                            if k2 != k {
                                assert(before.contains_key(k2) == before_view.contains_key(k2));
                            }
                        }
                        assert forall|k2: u32| #[trigger] m.contains_key(k2) implies self@.unacked.contains_key(k2) && self@.unacked[k2] == m[k2] by {
                            if k2 == k {
                                assert(self.unacked@[k].view() == first_sent(u[k], now));
                            } else {
                                assert(before.contains_key(k2));
                                assert(before_view.contains_key(k2));
                                assert(before_view[k2] == before[k2].view());
                                assert(self.unacked@[k2] == before[k2]);
                                assert(pre.push(k).filter(p).contains(k2) == pre.filter(p).contains(k2));
                            }
                        }
                        assert(self@.unacked =~= m);
                        assert forall|j: int| 0 <= j < out@.len() implies #[trigger] out@[j]@ == u[pre.push(k).filter(p)[j]].plaintext by {
                            if j < out@.len() - 1 {
                                assert(pre.push(k).filter(p)[j] == pre.filter(p)[j]);
                            }
                        }
                    }
                },
                None => {
                    proof {
                        assert(!p(k));
                        assert(pre.push(k).filter(p) == pre.filter(p));
                    }
                },
            }
            i = i + 1;
        }
        proof {
            let n = new_send_count(u);
            let chosen = ks@.take(i as int).filter(p);
            let uk = unsent_keys(u);
            assert(uk == ks@.filter(p));
            assert(ks@ =~= ks@.take(i as int) + ks@.skip(i as int));
            Seq::filter_distributes_over_add(ks@.take(i as int), ks@.skip(i as int), p);
            assert(uk =~= chosen + ks@.skip(i as int).filter(p));
            if i == ks@.len() {
                assert(ks@.skip(i as int).filter(p).len() == 0) by {
                    assert(ks@.skip(i as int) =~= Seq::<u32>::empty());
                }
            }
            assert(n == chosen.len());
            assert(uk.take(n as int) =~= chosen);
        }
        out
    }

    /// Retransmit due frames (same inner plaintext, new seal at the caller):
    /// every sent frame whose timeout ran out by `now` is sent again, in
    /// sequence order, unless one has used up its attempts first; then that
    /// one is reported and the frames before it stay resent.
    pub fn take_retransmits(&mut self, now: u64) -> (r: Result<Vec<Vec<u8>>, ArqGiveUp>)
        requires
            old(self).wf(),
        ensures
            final(self).wf(),
            retransmit_step(old(self)@, final(self)@, now, match r {
                Ok(out) => Ok::<Seq<Seq<u8>>, ArqGiveUp>(frames_view(out@)),
                Err(g) => Err::<Seq<Seq<u8>>, ArqGiveUp>(g),
            }),
    {
        let ghost u = old(self)@.unacked;
        let ghost retx = old(self)@.retx;
        let ghost max = old(self)@.max_attempts;
        let ghost p = |k: u32| is_due(u[k], now, retx);
        let ks = self.sorted_unacked_keys();
        let mut out: Vec<Vec<u8>> = Vec::new();
        let mut i: usize = 0;
        proof {
            assert(ks@.take(0) =~= Seq::<u32>::empty());
            assert(Seq::<u32>::empty().filter(p) =~= Seq::<u32>::empty());
            assert(self@.unacked =~= Map::new(
                |k: u32| u.contains_key(k),
                |k: u32| if ks@.take(0).filter(p).contains(k) { resent(u[k], now) } else { u[k] },
            ));
        }
        while i < ks.len()
            invariant
                ks@ == key_order(u.dom()),
                ks@.to_set() == u.dom(),
                ks@.no_duplicates(),
                u == old(self)@.unacked,
                retx == old(self)@.retx,
                max == old(self)@.max_attempts,
                p == (|k: u32| is_due(u[k], now, retx)),
                i <= ks@.len(),
                first_exhausted(ks@.take(i as int).filter(p), u, max) == ks@.take(i as int).filter(p).len(),
                out@.len() == ks@.take(i as int).filter(p).len(),
                forall|j: int| 0 <= j < out@.len() ==> #[trigger] out@[j]@ == u[ks@.take(i as int).filter(p)[j]].plaintext,
                self@ == (ArqView {
                    unacked: Map::new(
                        |k: u32| u.contains_key(k),
                        |k: u32| if ks@.take(i as int).filter(p).contains(k) { resent(u[k], now) } else { u[k] },
                    ),
                    ..old(self)@
                }),
                self.wf(),
            decreases ks@.len() - i,
        {
            let k = ks[i];
            let ghost pre = ks@.take(i as int);
            proof {
                assert(ks@.take(i + 1) =~= pre.push(k));
                pre.lemma_filter_push(k, p);
                assert(ks@.to_set().contains(k));
                assert(self@.unacked.contains_key(k));
                assert(self.unacked@.contains_key(k));
                assert(!pre.contains(k)) by {
                    if pre.contains(k) {
                        let x = choose|x: int| 0 <= x < pre.len() && pre[x] == k;
                        assert(ks@[x] == ks@[i as int]);
                    }
                }
                assert(!pre.filter(p).contains(k)) by {
                    if pre.filter(p).contains(k) {
                        pre.lemma_filter_contains_rev(p, k);
                    }
                }
                assert(self@.unacked[k] == u[k]);
                assert(self.unacked@[k].view() == u[k]);
                assert(ks@ =~= pre.push(k) + ks@.skip(i + 1));
                Seq::filter_distributes_over_add(pre.push(k), ks@.skip(i + 1), p);
                lemma_first_exhausted_append(pre.filter(p), seq![k], u, max);
                lemma_first_exhausted_append(pre.filter(p).push(k), ks@.skip(i + 1).filter(p), u, max);
                assert(pre.filter(p) + seq![k] =~= pre.filter(p).push(k));
            }
            let ghost before = self.unacked@;
            let ghost before_view = self@.unacked;
            let mut resend: Option<Vec<u8>> = None;
            match self.unacked.get(&k) {
                Some(o) => {
                    match o.last_sent {
                        Some(last) => {
                            let waited = now.saturating_sub(last);
                            if waited >= self.retx {
                                if o.attempts >= self.max_attempts {
                                    proof {
                                        assert(p(k));
                                        assert(first_exhausted(seq![k], u, max) == 0);
                                        assert(due_keys(u, now, retx) == ks@.filter(p));
                                        let d = ks@.filter(p);
                                        assert(pre.push(k).filter(p) == pre.filter(p).push(k));
                                        assert(d == pre.filter(p).push(k) + ks@.skip(i + 1).filter(p));
                                        assert(d[pre.filter(p).len() as int] == k);
                                        assert(d.take(pre.filter(p).len() as int) =~= pre.filter(p));
                                        assert(first_exhausted(d, u, max) == pre.filter(p).len());
                                    }
                                    return Err(ArqGiveUp { seq: k, attempts: o.attempts });
                                }
                                let c = o.plaintext.clone();
                                assert(c@ == u[k].plaintext);
                                resend = Some(c);
                            }
                        },
                        None => {},
                    }
                },
                None => {},
            }
            match resend {
                Some(pt) => {
                    let attempts = match self.unacked.get(&k) {
                        Some(o) => o.attempts,
                        None => 0,
                    };
                    let pt2 = pt.clone();
                    self.unacked.insert(k, Outgoing { plaintext: pt2, last_sent: Some(now), attempts: attempts + 1 });
                    assert(self.unacked@ == before.insert(k, Outgoing { plaintext: pt2, last_sent: Some(now), attempts: (attempts + 1) as u8 }));
                    assert(pt2@ == pt@);
                    out.push(pt);
                    proof {
                        assert(p(k));
                        assert(pre.push(k).filter(p) == pre.filter(p).push(k));
                        assert(first_exhausted(seq![k], u, max) == 1) by {
                            assert(seq![k].drop_first() =~= Seq::<u32>::empty());
                        }
                        let m = Map::new(
                            |k2: u32| u.contains_key(k2),
                            |k2: u32| if pre.push(k).filter(p).contains(k2) { resent(u[k2], now) } else { u[k2] },
                        );
                        assert forall|k2: u32| #[trigger] pre.push(k).filter(p).contains(k2) <==> (pre.filter(p).contains(k2) || k2 == k) by {
                            vstd::seq_lib::lemma_seq_contains_after_push(pre.filter(p), k, k2);
                        }
                        assert forall|k2: u32| #[trigger] self@.unacked.contains_key(k2) == m.contains_key(k2) by {
                            if k2 != k {
                                assert(before.contains_key(k2) == before_view.contains_key(k2));
                            }
                        }
                        assert forall|k2: u32| #[trigger] m.contains_key(k2) implies self@.unacked.contains_key(k2) && self@.unacked[k2] == m[k2] by {
                            if k2 == k {
                                assert(self.unacked@[k].view() == resent(u[k], now));
                            } else {
                                assert(before.contains_key(k2));
                                assert(before_view.contains_key(k2));
                                assert(before_view[k2] == before[k2].view());
                                assert(self.unacked@[k2] == before[k2]);
                                assert(pre.push(k).filter(p).contains(k2) == pre.filter(p).contains(k2));
                            }
                        }
                        assert(self@.unacked =~= m);
                        assert forall|j: int| 0 <= j < out@.len() implies #[trigger] out@[j]@ == u[pre.push(k).filter(p)[j]].plaintext by {
                            if j < out@.len() - 1 {
                                assert(pre.push(k).filter(p)[j] == pre.filter(p)[j]);
                            }
                        }
                    }
                },
                None => {
                    proof {
                        assert(!p(k));
                        assert(pre.push(k).filter(p) == pre.filter(p));
                    }
                },
            }
            i = i + 1;
        }
        proof {
            assert(ks@.take(i as int) =~= ks@);
            assert(due_keys(u, now, retx) == ks@.filter(p));
            assert(ks@.filter(p).take(ks@.filter(p).len() as int) =~= ks@.filter(p));
            let d = due_keys(u, now, retx);
            assert(frames_view(out@) =~= Seq::new(d.len(), |j: int| u[d[j]].plaintext));
        }
        Ok(out)
    }

    /// Take in one accepted DATA fragment: record its sequence in the
    /// receive window and, if new, deliver it or add it to its reassembly.
    fn on_data(&mut self, seq: u32, frag_id: u16, index: u8, total: u8, payload: Vec<u8>)
        requires
            old(self).wf(),
        ensures
            final(self).wf(),
            ({
                let o = old(self)@;
                let n = final(self)@;
                let accepted = seq_dist(seq, o.recv_base) < 64 && !bit_set(o.recv_bits, seq_dist(seq, o.recv_base) as u64);
                &&& accepted ==> (n.recv_base, n.recv_bits) == slide(o.recv_base, o.recv_bits | (1u64 << (seq_dist(seq, o.recv_base) as u64)))
                &&& !accepted ==> n.recv_base == o.recv_base && n.recv_bits == o.recv_bits
                &&& (!accepted ==> n.fragments == o.fragments && n.fragment_order == o.fragment_order && n.delivered == o.delivered)
                &&& (accepted && total == 1 ==> n.fragments == o.fragments && n.fragment_order == o.fragment_order
                    && n.delivered == o.delivered.push(payload@))
                &&& (accepted && total != 1 ==> (n.fragments, n.fragment_order, n.delivered) == reassemble(
                    o.fragments, o.fragment_order, o.delivered, frag_id, index, total, payload@))
                &&& n.next_seq == o.next_seq
                &&& n.next_frag_id == o.next_frag_id
                &&& n.unacked == o.unacked
                &&& n.pending_ack == o.pending_ack
                &&& n.max_attempts == o.max_attempts
                &&& n.retx == o.retx
                &&& n.max_fragment == o.max_fragment
            }),
    {
        if !self.mark_received(seq) {
            return;
        }
        if total == 1 {
            self.delivered.push_back(payload);
            proof {
                assert(self@.delivered =~= old(self)@.delivered.push(payload@));
            }
            return;
        }
        let ghost f0 = self@.fragments;
        let ghost o0 = self@.fragment_order;
        let ghost rb = self.recv_base;
        let ghost rbits = self.recv_bits;
        if !self.fragments.contains_key(&frag_id) {
            let ghost target = evict(f0, o0);
            proof {
                assert(self@.fragments.dom() =~= self.fragments@.dom());
            }
            while self.fragments.len() >= MAX_PENDING_FRAGMENTS
                invariant
                    evict(self@.fragments, self@.fragment_order) == target,
                    self.fragments@.dom().finite(),
                    forall|k: u16| #[trigger] self.fragments@.contains_key(k) ==> self.fragments@[k].parts@.len() == self.fragments@[k].total as nat,
                    self@.fragments.dom() == self.fragments@.dom(),
                    self.max_fragment == old(self).max_fragment,
                    1 <= self.max_fragment <= MAX_PAYLOAD,
                    !self.fragments@.contains_key(frag_id),
                    self.recv_base == rb,
                    self.recv_bits == rbits,
                    self.unacked == old(self).unacked,
                    self.delivered == old(self).delivered,
                    self.next_seq == old(self).next_seq,
                    self.next_frag_id == old(self).next_frag_id,
                    self.pending_ack == old(self).pending_ack,
                    self.max_attempts == old(self).max_attempts,
                    self.retx == old(self).retx,
                ensures
                    evict(self@.fragments, self@.fragment_order) == target,
                    self@.fragments.dom().len() < MAX_PENDING_FRAGMENTS || self@.fragment_order.len() == 0,
                decreases self.fragment_order@.len(),
            {
                match self.fragment_order.pop_front() {
                    Some(oldest) => {
                        let ghost fb = self@.fragments;
                        self.fragments.remove(&oldest);
                        proof {
                            assert(self@.fragments =~= fb.remove(oldest));
                        }
                    },
                    None => {
                        break;
                    },
                }
            }
            proof {
                lemma_evict(f0, o0);
                assert(self@.fragments == target.0);
                assert(self@.fragment_order == target.1);
            }
            let mut parts: Vec<Option<Vec<u8>>> = Vec::new();
            let mut j: u8 = 0;
            while j < total
                invariant
                    j <= total,
                    parts@.len() == j as nat,
                    forall|x: int| 0 <= x < j ==> #[trigger] parts@[x] is None,
                decreases total - j,
            {
                parts.push(None);
                j = j + 1;
            }
            let ghost ob = self@.fragment_order;
            self.fragment_order.push_back(frag_id);
            let ghost fb = self@.fragments;
            self.fragments.insert(frag_id, FragBuf { total, parts });
            proof {
                let fv = FragView { total, parts: Seq::new(total as nat, |i: int| None) };
                assert(FragBuf { total, parts }.view().parts =~= fv.parts);
                assert(self@.fragments =~= fb.insert(frag_id, fv));
                assert(self@.fragment_order =~= ob.push(frag_id));
                assert forall|k: u16| #[trigger] self@.fragments.contains_key(k) implies self@.fragment_order.contains(k) by {
                    vstd::seq_lib::lemma_seq_contains_after_push(ob, frag_id, k);
                }
                assert(self@.fragments.dom() =~= fb.dom().insert(frag_id));
            }
        }
        let ghost f1 = self@.fragments;
        let ghost o1 = self@.fragment_order;
        proof {
            if !f0.contains_key(frag_id) {
                let (fe, oe) = evict(f0, o0);
                assert(f1 == fe.insert(frag_id, FragView { total, parts: Seq::new(total as nat, |i: int| None) }));
                assert(o1 == oe.push(frag_id));
            } else {
                assert(f1 == f0);
                assert(o1 == o0);
            }
            assert(self@.fragments.dom() =~= self.fragments@.dom());
            assert(forall|k: u16| #[trigger] f1.contains_key(k) ==> o1.contains(k));
            assert(f1.dom().len() <= MAX_PENDING_FRAGMENTS);
            assert(forall|k: u16| #[trigger] f1.contains_key(k) ==> f1[k].parts.len() == f1[k].total as nat);
            assert(f1.contains_key(frag_id));
            assert(self.fragments@.contains_key(frag_id));
        }
        let mut buf = match self.fragments.remove(&frag_id) {
            Some(b) => b,
            None => {
                proof {
                    assert(false);
                }
                return;
            },
        };
        proof {
            assert(buf.view() == f1[frag_id]);
        }
        if buf.total != total || index as usize >= buf.parts.len() {
            self.fragments.insert(frag_id, buf);
            proof {
                assert(self@.fragments =~= f1);
                let r = reassemble(old(self)@.fragments, old(self)@.fragment_order, old(self)@.delivered, frag_id, index, total, payload@);
                assert(r.0 == f1);
                assert(r.1 == o1);
                assert(r.2 == old(self)@.delivered);
                assert(self@.delivered == old(self)@.delivered);
                assert(self@.fragment_order == o1);
                assert(self@.unacked == old(self)@.unacked);
                assert(self@.next_seq == old(self)@.next_seq);
                assert(self@.pending_ack == old(self)@.pending_ack);
            }
            return;
        }
        buf.parts.set(index as usize, Some(payload));
        let ghost parts_v = f1[frag_id].parts.update(index as int, Some(payload@));
        proof {
            assert(buf.view().parts =~= parts_v);
        }
        let mut complete = true;
        let mut j: usize = 0;
        while j < buf.parts.len()
            invariant
                j <= buf.parts@.len(),
                buf.view().parts == parts_v,
                complete == (forall|x: int| 0 <= x < j ==> (#[trigger] parts_v[x]) is Some),
            decreases buf.parts@.len() - j,
        {
            if buf.parts[j].is_none() {
                complete = false;
            }
            proof {
                assert(parts_v[j as int] == part_view(buf.parts@[j as int]));
            }
            j = j + 1;
        }
        if complete {
            let mut full: Vec<u8> = Vec::new();
            let ghost vals = parts_v.map_values(|p: Option<Seq<u8>>| p->0);
            let mut j: usize = 0;
            while j < buf.parts.len()
                invariant
                    j <= buf.parts@.len(),
                    buf.view().parts == parts_v,
                    all_present(parts_v),
                    vals == parts_v.map_values(|p: Option<Seq<u8>>| p->0),
                    full@ == concat(vals.take(j as int)),
                decreases buf.parts@.len() - j,
            {
                proof {
                    assert(parts_v[j as int] == part_view(buf.parts@[j as int]));
                    assert(vals.take(j + 1).drop_last() =~= vals.take(j as int));
                }
                match &buf.parts[j] {
                    Some(part) => {
                        full.extend_from_slice(part.as_slice());
                    },
                    None => {},
                }
                j = j + 1;
            }
            proof {
                assert(vals.take(j as int) =~= vals);
                assert(full@ == joined(parts_v));
            }
            let ghost dl = self.delivered@;
            let front_matches = self.fragment_order.len() > 0 && self.fragment_order[0] == frag_id;
            if front_matches {
                self.fragment_order.pop_front();
            }
            self.delivered.push_back(full);
            proof {
                assert(self@.fragments =~= f1.remove(frag_id));
                assert(self.delivered@ == dl.push(full));
                assert(dl.map_values(|v: Vec<u8>| v@) =~= old(self)@.delivered);
                assert(self@.delivered =~= old(self)@.delivered.push(joined(parts_v)));
                if front_matches {
                    assert(self@.fragment_order =~= o1.drop_first());
                    assert forall|k: u16| #[trigger] self@.fragments.contains_key(k) implies self@.fragment_order.contains(k) by {
                        assert(o1.contains(k));
                        let x = choose|x: int| 0 <= x < o1.len() && o1[x] == k;
                        assert(x != 0);
                        assert(o1.drop_first()[x - 1] == k);
                    }
                } else {
                    assert(self@.fragment_order == o1);
                }
                assert(self@.fragments.dom() =~= f1.dom().remove(frag_id));
            }
        } else {
            self.fragments.insert(frag_id, buf);
            proof {
                assert(self@.fragments =~= f1.insert(frag_id, FragView { total, parts: parts_v }));
                assert(self@.fragments.dom() =~= f1.dom());
                assert(self@.fragment_order == o1);
            }
        }
    }

    /// Handle a decrypted inner frame. Returns the ACK plaintext to send
    /// back when the frame was DATA.
    pub fn ingest(&mut self, plaintext: &[u8]) -> (r: Result<Option<[u8; ACK_LEN]>, ArqError>)
        requires
            old(self).wf(),
        ensures
            final(self).wf(),
            ingest_step(old(self)@, final(self)@, plaintext@, match r {
                Ok(Some(a)) => Ok::<Option<Seq<u8>>, ArqError>(Some(a@)),
                Ok(None) => Ok::<Option<Seq<u8>>, ArqError>(None),
                Err(e) => Err::<Option<Seq<u8>>, ArqError>(e),
            }),
    {
        match decode_inner(plaintext) {
            Err(e) => Err(ArqError::Frame(e)),
            Ok(InnerFrame::Ack { base, bitmap }) => {
                self.on_ack(base, bitmap);
                Ok(None)
            },
            Ok(InnerFrame::Data { seq, frag_id, index, total, payload }) => {
                self.on_data(seq, frag_id, index, total, payload);
                self.pending_ack = true;
                Ok(Some(encode_ack(self.recv_base, self.recv_bits)))
            },
        }
    }

    fn on_ack(&mut self, base: u32, bitmap: u64)
        ensures
            final(self)@ == (ArqView {
                unacked: Map::new(
                    |k: u32| old(self)@.unacked.contains_key(k) && !is_acked(base, bitmap, k),
                    |k: u32| old(self)@.unacked[k],
                ),
                ..old(self)@
            }),
            final(self).fragments == old(self).fragments,
            final(self).fragment_order == old(self).fragment_order,
            final(self).max_fragment == old(self).max_fragment,
    {
        let ks = self.sorted_unacked_keys();
        let mut i: usize = 0;
        while i < ks.len()
            invariant
                i <= ks@.len(),
                ks@.to_set() == old(self).unacked@.dom(),
                ks@.no_duplicates(),
                forall|k: u32| #[trigger] self.unacked@.contains_key(k) <==> (old(self).unacked@.contains_key(k)
                    && !(is_acked(base, bitmap, k) && ks@.take(i as int).contains(k))),
                forall|k: u32| #[trigger] self.unacked@.contains_key(k) ==> self.unacked@[k] == old(self).unacked@[k],
                self.next_seq == old(self).next_seq,
                self.next_frag_id == old(self).next_frag_id,
                self.recv_base == old(self).recv_base,
                self.recv_bits == old(self).recv_bits,
                self.fragments == old(self).fragments,
                self.fragment_order == old(self).fragment_order,
                self.delivered == old(self).delivered,
                self.pending_ack == old(self).pending_ack,
                self.max_attempts == old(self).max_attempts,
                self.retx == old(self).retx,
                self.max_fragment == old(self).max_fragment,
            decreases ks@.len() - i,
        {
            let k = ks[i];
            let ghost before = self.unacked@;
            if acked(base, bitmap, k) {
                self.unacked.remove(&k);
                assert(self.unacked@ == before.remove(k));
            }
            proof {
                assert(ks@.take(i + 1) =~= ks@.take(i as int).push(k));
                assert forall|j: u32| ks@.take(i + 1).contains(j) <==> (ks@.take(i as int).contains(j) || j == k) by {
                    vstd::seq_lib::lemma_seq_contains_after_push(ks@.take(i as int), k, j);
                }
            }
            i = i + 1;
        }
        proof {
            assert(ks@.take(i as int) =~= ks@);
            assert forall|k: u32| old(self).unacked@.contains_key(k) implies ks@.contains(k) by {
                assert(ks@.to_set().contains(k));
            }
            assert(self@.unacked =~= Map::new(
                |k: u32| old(self)@.unacked.contains_key(k) && !is_acked(base, bitmap, k),
                |k: u32| old(self)@.unacked[k],
            ));
        }
    }
}

/// Whether an ACK `(base, bitmap)` acknowledges `seq`.
fn acked(base: u32, bitmap: u64, seq: u32) -> (r: bool)
    ensures
        r == is_acked(base, bitmap, seq),
{
    let ahead = seq.wrapping_sub(base);
    if ahead < RECV_WINDOW {
        (bitmap >> (ahead as u64)) & 1 == 1
    } else {
        let behind = base.wrapping_sub(seq);
        behind > 0 && behind < 1_000_000
    }
}

} // verus!
