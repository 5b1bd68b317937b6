//! Inner plaintext frames carried inside Noise transport messages.

use vstd::prelude::*;
use vstd::slice::slice_subrange;
use vstd::slice::slice_to_vec;

use crate::bytes::{be_bytes, be_value, lemma_be_roundtrip, lemma_be_value_bound, pow256, push_be, read_be};

verus! {

/// Maximum application bytes per DATA fragment.
///
/// Sized so that `outer(8) + forward(6) + noise_tag(16) + DATA_HDR + payload`
/// stays under [`crate::MAX_DATAGRAM`].
pub const MAX_PAYLOAD: usize = 1024;

/// DATA inner header: kind(1) + seq(4) + frag_id(2) + index(1) + total(1).
pub const DATA_HDR_LEN: usize = 9;

/// ACK inner size: kind(1) + base(4) + bitmap(8).
pub const ACK_LEN: usize = 13;

/// Kind byte of a DATA frame.
pub const KIND_DATA: u8 = 0x01;

/// Kind byte of an ACK frame.
pub const KIND_ACK: u8 = 0x02;

/// Inner frame after Noise decrypt.
#[derive(Clone, Debug, PartialEq, Eq)]
pub enum InnerFrame {
    /// Application fragment.
    Data {
        /// Per-session sequence number.
        seq: u32,
        /// Groups fragments of one application message.
        frag_id: u16,
        /// Zero-based fragment index.
        index: u8,
        /// Number of fragments in this message (`>= 1`).
        total: u8,
        /// Fragment payload.
        payload: Vec<u8>,
    },
    /// Selective ACK.
    Ack {
        /// Lowest sequence the receiver still considers its window base.
        base: u32,
        /// Bit `i` set ⇒ `base + i` received.
        bitmap: u64,
    },
}

/// An inner frame with its payload as a sequence.
pub enum FrameView {
    /// Application fragment.
    Data { seq: u32, frag_id: u16, index: u8, total: u8, payload: Seq<u8> },
    /// Selective ACK.
    Ack { base: u32, bitmap: u64 },
}

impl View for InnerFrame {
    type V = FrameView;

    open spec fn view(&self) -> FrameView {
        match self {
            InnerFrame::Data { seq, frag_id, index, total, payload } => FrameView::Data {
                seq: *seq,
                frag_id: *frag_id,
                index: *index,
                total: *total,
                payload: payload@,
            },
            InnerFrame::Ack { base, bitmap } => FrameView::Ack { base: *base, bitmap: *bitmap },
        }
    }
}

/// Inner codec errors.
#[derive(Clone, Copy, Debug, PartialEq, Eq, Structural)]
pub enum FrameError {
    /// Truncated buffer.
    Truncated,
    /// Unknown kind byte.
    BadKind,
    /// Fragment fields inconsistent.
    BadFragment,
}

/// Wire bytes of a DATA frame.
pub open spec fn data_frame(seq: u32, frag_id: u16, index: u8, total: u8, payload: Seq<u8>) -> Seq<u8> {
    seq![KIND_DATA] + be_bytes(seq as nat, 4) + be_bytes(frag_id as nat, 2) + seq![index, total]
        + payload
}

/// Wire bytes of an ACK frame.
pub open spec fn ack_frame(base: u32, bitmap: u64) -> Seq<u8> {
    seq![KIND_ACK] + be_bytes(base as nat, 4) + be_bytes(bitmap as nat, 8)
}

/// What `decode_inner` answers for `b`.
pub open spec fn inner_decoding(b: Seq<u8>) -> Result<FrameView, FrameError> {
    if b.len() == 0 {
        Err(FrameError::Truncated)
    } else if b[0] == KIND_DATA {
        if b.len() < DATA_HDR_LEN {
            Err(FrameError::Truncated)
        } else if b[8] == 0 || b[7] >= b[8] {
            Err(FrameError::BadFragment)
        } else {
            Ok(
                FrameView::Data {
                    seq: be_value(b.subrange(1, 5)) as u32,
                    frag_id: be_value(b.subrange(5, 7)) as u16,
                    index: b[7],
                    total: b[8],
                    payload: b.subrange(DATA_HDR_LEN as int, b.len() as int),
                },
            )
        }
    } else if b[0] == KIND_ACK {
        if b.len() < ACK_LEN {
            Err(FrameError::Truncated)
        } else {
            Ok(
                FrameView::Ack {
                    base: be_value(b.subrange(1, 5)) as u32,
                    bitmap: be_value(b.subrange(5, 13)) as u64,
                },
            )
        }
    } else {
        Err(FrameError::BadKind)
    }
}

/// Encode a DATA inner frame.
pub fn encode_data(seq: u32, frag_id: u16, index: u8, total: u8, payload: &[u8]) -> (out: Vec<u8>)
    ensures
        out@ == data_frame(seq, frag_id, index, total, payload@),
{
    let mut out: Vec<u8> = Vec::new();
    out.push(KIND_DATA);
    push_be(&mut out, seq as u64, 4);
    push_be(&mut out, frag_id as u64, 2);
    out.push(index);
    out.push(total);
    out.extend_from_slice(payload);
    assert(out@ =~= data_frame(seq, frag_id, index, total, payload@));
    out
}

/// Encode an ACK inner frame.
pub fn encode_ack(base: u32, bitmap: u64) -> (out: [u8; ACK_LEN])
    ensures
        out@ == ack_frame(base, bitmap),
{
    let mut v: Vec<u8> = Vec::new();
    v.push(KIND_ACK);
    push_be(&mut v, base as u64, 4);
    push_be(&mut v, bitmap, 8);
    proof {
        reveal_with_fuel(pow256, 9);
        lemma_be_roundtrip(base as nat, 4);
        lemma_be_roundtrip(bitmap as nat, 8);
        assert(v@ =~= ack_frame(base, bitmap));
    }
    let out: [u8; ACK_LEN] = [
        v[0], v[1], v[2], v[3], v[4], v[5], v[6], v[7], v[8], v[9], v[10], v[11], v[12],
    ];
    assert(out@ =~= v@);
    out
}

/// Decode an inner frame.
pub fn decode_inner(bytes: &[u8]) -> (r: Result<InnerFrame, FrameError>)
    ensures
        match r {
            Ok(f) => inner_decoding(bytes@) == Ok::<FrameView, FrameError>(f@),
            Err(e) => inner_decoding(bytes@) == Err::<FrameView, FrameError>(e),
        },
{
    let len = bytes.len();
    if len == 0 {
        return Err(FrameError::Truncated);
    }
    if bytes[0] == KIND_DATA {
        if len < DATA_HDR_LEN {
            return Err(FrameError::Truncated);
        }
        let seq = read_be(bytes, 1, 4);
        let frag_id = read_be(bytes, 5, 2);
        let index = bytes[7];
        let total = bytes[8];
        if total == 0 || index >= total {
            return Err(FrameError::BadFragment);
        }
        proof {
            lemma_be_value_bound(bytes@.subrange(1, 5));
            lemma_be_value_bound(bytes@.subrange(5, 7));
            reveal_with_fuel(pow256, 5);
        }
        let payload = slice_to_vec(slice_subrange(bytes, DATA_HDR_LEN, len));
        Ok(InnerFrame::Data { seq: seq as u32, frag_id: frag_id as u16, index, total, payload })
    } else if bytes[0] == KIND_ACK {
        if len < ACK_LEN {
            return Err(FrameError::Truncated);
        }
        let base = read_be(bytes, 1, 4);
        let bitmap = read_be(bytes, 5, 8);
        proof {
            lemma_be_value_bound(bytes@.subrange(1, 5));
            reveal_with_fuel(pow256, 5);
        }
        Ok(InnerFrame::Ack { base: base as u32, bitmap })
    } else {
        Err(FrameError::BadKind)
    }
}

/// Decoding an encoded DATA frame gives back its fields, whenever they are a
/// consistent fragment header (`index < total`).
pub proof fn lemma_data_roundtrip(seq: u32, frag_id: u16, index: u8, total: u8, payload: Seq<u8>)
    requires
        index < total,
    ensures
        inner_decoding(data_frame(seq, frag_id, index, total, payload)) == Ok::<FrameView, FrameError>(
            FrameView::Data { seq, frag_id, index, total, payload },
        ),
{
    reveal_with_fuel(pow256, 5);
    lemma_be_roundtrip(seq as nat, 4);
    lemma_be_roundtrip(frag_id as nat, 2);
    let b = data_frame(seq, frag_id, index, total, payload);
    assert(b.subrange(1, 5) =~= be_bytes(seq as nat, 4));
    assert(b.subrange(5, 7) =~= be_bytes(frag_id as nat, 2));
    assert(b.subrange(9, b.len() as int) =~= payload);
}

/// Decoding an encoded ACK frame gives back its base and bitmap.
pub proof fn lemma_ack_roundtrip(base: u32, bitmap: u64)
    ensures
        inner_decoding(ack_frame(base, bitmap)) == Ok::<FrameView, FrameError>(FrameView::Ack { base, bitmap }),
{
    reveal_with_fuel(pow256, 9);
    lemma_be_roundtrip(base as nat, 4);
    lemma_be_roundtrip(bitmap as nat, 8);
    let b = ack_frame(base, bitmap);
    assert(b.subrange(1, 5) =~= be_bytes(base as nat, 4));
    assert(b.subrange(5, 13) =~= be_bytes(bitmap as nat, 8));
}


/// Layout of a DATA frame: kind byte 1, the sequence number big-endian in
/// bytes 1..5, the fragment identifier big-endian in bytes 5..7, the
/// fragment's index at byte 7, the fragment count at byte 8, then the
/// payload.
pub proof fn lemma_data_layout(seq: u32, frag_id: u16, index: u8, total: u8, payload: Seq<u8>)
    ensures
        data_frame(seq, frag_id, index, total, payload).len() == 9 + payload.len(),
        data_frame(seq, frag_id, index, total, payload)[0] == 1u8,
        be_value(data_frame(seq, frag_id, index, total, payload).subrange(1, 5)) == seq,
        be_value(data_frame(seq, frag_id, index, total, payload).subrange(5, 7)) == frag_id,
        data_frame(seq, frag_id, index, total, payload)[7] == index,
        data_frame(seq, frag_id, index, total, payload)[8] == total,
        data_frame(seq, frag_id, index, total, payload).subrange(9, 9 + payload.len() as int) == payload,
{
    let f = data_frame(seq, frag_id, index, total, payload);
    reveal_with_fuel(pow256, 5);
    lemma_be_roundtrip(seq as nat, 4);
    lemma_be_roundtrip(frag_id as nat, 2);
    assert(f.subrange(1, 5) =~= be_bytes(seq as nat, 4));
    assert(f.subrange(5, 7) =~= be_bytes(frag_id as nat, 2));
    assert(f.subrange(9, 9 + payload.len() as int) =~= payload);
}

/// Decoding a DATA frame reads the fragment index from byte 7 and the
/// fragment count from byte 8, and takes the frame exactly when it has a
/// full header, the count is nonzero and the index lies below it.
pub proof fn lemma_data_fields(b: Seq<u8>)
    ensures
        inner_decoding(b) matches Ok(FrameView::Data { seq, frag_id, index, total, payload }) ==> b.len() >= 9 && b[0]
            == 1u8 && index == b[7] && total == b[8] && index < total && seq == be_value(b.subrange(1, 5)) && frag_id
            == be_value(b.subrange(5, 7)) && payload == b.subrange(9, b.len() as int),
        b.len() >= 9 && b[0] == 1u8 ==> (inner_decoding(b) is Ok <==> b[7] < b[8]),
{
    if b.len() >= 9 {
        lemma_be_value_bound(b.subrange(1, 5));
        lemma_be_value_bound(b.subrange(5, 7));
        reveal_with_fuel(pow256, 5);
    }
}

} // verus!
