//! Cleartext outer header encode/decode (8 bytes).

use vstd::prelude::*;
use vstd::slice::slice_subrange;

use crate::{MAGIC0, MAGIC1, MAX_DATAGRAM, OUTER_HEADER_LEN, PROTOCOL_VERSION};

verus! {

/// Packet type discriminator.
#[derive(Clone, Copy, Debug, PartialEq, Eq, Structural)]
pub enum PacketType {
    /// Noise handshake message.
    Handshake,
    /// Encrypted application / ACK (Noise transport).
    Data,
    /// Unused (inner ACK rides in Data). Kept for decode completeness.
    Ack,
    /// Cleartext IPv4 forward wrapper. Relay sees destination. Not onion routing.
    Forward,
    /// Nested AEAD hop (PND). Not Sphinx.
    Onion,
    /// Rendezvous register / lookup.
    Rendezvous,
}

/// Framing errors.
#[derive(Clone, Copy, Debug, PartialEq, Eq, Structural)]
pub enum PacketError {
    /// Datagram shorter than outer header.
    Truncated,
    /// MAGIC mismatch.
    BadMagic,
    /// Unsupported VER.
    BadVersion,
    /// Unknown TYPE.
    BadType,
    /// Exceeds MAX_DATAGRAM.
    TooLarge,
    /// Non-IPv4 address in a forward wrapper.
    BadAddress,
}

/// The wire byte of each packet type.
pub open spec fn type_byte(ty: PacketType) -> u8 {
    match ty {
        PacketType::Handshake => 1,
        PacketType::Data => 2,
        PacketType::Ack => 3,
        PacketType::Forward => 4,
        PacketType::Onion => 5,
        PacketType::Rendezvous => 6,
    }
}

/// The packet type a wire byte names, if any.
pub open spec fn type_of_byte(v: u8) -> Option<PacketType> {
    if v == 1 {
        Some(PacketType::Handshake)
    } else if v == 2 {
        Some(PacketType::Data)
    } else if v == 3 {
        Some(PacketType::Ack)
    } else if v == 4 {
        Some(PacketType::Forward)
    } else if v == 5 {
        Some(PacketType::Onion)
    } else if v == 6 {
        Some(PacketType::Rendezvous)
    } else {
        None
    }
}

/// The 8-byte outer header: magic, version, type, flags, three zero bytes.
pub open spec fn outer_header(ty: PacketType, flags: u8) -> Seq<u8> {
    seq![MAGIC0, MAGIC1, PROTOCOL_VERSION, type_byte(ty), flags, 0u8, 0u8, 0u8]
}

/// A complete datagram: header with zero flags, then the body.
pub open spec fn datagram(ty: PacketType, body: Seq<u8>) -> Seq<u8> {
    outer_header(ty, 0) + body
}

/// What `decode_outer` answers for `bytes`: type, flags and body, or the
/// first check that fails.
pub open spec fn outer_decoding(bytes: Seq<u8>) -> Result<(PacketType, u8, Seq<u8>), PacketError> {
    if bytes.len() < OUTER_HEADER_LEN {
        Err(PacketError::Truncated)
    } else if bytes[0] != MAGIC0 || bytes[1] != MAGIC1 {
        Err(PacketError::BadMagic)
    } else if bytes[2] != PROTOCOL_VERSION {
        Err(PacketError::BadVersion)
    } else if type_of_byte(bytes[3]) is None {
        Err(PacketError::BadType)
    } else {
        Ok((type_of_byte(bytes[3])->0, bytes[4], bytes.subrange(OUTER_HEADER_LEN as int, bytes.len() as int)))
    }
}

impl PacketType {
    /// Parse type byte.
    pub fn from_u8(v: u8) -> (r: Option<Self>)
        ensures
            r == type_of_byte(v),
    {
        match v {
            1 => Some(Self::Handshake),
            2 => Some(Self::Data),
            3 => Some(Self::Ack),
            4 => Some(Self::Forward),
            5 => Some(Self::Onion),
            6 => Some(Self::Rendezvous),
            _ => None,
        }
    }

    /// Type byte on the wire.
    pub fn to_u8(self) -> (v: u8)
        ensures
            v == type_byte(self),
    {
        match self {
            Self::Handshake => 1,
            Self::Data => 2,
            Self::Ack => 3,
            Self::Forward => 4,
            Self::Onion => 5,
            Self::Rendezvous => 6,
        }
    }
}

/// Encode the 8-byte outer header.
pub fn encode_outer(ty: PacketType, flags: u8) -> (out: [u8; 8])
    ensures
        out@ == outer_header(ty, flags),
{
    let out: [u8; 8] = [MAGIC0, MAGIC1, PROTOCOL_VERSION, ty.to_u8(), flags, 0, 0, 0];
    assert(out@ =~= outer_header(ty, flags));
    out
}

/// Full datagram: outer header + body.
pub fn encode_datagram(ty: PacketType, body: &[u8]) -> (r: Result<Vec<u8>, PacketError>)
    ensures
        OUTER_HEADER_LEN + body@.len() > MAX_DATAGRAM <==> r == Err::<Vec<u8>, PacketError>(PacketError::TooLarge),
        r matches Err(e) ==> e == PacketError::TooLarge,
        r matches Ok(pkt) ==> pkt@ == datagram(ty, body@),
{
    if body.len() > MAX_DATAGRAM - OUTER_HEADER_LEN {
        return Err(PacketError::TooLarge);
    }
    let hdr = encode_outer(ty, 0);
    let mut pkt: Vec<u8> = Vec::with_capacity(OUTER_HEADER_LEN + body.len());
    pkt.extend_from_slice(&hdr);
    pkt.extend_from_slice(body);
    assert(pkt@ =~= datagram(ty, body@));
    Ok(pkt)
}

/// Decode and validate outer header. Returns `(type, flags, body)`.
pub fn decode_outer(bytes: &[u8]) -> (r: Result<(PacketType, u8, &[u8]), PacketError>)
    ensures
        match r {
            Ok((ty, flags, body)) => outer_decoding(bytes@) == Ok::<(PacketType, u8, Seq<u8>), PacketError>((ty, flags, body@)),
            Err(e) => outer_decoding(bytes@) == Err::<(PacketType, u8, Seq<u8>), PacketError>(e),
        },
{
    if bytes.len() < OUTER_HEADER_LEN {
        return Err(PacketError::Truncated);
    }
    if bytes[0] != MAGIC0 || bytes[1] != MAGIC1 {
        return Err(PacketError::BadMagic);
    }
    if bytes[2] != PROTOCOL_VERSION {
        return Err(PacketError::BadVersion);
    }
    let ty = match PacketType::from_u8(bytes[3]) {
        Some(t) => t,
        None => return Err(PacketError::BadType),
    };
    let flags = bytes[4];
    Ok((ty, flags, slice_subrange(bytes, OUTER_HEADER_LEN, bytes.len())))
}

/// Decoding a datagram gives back the type, zero flags and the body it was
/// built from.
pub proof fn lemma_datagram_roundtrip(ty: PacketType, body: Seq<u8>)
    ensures
        outer_decoding(datagram(ty, body)) == Ok::<(PacketType, u8, Seq<u8>), PacketError>((ty, 0u8, body)),
{
    let d = datagram(ty, body);
    assert(d.subrange(8, d.len() as int) =~= body);
}

/// Decoding a bare header gives back its type and flags with an empty body.
pub proof fn lemma_header_roundtrip(ty: PacketType, flags: u8)
    ensures
        outer_decoding(outer_header(ty, flags)) == Ok::<(PacketType, u8, Seq<u8>), PacketError>((ty, flags, Seq::<u8>::empty())),
{
    let d = outer_header(ty, flags);
    assert(d.subrange(8, 8) =~= Seq::<u8>::empty());
}


/// The protocol numbers the packet types Handshake 1, Data 2, Ack 3,
/// Forward 4, Onion 5, Rendezvous 6: a header starts with the magic and
/// version and carries its type's number at byte 3.
pub proof fn lemma_type_numbers(ty: PacketType, flags: u8)
    ensures
        outer_header(ty, flags).len() == 8,
        outer_header(ty, flags)[0] == 0x4Au8,
        outer_header(ty, flags)[1] == 0x7Fu8,
        outer_header(ty, flags)[4] == flags,
        outer_header(ty, flags)[3] == match ty {
            PacketType::Handshake => 1u8,
            PacketType::Data => 2u8,
            PacketType::Ack => 3u8,
            PacketType::Forward => 4u8,
            PacketType::Onion => 5u8,
            PacketType::Rendezvous => 6u8,
        },
{
}

/// Decoding gives back the type whose number stands at byte 3: a datagram
/// decodes as a type only when its byte 3 is that type's number, and every
/// number from 1 to 6 names a type.
pub proof fn lemma_decoded_type(b: Seq<u8>)
    ensures
        outer_decoding(b) matches Ok((ty, _, _)) ==> b[3] == match ty {
            PacketType::Handshake => 1u8,
            PacketType::Data => 2u8,
            PacketType::Ack => 3u8,
            PacketType::Forward => 4u8,
            PacketType::Onion => 5u8,
            PacketType::Rendezvous => 6u8,
        },
        b.len() >= 8 && b[0] == 0x4Au8 && b[1] == 0x7Fu8 && b[2] == PROTOCOL_VERSION && 1 <= b[3] <= 6
            ==> outer_decoding(b) is Ok,
{
}

} // verus!
