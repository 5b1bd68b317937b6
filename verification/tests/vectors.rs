//! Byte-level vectors for the outer header and inner frames.

use ppose::network::packet::{decode_outer, encode_datagram, encode_outer, PacketError, PacketType};
use ppose::reliability::{decode_inner, encode_ack, encode_data, FrameError, InnerFrame};
use ppose::{MAGIC, NOISE_PARAMS, OUTER_HEADER_LEN, PROTOCOL_VERSION};

#[test]
fn outer_header_vector() {
    let hdr = encode_outer(PacketType::Data, 0);
    assert_eq!(hdr[0], MAGIC[0]);
    assert_eq!(hdr[1], MAGIC[1]);
    assert_eq!(hdr[2], PROTOCOL_VERSION);
    assert_eq!(hdr[3], 2);
    assert_eq!(&hdr[4..], &[0, 0, 0, 0]);
    let (ty, flags, body) = decode_outer(&hdr).unwrap();
    assert_eq!(ty, PacketType::Data);
    assert_eq!(flags, 0);
    assert!(body.is_empty());
}

#[test]
fn inner_data_vector() {
    let bytes = encode_data(0x0102_0304, 0x1122, 1, 3, b"xy");
    assert_eq!(bytes[0], 0x01);
    assert_eq!(&bytes[1..5], &[1, 2, 3, 4]);
    match decode_inner(&bytes).unwrap() {
        InnerFrame::Data { seq, frag_id, index, total, payload } => {
            assert_eq!(seq, 0x0102_0304);
            assert_eq!(frag_id, 0x1122);
            assert_eq!(index, 1);
            assert_eq!(total, 3);
            assert_eq!(payload, b"xy");
        }
        other => panic!("{other:?}"),
    }
}

#[test]
fn inner_ack_vector() {
    let bytes = encode_ack(9, 0x8000_0000_0000_0001);
    match decode_inner(&bytes).unwrap() {
        InnerFrame::Ack { base, bitmap } => {
            assert_eq!(base, 9);
            assert_eq!(bitmap, 0x8000_0000_0000_0001);
        }
        other => panic!("{other:?}"),
    }
}

#[test]
fn constants_match_spec() {
    assert_eq!(PROTOCOL_VERSION, 0x03);
    assert_eq!(MAGIC, [0x4A, 0x7F]);
    assert_eq!(OUTER_HEADER_LEN, 8);
    assert!(!NOISE_PARAMS.is_empty());
}

#[test]
fn encode_decode_roundtrip() {
    let hdr = encode_outer(PacketType::Data, 0);
    assert_eq!(hdr.len(), 8);
    let (ty, flags, body) = decode_outer(&hdr).unwrap();
    assert_eq!(ty, PacketType::Data);
    assert_eq!(flags, 0);
    assert!(body.is_empty());
}

#[test]
fn rejects_bad_magic() {
    let mut hdr = encode_outer(PacketType::Handshake, 0);
    hdr[0] ^= 0xff;
    assert_eq!(decode_outer(&hdr), Err(PacketError::BadMagic));
}

#[test]
fn forward_type_roundtrip() {
    assert_eq!(PacketType::from_u8(4), Some(PacketType::Forward));
    assert_eq!(PacketType::from_u8(0), None);
}

#[test]
fn data_roundtrip() {
    let enc = encode_data(7, 3, 0, 2, b"ab");
    match decode_inner(&enc).unwrap() {
        InnerFrame::Data { seq, frag_id, index, total, payload } => {
            assert_eq!(seq, 7);
            assert_eq!(frag_id, 3);
            assert_eq!(index, 0);
            assert_eq!(total, 2);
            assert_eq!(payload, b"ab");
        }
        other => panic!("unexpected {other:?}"),
    }
}

#[test]
fn ack_roundtrip() {
    let enc = encode_ack(10, 0b1011);
    match decode_inner(&enc).unwrap() {
        InnerFrame::Ack { base, bitmap } => {
            assert_eq!(base, 10);
            assert_eq!(bitmap, 0b1011);
        }
        other => panic!("unexpected {other:?}"),
    }
}

#[test]
fn header_errors_in_check_order() {
    assert_eq!(decode_outer(&[0x4A, 0x7F, 3]), Err(PacketError::Truncated));
    let mut d = encode_datagram(PacketType::Onion, b"body").unwrap();
    assert_eq!(decode_outer(&d).unwrap().2, b"body");
    d[2] = 9;
    assert_eq!(decode_outer(&d), Err(PacketError::BadVersion));
    d[2] = PROTOCOL_VERSION;
    d[3] = 7;
    assert_eq!(decode_outer(&d), Err(PacketError::BadType));
    assert_eq!(encode_datagram(PacketType::Data, &[0u8; 1193]), Err(PacketError::TooLarge));
    assert_eq!(encode_datagram(PacketType::Data, &[0u8; 1192]).unwrap().len(), 1200);
}

#[test]
fn inner_frame_errors() {
    assert_eq!(decode_inner(&[]), Err(FrameError::Truncated));
    assert_eq!(decode_inner(&[0x01, 0, 0]), Err(FrameError::Truncated));
    assert_eq!(decode_inner(&[0x02, 0, 0, 0, 0]), Err(FrameError::Truncated));
    assert_eq!(decode_inner(&[0x09]), Err(FrameError::BadKind));
    assert_eq!(decode_inner(&encode_data(1, 1, 2, 2, b"")), Err(FrameError::BadFragment));
    assert_eq!(decode_inner(&encode_data(1, 1, 0, 0, b"")), Err(FrameError::BadFragment));
}
