use rtdp_core::error::{ErrorCode, RtdpError};
use rtdp_core::protocol::extensions::standard_types::{CORRELATION_ID, REQUIRED_CIPHER_SUITE, SOURCE_INGRESS_TS};
use rtdp_core::protocol::extensions::{is_known_extension, ExtensionIterator, HeaderExtension};
use rtdp_core::protocol::frame::OwnedFrame;
use rtdp_core::protocol::header::{FixedHeader, FrameFlags, MessageType};
use rtdp_core::recovery::{ReplayRequestPayload, ReplayUnavailablePayload};
use rtdp_core::serialization::{CodecConfig, FrameCodec};

fn codec() -> FrameCodec {
    FrameCodec::new(CodecConfig { max_frame_size: 1472, validate_checksum: true })
}

fn encode(frame: &OwnedFrame) -> Vec<u8> {
    let mut buf = vec![0u8; 1500];
    let len = codec().encode(frame, &mut buf).expect("encode");
    buf.truncate(len);
    buf
}

fn decode_code(bytes: &[u8]) -> Option<ErrorCode> {
    let mut pkt = bytes.to_vec();
    codec().decode(&mut pkt).err().and_then(|e| e.code())
}

/// Recomputes the CRC-32C of an encoded frame after editing it.
fn reseal(bytes: &mut Vec<u8>) {
    bytes[44..48].copy_from_slice(&[0, 0, 0, 0]);
    let crc = crc32c::crc32c(bytes);
    bytes[44..48].copy_from_slice(&crc.to_be_bytes());
}

#[test]
fn test_header_encode_exact_bytes_and_decode() {
    let h = FixedHeader::new_data(0x0102030405060708, 9, 10, 11, 5, 48);
    let mut buf = vec![0xEEu8; 50];
    h.encode(&mut buf).expect("encode");
    assert_eq!(&buf[0..8], &[0x52, 0x54, 0x01, 0x00, 0x00, 0x01, 0x00, 0x30]);
    assert_eq!(&buf[8..16], &[1, 2, 3, 4, 5, 6, 7, 8]);
    assert_eq!(&buf[16..24], &[0, 0, 0, 0, 0, 0, 0, 9]);
    assert_eq!(&buf[40..48], &[0, 0, 0, 5, 0, 0, 0, 0]);
    assert_eq!(&buf[48..50], &[0xEE, 0xEE]);
    assert_eq!(FixedHeader::decode(&buf).expect("decode"), h);

    let mut short = vec![0u8; 47];
    assert_eq!(h.encode(&mut short).unwrap_err().code(), Some(ErrorCode::MalformedFrame));
    assert_eq!(short, vec![0u8; 47]);
}

#[test]
fn test_header_decode_errors() {
    let h = FixedHeader::new_data(1, 2, 3, 4, 0, 48);
    let mut buf = vec![0u8; 48];
    h.encode(&mut buf).expect("encode");
    assert_eq!(FixedHeader::decode(&buf[..47]).unwrap_err().code(), Some(ErrorCode::MalformedFrame));
    let mut bad_magic = buf.clone();
    bad_magic[0] = 0;
    assert_eq!(FixedHeader::decode(&bad_magic).unwrap_err().code(), Some(ErrorCode::MalformedFrame));
    let mut bad_version = buf.clone();
    bad_version[2] = 2;
    assert_eq!(FixedHeader::decode(&bad_version).unwrap_err().code(), Some(ErrorCode::VersionMismatch));
    let mut bad_type = buf.clone();
    bad_type[5] = 0x09;
    assert_eq!(FixedHeader::decode(&bad_type).unwrap_err().code(), Some(ErrorCode::UnsupportedMessageType));
}

#[test]
fn test_message_type_values() {
    let all = [
        (MessageType::Data, 1u16),
        (MessageType::Heartbeat, 2),
        (MessageType::ReplayRequest, 3),
        (MessageType::ReplayResponse, 4),
        (MessageType::ReplayUnavailable, 5),
        (MessageType::SnapshotRequest, 6),
        (MessageType::SnapshotResponse, 7),
        (MessageType::Error, 8),
        (MessageType::Experimental(0xFF07), 0xFF07),
    ];
    for (m, v) in all {
        assert_eq!(m.as_u16(), v);
        assert_eq!(MessageType::from_u16(v).expect("known"), m);
    }
    let err = MessageType::from_u16(0x0009).unwrap_err();
    assert_eq!(err.code(), Some(ErrorCode::UnsupportedMessageType));
    assert!(MessageType::from_u16(0xFEFF).is_err());
}

#[test]
fn test_error_codes_and_texts() {
    let all = [
        (ErrorCode::VersionMismatch, 0x0001u16, "VERSION_MISMATCH (0x0001)"),
        (ErrorCode::MalformedFrame, 0x0002, "MALFORMED_FRAME (0x0002)"),
        (ErrorCode::ChecksumFailed, 0x0003, "CHECKSUM_FAILED (0x0003)"),
        (ErrorCode::UnsupportedMessageType, 0x0004, "UNSUPPORTED_MESSAGE_TYPE (0x0004)"),
        (ErrorCode::UnsupportedExtension, 0x0005, "UNSUPPORTED_EXTENSION (0x0005)"),
        (ErrorCode::ReplayUnavailable, 0x0006, "REPLAY_UNAVAILABLE (0x0006)"),
        (ErrorCode::ReplayRangeInvalid, 0x0007, "REPLAY_RANGE_INVALID (0x0007)"),
        (ErrorCode::StreamNotFound, 0x0008, "STREAM_NOT_FOUND (0x0008)"),
        (ErrorCode::PublisherNotAuthorized, 0x0009, "PUBLISHER_NOT_AUTHORIZED (0x0009)"),
        (ErrorCode::FrameTooLarge, 0x000A, "FRAME_TOO_LARGE (0x000A)"),
        (ErrorCode::RateLimited, 0x000B, "RATE_LIMITED (0x000B)"),
        (ErrorCode::Backpressure, 0x000C, "BACKPRESSURE (0x000C)"),
    ];
    for (c, v, text) in all {
        assert_eq!(c.as_u16(), v);
        assert_eq!(ErrorCode::from_u16(v), Some(c));
        assert_eq!(c.to_text(), text);
    }
    assert_eq!(ErrorCode::from_u16(0), None);
    assert_eq!(ErrorCode::from_u16(0x000D), None);
}

#[test]
fn test_error_constructors() {
    let e = RtdpError::checksum_failed(0xDEADBEEF, 1);
    assert_eq!(
        e,
        RtdpError::Protocol {
            code: ErrorCode::ChecksumFailed,
            detail: String::from("Wire checksum 0xDEADBEEF != calculated 0x00000001"),
        }
    );
    let e = RtdpError::unsupported_extension(0x8001);
    assert_eq!(
        e,
        RtdpError::Protocol {
            code: ErrorCode::UnsupportedExtension,
            detail: String::from("Critical extension type 0x8001 is not supported"),
        }
    );
    let e = RtdpError::frame_too_large(2000, 1472);
    assert_eq!(
        e,
        RtdpError::Protocol {
            code: ErrorCode::FrameTooLarge,
            detail: String::from("Frame length 2000 exceeds configured maximum 1472"),
        }
    );
    assert_eq!(RtdpError::frame_too_large(0, 7).code(), Some(ErrorCode::FrameTooLarge));
    assert_eq!(RtdpError::malformed(String::from("m")).code(), Some(ErrorCode::MalformedFrame));
    assert_eq!(RtdpError::version_mismatch(String::from("v")).code(), Some(ErrorCode::VersionMismatch));
    assert_eq!(RtdpError::Io(String::from("io")).code(), None);
    assert_eq!(RtdpError::UnrecoverableGap { from: 1, to: 2 }.code(), None);
}

#[test]
fn test_frame_flags() {
    let f = FrameFlags(FrameFlags::FRAGMENTED | FrameFlags::COMPRESSED);
    assert!(f.is_fragmented());
    assert!(!f.is_last_fragment());
    assert!(f.is_compressed());
    assert!(FrameFlags(2).is_last_fragment());
    assert!(!FrameFlags(0).is_fragmented());
}

#[test]
fn test_extension_encode_and_iterate() {
    let value = [0xAAu8, 0xBB, 0xCC];
    let ext = HeaderExtension::new(SOURCE_INGRESS_TS, &value);
    assert!(!ext.is_critical);
    assert_eq!(ext.wire_len(), 8);
    let mut buf = vec![0x11u8; 10];
    assert_eq!(ext.encode(&mut buf).expect("encode"), 8);
    assert_eq!(buf, vec![0x00, 0x01, 0x00, 0x03, 0xAA, 0xBB, 0xCC, 0x00, 0x11, 0x11]);

    let critical = HeaderExtension::new(REQUIRED_CIPHER_SUITE, &[]);
    assert!(critical.is_critical);
    let mut tiny = vec![0u8; 3];
    assert_eq!(critical.encode(&mut tiny).unwrap_err().code(), Some(ErrorCode::MalformedFrame));

    let mut it = ExtensionIterator::new(&buf[..8]);
    let first = it.next().expect("one").expect("valid");
    assert_eq!(first.ext_type, SOURCE_INGRESS_TS);
    assert_eq!(first.value, &[0xAA, 0xBB, 0xCC]);
    assert!(it.next().is_none());

    let mut truncated = ExtensionIterator::new(&buf[..6]);
    assert_eq!(truncated.next().expect("record").unwrap_err().code(), Some(ErrorCode::MalformedFrame));

    assert!(is_known_extension(SOURCE_INGRESS_TS));
    assert!(is_known_extension(CORRELATION_ID));
    assert!(!is_known_extension(REQUIRED_CIPHER_SUITE));
}

#[test]
fn test_codec_roundtrip_with_extensions() {
    let mut ext_bytes = vec![0u8; 12];
    HeaderExtension::new(CORRELATION_ID, &[1, 2, 3, 4, 5, 6, 7, 8]).encode(&mut ext_bytes).expect("ext");
    let frame = OwnedFrame {
        header: FixedHeader::new_data(5, 6, 7, 8, 0, 0),
        extension_bytes: ext_bytes.clone(),
        payload: b"payload".to_vec(),
    };
    let bytes = encode(&frame);
    assert_eq!(bytes.len(), 48 + 12 + 7);
    let mut zeroed = bytes.clone();
    zeroed[44..48].copy_from_slice(&[0, 0, 0, 0]);
    let wire_crc = u32::from_be_bytes([bytes[44], bytes[45], bytes[46], bytes[47]]);
    assert_eq!(wire_crc, crc32c::crc32c(&zeroed));

    let mut pkt = bytes.clone();
    let view = codec().decode(&mut pkt).expect("decode");
    assert_eq!(view.header.header_length, 60);
    assert_eq!(view.header.payload_length, 7);
    assert_eq!(view.header.stream_id, 5);
    assert_eq!(view.header.sequence, 6);
    assert_eq!(view.extension_bytes, &ext_bytes[..]);
    assert_eq!(view.payload, b"payload");
    let mut exts = view.extensions();
    let e = exts.next().expect("ext").expect("valid");
    assert_eq!(e.ext_type, CORRELATION_ID);
    assert!(exts.next().is_none());
    // Decoding leaves the packet as it was.
    assert_eq!(pkt, bytes);
}

#[test]
fn test_codec_decode_error_variants() {
    let frame = OwnedFrame::new_data(1, 1, 1, 1, b"abcd".to_vec());
    let good = encode(&frame);

    assert_eq!(decode_code(&good[..40]), Some(ErrorCode::MalformedFrame));

    let big = FrameCodec::new(CodecConfig { max_frame_size: 50, validate_checksum: true });
    let mut pkt = good.clone();
    assert_eq!(big.decode(&mut pkt).unwrap_err().code(), Some(ErrorCode::FrameTooLarge));

    let mut bad_magic = good.clone();
    bad_magic[1] = 0;
    assert_eq!(decode_code(&bad_magic), Some(ErrorCode::MalformedFrame));

    let mut bad_version = good.clone();
    bad_version[2] = 9;
    assert_eq!(decode_code(&bad_version), Some(ErrorCode::VersionMismatch));

    let mut unaligned = good.clone();
    unaligned[7] = 50;
    assert_eq!(decode_code(&unaligned), Some(ErrorCode::MalformedFrame));

    let mut wrong_len = good.clone();
    wrong_len[43] = 5;
    assert_eq!(decode_code(&wrong_len), Some(ErrorCode::MalformedFrame));

    let mut corrupted = good.clone();
    corrupted[50] ^= 0x40;
    assert_eq!(decode_code(&corrupted), Some(ErrorCode::ChecksumFailed));
    let unchecked = FrameCodec::new(CodecConfig { max_frame_size: 1472, validate_checksum: false });
    let mut pkt = corrupted.clone();
    assert!(unchecked.decode(&mut pkt).is_ok());

    let mut unknown_type = good.clone();
    unknown_type[5] = 0x30;
    reseal(&mut unknown_type);
    assert_eq!(decode_code(&unknown_type), Some(ErrorCode::UnsupportedMessageType));

    let mut heartbeat = good.clone();
    heartbeat[5] = 0x02;
    reseal(&mut heartbeat);
    assert_eq!(decode_code(&heartbeat), Some(ErrorCode::MalformedFrame));

    let mut short_request = good.clone();
    short_request[5] = 0x03;
    reseal(&mut short_request);
    assert_eq!(decode_code(&short_request), Some(ErrorCode::MalformedFrame));

    let mut short_response = good.clone();
    short_response[5] = 0x04;
    reseal(&mut short_response);
    assert_eq!(decode_code(&short_response), Some(ErrorCode::MalformedFrame));

    let mut ext_area = vec![0u8; 4];
    HeaderExtension::new(REQUIRED_CIPHER_SUITE, &[]).encode(&mut ext_area).expect("ext");
    let critical = OwnedFrame {
        header: FixedHeader::new_data(1, 1, 1, 1, 0, 0),
        extension_bytes: ext_area,
        payload: Vec::new(),
    };
    assert_eq!(decode_code(&encode(&critical)), Some(ErrorCode::UnsupportedExtension));
}

#[test]
fn test_replay_request_range_checked_on_decode() {
    let mut payload = vec![0u8; 24];
    ReplayRequestPayload { request_id: 1, from_sequence: 9, to_sequence: 3 }.encode(&mut payload).expect("p");
    let frame = OwnedFrame {
        header: FixedHeader { message_type: MessageType::ReplayRequest, ..FixedHeader::new_data(1, 0, 0, 0, 0, 0) },
        extension_bytes: Vec::new(),
        payload,
    };
    assert_eq!(decode_code(&encode(&frame)), Some(ErrorCode::ReplayRangeInvalid));
}

#[test]
fn test_replay_payload_roundtrips() {
    let req = ReplayRequestPayload { request_id: 0x0102030405060708, from_sequence: 10, to_sequence: 20 };
    let mut buf = vec![0u8; 30];
    req.encode(&mut buf).expect("encode");
    assert_eq!(&buf[0..8], &[1, 2, 3, 4, 5, 6, 7, 8]);
    assert_eq!(ReplayRequestPayload::decode(&buf).expect("decode"), req);
    let mut short = vec![0u8; 23];
    assert_eq!(req.encode(&mut short).unwrap_err().code(), Some(ErrorCode::MalformedFrame));
    assert_eq!(ReplayRequestPayload::decode(&buf[..23]).unwrap_err().code(), Some(ErrorCode::MalformedFrame));
    let backwards = ReplayRequestPayload { request_id: 1, from_sequence: 5, to_sequence: 4 };
    backwards.encode(&mut buf).expect("encode");
    assert_eq!(ReplayRequestPayload::decode(&buf).unwrap_err().code(), Some(ErrorCode::ReplayRangeInvalid));

    let un = ReplayUnavailablePayload { request_id: 7, first_unavailable: 8, last_unavailable: 6 };
    let mut buf = vec![0u8; 24];
    un.encode(&mut buf).expect("encode");
    assert_eq!(ReplayUnavailablePayload::decode(&buf).expect("decode"), un);
    assert_eq!(ReplayUnavailablePayload::decode(&buf[..10]).unwrap_err().code(), Some(ErrorCode::MalformedFrame));
}

#[test]
fn test_encode_refusals() {
    let c = codec();
    let mut unaligned = OwnedFrame::new_data(1, 1, 1, 1, Vec::new());
    unaligned.extension_bytes = vec![0u8; 3];
    let mut buf = vec![0u8; 100];
    assert_eq!(c.encode(&unaligned, &mut buf).unwrap_err().code(), Some(ErrorCode::MalformedFrame));
    assert_eq!(buf, vec![0u8; 100]);

    let frame = OwnedFrame::new_data(1, 1, 1, 1, vec![7; 10]);
    let mut short = vec![0u8; 57];
    assert_eq!(c.encode(&frame, &mut short).unwrap_err().code(), Some(ErrorCode::MalformedFrame));
    let mut exact = vec![0u8; 58];
    assert_eq!(c.encode(&frame, &mut exact).expect("fits"), 58);
}

fn decode_detail(bytes: &[u8]) -> String {
    let mut pkt = bytes.to_vec();
    match codec().decode(&mut pkt) {
        Err(RtdpError::Protocol { detail, .. }) => detail,
        other => panic!("expected a protocol error, got {:?}", other.map(|v| v.header)),
    }
}

#[test]
fn test_decode_error_details() {
    let good = encode(&OwnedFrame::new_data(1, 1, 1, 1, b"abcd".to_vec()));
    assert_eq!(decode_detail(&good[..40]), "Frame length 40 is less than minimum 48-byte header");
    let mut bad_magic = good.clone();
    bad_magic[1] = 0;
    assert_eq!(decode_detail(&bad_magic), "Invalid magic 0x5200, expected 0x5254");
    let mut bad_version = good.clone();
    bad_version[2] = 9;
    assert_eq!(decode_detail(&bad_version), "Unsupported protocol version 0x09, expected 0x01");
    let mut low = good.clone();
    low[7] = 44;
    assert_eq!(decode_detail(&low), "header_length 44 is below minimum 48");
    let mut unaligned = good.clone();
    unaligned[7] = 50;
    assert_eq!(decode_detail(&unaligned), "header_length 50 is not 4-byte aligned");
    let mut beyond = good.clone();
    beyond[7] = 56;
    assert_eq!(decode_detail(&beyond), "header_length 56 exceeds total packet length 52");
    let mut wrong_len = good.clone();
    wrong_len[43] = 5;
    assert_eq!(decode_detail(&wrong_len), "Frame size mismatch: header (48) + payload (5) != received packet (52)");
    let mut unknown_type = good.clone();
    unknown_type[5] = 0x30;
    reseal(&mut unknown_type);
    assert_eq!(decode_detail(&unknown_type), "Unknown message type: 0x0030");
    let mut heartbeat = good.clone();
    heartbeat[5] = 0x02;
    reseal(&mut heartbeat);
    assert_eq!(decode_detail(&heartbeat), "HEARTBEAT must have 0-length payload, got 4");
    let mut corrupted = good.clone();
    corrupted[44] ^= 0xFF;
    assert!(decode_detail(&corrupted).starts_with("Wire checksum 0x"));

    let frame = OwnedFrame::new_data(1, 1, 1, 1, vec![7; 10]);
    let mut short = vec![0u8; 57];
    match codec().encode(&frame, &mut short) {
        Err(RtdpError::Protocol { detail, .. }) => assert_eq!(detail, "Destination buffer size 57 < required 58"),
        other => panic!("unexpected {:?}", other),
    }

    let mut buf = vec![0u8; 24];
    ReplayRequestPayload { request_id: 1, from_sequence: 5, to_sequence: 4 }.encode(&mut buf).expect("p");
    assert_eq!(
        ReplayRequestPayload::decode(&buf),
        Err(RtdpError::Protocol {
            code: ErrorCode::ReplayRangeInvalid,
            detail: String::from("from_sequence 5 > to_sequence 4"),
        })
    );
}

#[test]
fn test_snapshot_messages_refused() {
    for (m, text) in [
        (MessageType::SnapshotRequest, "Message type 0x0006 is reserved and not supported in v0.1"),
        (MessageType::SnapshotResponse, "Message type 0x0007 is reserved and not supported in v0.1"),
    ] {
        let frame = OwnedFrame {
            header: FixedHeader { message_type: m, ..FixedHeader::new_data(1, 0, 0, 0, 0, 0) },
            extension_bytes: Vec::new(),
            payload: Vec::new(),
        };
        let bytes = encode(&frame);
        assert_eq!(decode_code(&bytes), Some(ErrorCode::UnsupportedMessageType));
        assert_eq!(decode_detail(&bytes), text);
    }
}

#[test]
fn test_decoded_packet_reencodes_to_itself() {
    let mut ext_bytes = vec![0u8; 12];
    HeaderExtension::new(0x7F01, &[9, 9, 9]).encode(&mut ext_bytes[..8]).expect("ext");
    HeaderExtension::new(SOURCE_INGRESS_TS, &[]).encode(&mut ext_bytes[8..]).expect("ext");
    let frame = OwnedFrame {
        header: FixedHeader::new_data(3, 4, 5, 6, 0, 0),
        extension_bytes: ext_bytes,
        payload: b"again".to_vec(),
    };
    let packet = encode(&frame);
    let mut pkt = packet.clone();
    let view = codec().decode(&mut pkt).expect("decode");
    let carried = OwnedFrame {
        header: view.header,
        extension_bytes: view.extension_bytes.to_vec(),
        payload: view.payload.to_vec(),
    };
    let mut out = vec![0u8; packet.len()];
    assert_eq!(codec().encode(&carried, &mut out).expect("encode"), packet.len());
    assert_eq!(out, packet);
}
