use rtdp_core::cabi::{error_status, rtdp_codec_t, rtdp_header_t};
use rtdp_core::error::RtdpError;
use rtdp_core::protocol::frame::OwnedFrame;

fn data_record(payload_length: u32) -> rtdp_header_t {
    rtdp_header_t {
        magic: 0x5254,
        version: 1,
        flags: 0,
        message_type: 0x0001,
        header_length: 48,
        stream_id: 3,
        sequence: 9,
        timestamp_ns: 1234,
        publisher_id: 77,
        payload_length,
        checksum: 0,
    }
}

#[test]
fn test_cabi_encode_then_decode() {
    let codec = rtdp_codec_t::create(1472, true);
    let mut out = vec![0u8; 1500];
    let len = codec.encode_record(&data_record(0), b"hello", &mut out).expect("encode");
    assert_eq!(len, 53);

    let mut packet = out[..len].to_vec();
    let (h, payload) = codec.decode_packet(&mut packet).expect("decode");
    assert_eq!(payload, b"hello");
    assert_eq!(h.magic, 0x5254);
    assert_eq!(h.message_type, 0x0001);
    assert_eq!(h.header_length, 48);
    assert_eq!((h.stream_id, h.sequence, h.timestamp_ns, h.publisher_id), (3, 9, 1234, 77));
    assert_eq!(h.payload_length, 5);
    assert_ne!(h.checksum, 0);
}

#[test]
fn test_cabi_status_codes() {
    let codec = rtdp_codec_t::create(1472, true);
    let mut out = vec![0u8; 1500];

    let mut unknown = data_record(0);
    unknown.message_type = 0x0100;
    assert_eq!(codec.encode_record(&unknown, b"", &mut out), Err(-0x0004));

    let mut tiny = vec![0u8; 10];
    assert_eq!(codec.encode_record(&data_record(0), b"abc", &mut tiny), Err(-0x0002));

    let len = codec.encode_record(&data_record(0), b"abc", &mut out).expect("encode");
    let mut corrupted = out[..len].to_vec();
    corrupted[len - 1] ^= 0xFF;
    assert_eq!(codec.decode_packet(&mut corrupted).err(), Some(-0x0003));

    let mut short = vec![0u8; 12];
    assert_eq!(codec.decode_packet(&mut short).err(), Some(-0x0002));

    assert_eq!(error_status(&RtdpError::BufferExhausted, -0x0002), -0x0002);
    assert_eq!(error_status(&RtdpError::malformed(String::from("x")), 0), -0x0002);
}

#[test]
fn test_cabi_header_record() {
    let frame = OwnedFrame::new_data(1, 2, 3, 4, vec![9; 6]);
    let r = rtdp_header_t::from_header(&frame.header);
    assert_eq!(r.message_type, 0x0001);
    assert_eq!(r.payload_length, 6);
    assert_eq!((r.stream_id, r.sequence, r.timestamp_ns, r.publisher_id), (1, 2, 3, 4));
}
