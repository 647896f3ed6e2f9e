use rtdp_core::error::ErrorCode;
use rtdp_core::protocol::frame::OwnedFrame;
use rtdp_core::recovery::{RecoveryConfig, RecoveryEngine, RecoveryState, ReplayUnavailablePayload};
use rtdp_core::serialization::{CodecConfig, FrameCodec};

#[test]
fn test_fault_matrix_checksum_corruption() {
    let codec = FrameCodec::new(CodecConfig { max_frame_size: 1472, validate_checksum: true });

    let frame = OwnedFrame::new_data(1, 100, 1000, 10, b"CORRUPTION_TEST_PAYLOAD".to_vec());
    let mut buf = vec![0u8; 1500];
    let len = codec.encode(&frame, &mut buf).expect("Encode");

    buf[len - 1] ^= 0x01;

    let mut decode_buf = buf[..len].to_vec();
    let res = codec.decode(&mut decode_buf);
    assert!(res.is_err());
    assert_eq!(res.unwrap_err().code(), Some(ErrorCode::ChecksumFailed));
}

#[test]
fn test_fault_matrix_mtu_exceeded() {
    let codec = FrameCodec::new(CodecConfig { max_frame_size: 1472, validate_checksum: true });

    let huge_payload = vec![0x42; 1500];
    let frame = OwnedFrame::new_data(1, 1, 1000, 10, huge_payload);
    let mut buf = vec![0u8; 2000];
    let res = codec.encode(&frame, &mut buf);
    assert!(res.is_err());
    assert_eq!(res.unwrap_err().code(), Some(ErrorCode::FrameTooLarge));
}

#[test]
fn test_fault_matrix_retention_expiry_unavailable() {
    let mut engine = RecoveryEngine::new(RecoveryConfig::default());
    let _req = engine.create_replay_request(10, 20).expect("Create req");

    let unavail = ReplayUnavailablePayload { request_id: 1, first_unavailable: 10, last_unavailable: 15 };

    let res = engine.handle_replay_unavailable(&unavail);
    assert!(res.is_err());
    assert_eq!(engine.state(), RecoveryState::RecoveryFailed);
}
