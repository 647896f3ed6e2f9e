use std::time::Duration;

use rtdp_core::buffers::BoundedRingBuffer;
use rtdp_core::delivery::{DeliveryMode, StreamReceiver};
use rtdp_core::protocol::frame::OwnedFrame;
use rtdp_core::protocol::header::MessageType;
use rtdp_core::recovery::{RecoveryConfig, RecoveryState, ReplayRequestPayload, ReplayUnavailablePayload};
use rtdp_core::serialization::{CodecConfig, FrameCodec};
use rtdp_core::transport::{
    answer_replay_request, datagram_acceptable, encode_datagram, handle_datagram, publish_frame,
    replay_request_frame, replay_request_in, replay_response_frame, replay_unavailable_frame, PublisherState,
    REPLAY_SEND_BUFFER_SIZE,
};

/// The publisher side of an in-memory link: numbering, retention ring, codec.
struct Publisher {
    state: PublisherState,
    ring: BoundedRingBuffer,
    codec: FrameCodec,
}

impl Publisher {
    fn new(stream_id: u64, publisher_id: u64) -> Self {
        Publisher {
            state: PublisherState::new(stream_id, publisher_id),
            ring: BoundedRingBuffer::new(1000),
            codec: FrameCodec::new(CodecConfig { max_frame_size: 1472, validate_checksum: true }),
        }
    }

    fn publish(&mut self, payload: &[u8], timestamp_ns: u64) -> (u64, Vec<u8>) {
        self.state
            .publish(&mut self.ring, &self.codec, payload.to_vec(), timestamp_ns, 1472)
            .expect("Publish")
    }

    fn publish_frame(&mut self, frame: &OwnedFrame, store_in_ring: bool) -> Vec<u8> {
        publish_frame(&mut self.ring, &self.codec, frame, store_in_ring, 1472).expect("Send")
    }

    /// The datagrams the publisher sends back for one it receives.
    fn answer(&self, datagram: &[u8]) -> Vec<Vec<u8>> {
        let mut pkt = datagram.to_vec();
        let view = match self.codec.decode(&mut pkt) {
            Ok(v) => v,
            Err(_) => return Vec::new(),
        };
        if view.header.message_type != MessageType::ReplayRequest {
            return Vec::new();
        }
        let req = match ReplayRequestPayload::decode(view.payload) {
            Ok(r) => r,
            Err(_) => return Vec::new(),
        };
        answer_replay_request(&self.ring, self.state.stream_id, self.state.publisher_id, req)
            .iter()
            .filter_map(|f| encode_datagram(&self.codec, f, REPLAY_SEND_BUFFER_SIZE).ok())
            .collect()
    }
}

/// The subscriber side of an in-memory link.
struct Subscriber {
    rx: StreamReceiver,
    codec: FrameCodec,
    delivered: Vec<OwnedFrame>,
}

impl Subscriber {
    fn new(stream_id: u64, mode: DeliveryMode, config: RecoveryConfig) -> Self {
        Subscriber {
            rx: StreamReceiver::new(stream_id, mode, config),
            codec: FrameCodec::new(CodecConfig { max_frame_size: 1472, validate_checksum: true }),
            delivered: Vec::new(),
        }
    }

    /// Takes one datagram; returns the replay requests to send back.
    fn receive(&mut self, datagram: &[u8]) -> Vec<Vec<u8>> {
        let mut pkt = datagram.to_vec();
        let view = match self.codec.decode(&mut pkt) {
            Ok(v) => v,
            Err(_) => return Vec::new(),
        };
        assert!(datagram_acceptable(&self.rx, &view));
        let outcome = handle_datagram(&mut self.rx, &view);
        self.delivered.extend(outcome.deliver);
        match outcome.replay_request {
            Some(req) => {
                let frame = replay_request_frame(self.rx.stream_id, req);
                vec![encode_datagram(&self.codec, &frame, REPLAY_SEND_BUFFER_SIZE).expect("Encode request")]
            },
            None => Vec::new(),
        }
    }
}

/// Carries `datagram` to the subscriber and every reply back and forth
/// until the link is quiet.
fn carry(publ: &Publisher, sub: &mut Subscriber, datagram: &[u8]) {
    let mut to_publisher = sub.receive(datagram);
    while let Some(request) = to_publisher.pop() {
        for reply in publ.answer(&request) {
            to_publisher.extend(sub.receive(&reply));
        }
    }
}

fn fast_recovery() -> RecoveryConfig {
    RecoveryConfig {
        retry_timeout: Duration::from_millis(20),
        max_retries: 3,
        max_replay_range: 100,
        max_outstanding_requests: 10,
    }
}

#[test]
fn test_udp_direct_publish_and_receive() {
    let mut sub = Subscriber::new(10, DeliveryMode::ReliableOrdered, RecoveryConfig::default());
    let mut publ = Publisher::new(10, 1001);

    for i in 1..=5 {
        let (_, datagram) = publ.publish(format!("msg-{}", i).as_bytes(), 1000 + i);
        carry(&publ, &mut sub, &datagram);
    }

    assert_eq!(sub.delivered.len(), 5);
    for i in 1..=5u64 {
        let frame = &sub.delivered[(i - 1) as usize];
        assert_eq!(frame.header.sequence, i);
        assert_eq!(frame.payload, format!("msg-{}", i).as_bytes());
    }
}

#[test]
fn test_udp_loss_gap_detection_and_selective_replay() {
    let mut sub = Subscriber::new(20, DeliveryMode::ReliableOrdered, fast_recovery());
    let mut publ = Publisher::new(20, 2001);

    let f1 = OwnedFrame::new_data(20, 1, 1000, 2001, b"PACKET_1".to_vec());
    let f2 = OwnedFrame::new_data(20, 2, 1001, 2001, b"PACKET_2_DROPPED_IN_FLIGHT".to_vec());
    let f3 = OwnedFrame::new_data(20, 3, 1002, 2001, b"PACKET_3".to_vec());

    let d1 = publ.publish_frame(&f1, true);
    carry(&publ, &mut sub, &d1);

    // Frame 2 is retained but lost in flight.
    publ.ring.push(f2);

    let d3 = publ.publish_frame(&f3, true);
    carry(&publ, &mut sub, &d3);

    assert_eq!(sub.delivered.len(), 3);
    let r1 = &sub.delivered[0];
    assert_eq!(r1.header.sequence, 1);
    assert_eq!(r1.payload, b"PACKET_1");
    let r2 = &sub.delivered[1];
    assert_eq!(r2.header.sequence, 2);
    assert_eq!(r2.payload, b"PACKET_2_DROPPED_IN_FLIGHT");
    let r3 = &sub.delivered[2];
    assert_eq!(r3.header.sequence, 3);
    assert_eq!(r3.payload, b"PACKET_3");
    assert_eq!(sub.rx.recovery.state(), RecoveryState::Live);
}

#[test]
fn test_fault_matrix_reordering() {
    let mut sub = Subscriber::new(30, DeliveryMode::ReliableOrdered, fast_recovery());
    let mut publ = Publisher::new(30, 3001);

    let f1 = OwnedFrame::new_data(30, 1, 1000, 3001, b"P1".to_vec());
    let f2 = OwnedFrame::new_data(30, 2, 1001, 3001, b"P2".to_vec());
    let f3 = OwnedFrame::new_data(30, 3, 1002, 3001, b"P3".to_vec());

    let d3 = publ.publish_frame(&f3, true);
    carry(&publ, &mut sub, &d3);
    let d2 = publ.publish_frame(&f2, true);
    carry(&publ, &mut sub, &d2);
    let d1 = publ.publish_frame(&f1, true);
    carry(&publ, &mut sub, &d1);

    assert_eq!(sub.delivered.len(), 3);
    assert_eq!(sub.delivered[0].header.sequence, 1);
    assert_eq!(sub.delivered[1].header.sequence, 2);
    assert_eq!(sub.delivered[2].header.sequence, 3);
}

#[test]
fn test_fault_matrix_duplication_suppressed() {
    let mut sub = Subscriber::new(40, DeliveryMode::ReliableOrdered, RecoveryConfig::default());
    let mut publ = Publisher::new(40, 4001);

    let f1 = OwnedFrame::new_data(40, 1, 1000, 4001, b"DUP_TEST".to_vec());
    for _ in 0..5 {
        let d = publ.publish_frame(&f1, false);
        carry(&publ, &mut sub, &d);
    }

    assert_eq!(sub.delivered.len(), 1);
    assert_eq!(sub.delivered[0].header.sequence, 1);
}

#[test]
fn test_fault_matrix_publisher_restart() {
    let mut sub = Subscriber::new(50, DeliveryMode::ReliableOrdered, RecoveryConfig::default());
    let mut publ = Publisher::new(50, 5001);

    let (s1, d1) = publ.publish(b"PUB1_SEQ1", 1);
    carry(&publ, &mut sub, &d1);
    let (s2, d2) = publ.publish(b"PUB1_SEQ2", 2);
    carry(&publ, &mut sub, &d2);
    assert_eq!((s1, s2), (1, 2));

    assert_eq!(sub.delivered[0].header.publisher_id, 5001);
    assert_eq!(sub.delivered[0].header.sequence, 1);
    assert_eq!(sub.delivered[1].header.publisher_id, 5001);
    assert_eq!(sub.delivered[1].header.sequence, 2);

    publ.state.restart_with_new_publisher_id(&mut publ.ring, 5002);
    assert_eq!(publ.ring.min_sequence(), None);
    let (s3, d3) = publ.publish(b"PUB2_SEQ1", 3);
    assert_eq!(s3, 1);
    carry(&publ, &mut sub, &d3);

    assert_eq!(sub.delivered.len(), 3);
    let r3 = &sub.delivered[2];
    assert_eq!(r3.header.publisher_id, 5002);
    assert_eq!(r3.header.sequence, 1);
    assert_eq!(r3.payload, b"PUB2_SEQ1");
}

#[test]
fn test_replay_response_frame_layout() {
    let orig = OwnedFrame::new_data(7, 42, 9000, 77, b"ABC".to_vec());
    let resp = replay_response_frame(&orig, 0xA01);
    assert_eq!(resp.header.message_type, MessageType::ReplayResponse);
    assert_eq!(resp.header.stream_id, 7);
    assert_eq!(resp.header.sequence, 42);
    assert_eq!(resp.header.timestamp_ns, 9000);
    assert_eq!(resp.header.publisher_id, 77);
    assert_eq!(resp.header.header_length, 48);
    assert_eq!(resp.header.payload_length, 11);
    assert_eq!(resp.payload, vec![0, 0, 0, 0, 0, 0, 0x0A, 0x01, b'A', b'B', b'C']);
    assert!(resp.extension_bytes.is_empty());
}

#[test]
fn test_replay_request_and_unavailable_frames() {
    let req = replay_request_frame(9, ReplayRequestPayload { request_id: 1, from_sequence: 2, to_sequence: 3 });
    assert_eq!(req.header.message_type, MessageType::ReplayRequest);
    assert_eq!((req.header.stream_id, req.header.sequence, req.header.publisher_id), (9, 0, 0));
    assert_eq!(req.header.payload_length, 24);
    assert_eq!(
        req.payload,
        vec![0, 0, 0, 0, 0, 0, 0, 1, 0, 0, 0, 0, 0, 0, 0, 2, 0, 0, 0, 0, 0, 0, 0, 3]
    );

    let un = replay_unavailable_frame(
        9,
        55,
        ReplayUnavailablePayload { request_id: 4, first_unavailable: 5, last_unavailable: 6 },
    );
    assert_eq!(un.header.message_type, MessageType::ReplayUnavailable);
    assert_eq!((un.header.stream_id, un.header.sequence, un.header.publisher_id), (9, 0, 55));
    assert_eq!(
        un.payload,
        vec![0, 0, 0, 0, 0, 0, 0, 4, 0, 0, 0, 0, 0, 0, 0, 5, 0, 0, 0, 0, 0, 0, 0, 6]
    );
}

#[test]
fn test_answer_replay_request_cases() {
    let mut ring = BoundedRingBuffer::new(5);
    for seq in 1..=8u64 {
        ring.push(OwnedFrame::new_data(1, seq, 100 + seq, 10, vec![seq as u8]));
    }
    // Retained: 4..=8.
    let all = answer_replay_request(&ring, 1, 10, ReplayRequestPayload { request_id: 3, from_sequence: 5, to_sequence: 7 });
    assert_eq!(all.len(), 3);
    for (i, f) in all.iter().enumerate() {
        assert_eq!(f.header.message_type, MessageType::ReplayResponse);
        assert_eq!(f.header.sequence, 5 + i as u64);
        assert_eq!(f.payload, vec![0, 0, 0, 0, 0, 0, 0, 3, 5 + i as u8]);
    }

    let expired = answer_replay_request(&ring, 1, 10, ReplayRequestPayload { request_id: 4, from_sequence: 2, to_sequence: 6 });
    assert_eq!(expired.len(), 1);
    assert_eq!(expired[0].header.message_type, MessageType::ReplayUnavailable);
    let p = ReplayUnavailablePayload::decode(&expired[0].payload).expect("payload");
    assert_eq!(p, ReplayUnavailablePayload { request_id: 4, first_unavailable: 2, last_unavailable: 3 });

    let future = answer_replay_request(&ring, 1, 10, ReplayRequestPayload { request_id: 5, from_sequence: 7, to_sequence: 12 });
    let p = ReplayUnavailablePayload::decode(&future[0].payload).expect("payload");
    assert_eq!(p, ReplayUnavailablePayload { request_id: 5, first_unavailable: 9, last_unavailable: 12 });

    // Answering twice gives the same answer.
    let again = answer_replay_request(&ring, 1, 10, ReplayRequestPayload { request_id: 3, from_sequence: 5, to_sequence: 7 });
    assert_eq!(again, all);
}

#[test]
fn test_encode_datagram_limits() {
    let codec = FrameCodec::new(CodecConfig { max_frame_size: 100, validate_checksum: true });
    let small = OwnedFrame::new_data(1, 1, 1, 1, vec![1, 2, 3]);
    let bytes = encode_datagram(&codec, &small, 1500).expect("fits");
    assert_eq!(bytes.len(), 51);
    let big = OwnedFrame::new_data(1, 1, 1, 1, vec![0; 60]);
    let err = encode_datagram(&codec, &big, 1500).unwrap_err();
    assert_eq!(err.code(), Some(rtdp_core::error::ErrorCode::FrameTooLarge));
    let short = encode_datagram(&codec, &small, 40).unwrap_err();
    assert_eq!(short.code(), Some(rtdp_core::error::ErrorCode::MalformedFrame));
}

#[test]
fn test_unavailable_datagram_fails_recovery() {
    let mut sub = Subscriber::new(60, DeliveryMode::ReliableOrdered, RecoveryConfig::default());
    let publ = Publisher::new(60, 6001);
    // A first frame at sequence 3 opens a gap 1..=2 and a request.
    let f3 = OwnedFrame::new_data(60, 3, 1, 6001, b"X".to_vec());
    let d3 = encode_datagram(&publ.codec, &f3, 1472).expect("encode");
    let requests = sub.receive(&d3);
    assert_eq!(requests.len(), 1);
    assert_eq!(sub.rx.recovery.state(), RecoveryState::Recovering);
    // The publisher retained nothing: the answer is REPLAY_UNAVAILABLE.
    let replies = publ.answer(&requests[0]);
    assert_eq!(replies.len(), 1);
    assert!(sub.receive(&replies[0]).is_empty());
    assert_eq!(sub.rx.recovery.state(), RecoveryState::RecoveryFailed);
    assert!(sub.delivered.is_empty());
}

#[test]
fn test_replayed_frame_delivered_once() {
    let mut sub = Subscriber::new(60, DeliveryMode::ReliableOrdered, RecoveryConfig::default());
    let mut publ = Publisher::new(60, 6001);
    let f1 = OwnedFrame::new_data(60, 1, 1000, 6001, b"ONE".to_vec());
    let f2 = OwnedFrame::new_data(60, 2, 1001, 6001, b"TWO".to_vec());
    let f3 = OwnedFrame::new_data(60, 3, 1002, 6001, b"THREE".to_vec());

    let d1 = publ.publish_frame(&f1, true);
    let d2 = publ.publish_frame(&f2, true);
    let d3 = publ.publish_frame(&f3, true);
    assert!(sub.receive(&d1).is_empty());
    let requests = sub.receive(&d3);
    assert_eq!(requests.len(), 1);

    // The publisher's answer replays sequence 2.
    let replies = publ.answer(&requests[0]);
    assert_eq!(replies.len(), 1);
    assert!(sub.receive(&replies[0]).is_empty());
    assert_eq!(sub.delivered.iter().map(|f| f.header.sequence).collect::<Vec<_>>(), vec![1, 2, 3]);
    assert_eq!(sub.delivered[1].payload, b"TWO");
    assert_eq!(sub.delivered[1].header.message_type, MessageType::Data);

    // The original DATA 2 arrives late and is suppressed.
    assert!(sub.receive(&d2).is_empty());
    assert_eq!(sub.delivered.len(), 3);
    assert_eq!(sub.rx.highest_delivered_sequence, 3);
}

#[test]
fn test_publish_encode_failure_keeps_sequence() {
    let mut publ = Publisher::new(70, 7001);
    let too_big = vec![0u8; 2000];
    let res = publ.state.publish(&mut publ.ring, &publ.codec, too_big, 1, 1472);
    assert!(res.is_err());
    assert_eq!(publ.ring.max_sequence(), None);

    let (seq, _) = publ.publish(b"FITS", 2);
    assert_eq!(seq, 1);
    assert_eq!(publ.ring.max_sequence(), Some(1));
    assert_eq!(publ.ring.get(1).expect("Retained").payload, b"FITS");
}

#[test]
fn test_replay_request_read_from_datagram() {
    let codec = FrameCodec::new(CodecConfig { max_frame_size: 1472, validate_checksum: true });
    let req = ReplayRequestPayload { request_id: 5, from_sequence: 3, to_sequence: 9 };
    let mut request = encode_datagram(&codec, &replay_request_frame(80, req), REPLAY_SEND_BUFFER_SIZE)
        .expect("Encode request");
    let before = request.clone();
    assert_eq!(replay_request_in(&codec, &mut request), Some(req));
    assert_eq!(request, before);

    // A DATA datagram asks for nothing.
    let data = OwnedFrame::new_data(80, 1, 1, 8001, b"X".to_vec());
    let mut datagram = encode_datagram(&codec, &data, REPLAY_SEND_BUFFER_SIZE).expect("Encode data");
    assert_eq!(replay_request_in(&codec, &mut datagram), None);

    // A corrupted request fails its checksum and asks for nothing.
    let last = request.len() - 1;
    request[last] ^= 0xff;
    assert_eq!(replay_request_in(&codec, &mut request), None);
}
