use std::time::{Duration, Instant};

use rtdp_core::buffers::BoundedRingBuffer;
use rtdp_core::delivery::{DeliveryMode, StreamReceiver};
use rtdp_core::error::{ErrorCode, RtdpError};
use rtdp_core::protocol::extensions::{ExtensionIterator, HeaderExtension};
use rtdp_core::protocol::frame::OwnedFrame;
use rtdp_core::recovery::{RecoveryConfig, RecoveryEngine, RecoveryState};
use rtdp_core::sequence::{DuplicateFilter, DuplicateKey, SequenceStatus, StreamSequenceTracker};

fn frame(seq: u64) -> OwnedFrame {
    OwnedFrame::new_data(1, seq, 1000 + seq, 10, vec![seq as u8])
}

fn sequences(frames: &[OwnedFrame]) -> Vec<u64> {
    frames.iter().map(|f| f.header.sequence).collect()
}

fn engine(max_retries: usize, max_outstanding: usize) -> RecoveryEngine {
    RecoveryEngine::new(RecoveryConfig {
        retry_timeout: Duration::from_millis(10),
        max_retries,
        max_replay_range: 5,
        max_outstanding_requests: max_outstanding,
    })
}

#[test]
fn test_latest_discards_stale() {
    let mut rx = StreamReceiver::new(1, DeliveryMode::Latest, RecoveryConfig::default());
    assert_eq!(rx.process_data_frame(frame(5)).unwrap().0.len(), 1);
    let (stale, req) = rx.process_data_frame(frame(3)).unwrap();
    assert!(stale.is_empty());
    assert!(req.is_none());
    assert_eq!(rx.process_data_frame(frame(6)).unwrap().0.len(), 1);
    assert_eq!(rx.highest_delivered_sequence, 6);
}

#[test]
fn test_best_effort_passes_duplicates_through() {
    let mut rx = StreamReceiver::new(1, DeliveryMode::BestEffort, RecoveryConfig::default());
    assert_eq!(rx.process_data_frame(frame(1)).unwrap().0.len(), 1);
    assert_eq!(rx.process_data_frame(frame(1)).unwrap().0.len(), 1);
    let (d, r) = rx.process_data_frame(frame(9)).unwrap();
    assert_eq!(d.len(), 1);
    assert!(r.is_none());
}

#[test]
fn test_at_least_once_delivers_and_requests_gaps() {
    let mut rx = StreamReceiver::new(1, DeliveryMode::AtLeastOnce, RecoveryConfig::default());
    rx.process_data_frame(frame(1)).unwrap();
    let (d, r) = rx.process_data_frame(frame(4)).unwrap();
    assert_eq!(sequences(&d), vec![4]);
    let req = r.expect("gap request");
    assert_eq!((req.from_sequence, req.to_sequence), (2, 3));
    let (dup, none) = rx.process_data_frame(frame(1)).unwrap();
    assert_eq!(sequences(&dup), vec![1]);
    assert!(none.is_none());
}

#[test]
fn test_reliable_ordered_withholds_then_drains_in_order() {
    let mut rx = StreamReceiver::new(1, DeliveryMode::ReliableOrdered, RecoveryConfig::default());
    assert_eq!(sequences(&rx.process_data_frame(frame(1)).unwrap().0), vec![1]);
    let (held, req) = rx.process_data_frame(frame(3)).unwrap();
    assert!(held.is_empty());
    assert_eq!(req.map(|p| (p.from_sequence, p.to_sequence)), Some((2, 2)));
    let (held4, _) = rx.process_data_frame(frame(4)).unwrap();
    assert!(held4.is_empty());
    let (run, none) = rx.process_data_frame(frame(2)).unwrap();
    assert_eq!(sequences(&run), vec![2, 3, 4]);
    assert!(none.is_none());
    assert_eq!(rx.highest_delivered_sequence, 4);
    assert_eq!(rx.tracker.expected_sequence, 5);
    // A key already delivered is suppressed.
    let (again, _) = rx.process_data_frame(frame(3)).unwrap();
    assert!(again.is_empty());
}

#[test]
fn test_reliable_ordered_publisher_restart_resets_recovery() {
    let mut rx = StreamReceiver::new(1, DeliveryMode::ReliableOrdered, RecoveryConfig::default());
    rx.process_data_frame(frame(1)).unwrap();
    rx.process_data_frame(frame(3)).unwrap();
    assert_eq!(rx.recovery.state(), RecoveryState::Recovering);
    let restarted = OwnedFrame::new_data(1, 1, 5, 11, b"new".to_vec());
    let (d, r) = rx.process_data_frame(restarted).unwrap();
    assert_eq!(d.len(), 1);
    assert!(r.is_none());
    assert_eq!(rx.recovery.state(), RecoveryState::Live);
    assert_eq!(rx.recovery.drain_buffered().len(), 0);
}

#[test]
fn test_retries_repeat_the_request_then_give_up() {
    let mut e = engine(2, 4);
    let t0 = Instant::now();
    let req = e.create_replay_request_at(3, 4, t0).expect("create");
    let r1 = e.check_timeouts_at(t0 + Duration::from_millis(15)).expect("first retry");
    assert_eq!(r1, vec![req]);
    assert!(e.check_timeouts_at(t0 + Duration::from_millis(16)).expect("not due").is_empty());
    let r2 = e.check_timeouts_at(t0 + Duration::from_millis(30)).expect("second retry");
    assert_eq!(r2, vec![req]);
    let gave_up = e.check_timeouts_at(t0 + Duration::from_millis(45));
    assert_eq!(gave_up, Err(RtdpError::UnrecoverableGap { from: 3, to: 4 }));
    assert_eq!(e.state(), RecoveryState::RecoveryFailed);
    assert!(e.check_timeouts_at(t0 + Duration::from_millis(90)).expect("nothing left").is_empty());
}

#[test]
fn test_duplicate_replay_response_is_ignored() {
    let mut e = engine(3, 4);
    let req = e.create_replay_request_at(7, 7, Instant::now()).expect("create");
    let done = e.handle_replay_response(req.request_id, frame(7)).expect("ok");
    assert_eq!(done.map(|v| sequences(&v)), Some(vec![7]));
    assert_eq!(e.state(), RecoveryState::Live);
    assert_eq!(e.handle_replay_response(req.request_id, frame(7)).expect("ok"), None);
    assert_eq!(e.drain_buffered().len(), 0);
}

#[test]
fn test_replay_requests_are_bounded() {
    let mut e = engine(3, 2);
    let t = Instant::now();
    let too_long = e.create_replay_request_at(1, 6, t).unwrap_err();
    assert_eq!(
        too_long,
        RtdpError::Protocol {
            code: ErrorCode::ReplayRangeInvalid,
            detail: String::from("Requested range 6 exceeds maximum allowed 5"),
        }
    );
    let a = e.create_replay_request_at(1, 1, t).expect("a");
    let b = e.create_replay_request_at(2, 6, t).expect("b");
    assert_eq!((a.request_id, b.request_id), (1, 2));
    let c = e.create_replay_request_at(7, 7, t).unwrap_err();
    assert_eq!(c.code(), Some(ErrorCode::Backpressure));
    assert_eq!(e.state(), RecoveryState::Recovering);
}

#[test]
fn test_ring_push_then_get_and_clear() {
    let mut ring = BoundedRingBuffer::new(3);
    assert_eq!(ring.capacity(), 3);
    assert!(ring.get(1).is_none());
    ring.push(frame(1));
    assert_eq!(ring.get(1).map(|f| f.payload.clone()), Some(vec![1]));
    for s in 2..=4 {
        ring.push(frame(s));
    }
    assert!(ring.get(1).is_none());
    assert_eq!(ring.get(4).map(|f| f.header.sequence), Some(4));
    assert!(ring.get(5).is_none());
    ring.clear();
    assert_eq!(ring.min_sequence(), None);
    assert!(ring.get(4).is_none());
    assert_eq!(ring.capacity(), 3);
}

#[test]
fn test_tracker_gap_is_the_missing_range() {
    let mut t = StreamSequenceTracker::new(9);
    assert_eq!(t.observe(5, 1), SequenceStatus::InOrder { sequence: 1 });
    assert_eq!(t.observe(5, 5), SequenceStatus::Gap { expected: 2, received: 5, from: 2, to: 4 });
    assert_eq!(t.total_gaps_detected, 1);
    assert_eq!(t.expected_sequence, 2);
    t.advance_expected(6);
    assert_eq!(t.expected_sequence, 6);
    t.advance_expected(3);
    assert_eq!(t.expected_sequence, 6);
    let mut fresh = StreamSequenceTracker::new(9);
    assert_eq!(fresh.observe(7, 3), SequenceStatus::Gap { expected: 1, received: 3, from: 1, to: 2 });
}

#[test]
fn test_duplicate_filter_forgets_oldest() {
    let mut f = DuplicateFilter::new(2);
    let k = |s| DuplicateKey::new(1, 1, s);
    assert!(!f.is_duplicate_and_record(k(1)));
    assert!(!f.is_duplicate_and_record(k(2)));
    assert!(!f.is_duplicate_and_record(k(3)));
    assert!(f.is_duplicate_and_record(k(3)));
    assert!(!f.is_duplicate_and_record(k(1)));
    f.clear();
    assert!(!f.is_duplicate_and_record(k(3)));
}

#[test]
fn test_can_receive_refuses_a_first_sequence_zero() {
    let rx = StreamReceiver::new(1, DeliveryMode::ReliableOrdered, RecoveryConfig::default());
    assert!(!rx.can_receive(&frame(0)));
    assert!(rx.can_receive(&frame(1)));
    assert!(rx.can_receive(&frame(7)));
}

#[test]
fn test_default_configurations() {
    let r = RecoveryConfig::default();
    assert_eq!(r.retry_timeout, Duration::from_millis(50));
    assert_eq!((r.max_retries, r.max_replay_range, r.max_outstanding_requests), (3, 1000, 16));
    let c = rtdp_core::serialization::CodecConfig::default();
    assert_eq!(c.max_frame_size, 1472);
    assert!(c.validate_checksum);
}

#[test]
fn test_filter_window_slides_over_many_keys() {
    let mut f = DuplicateFilter::new(3);
    let k = |s| DuplicateKey::new(4, 2, s);
    for s in 1..=5 {
        assert!(!f.is_duplicate_and_record(k(s)));
    }
    // The newest three are remembered; the two oldest were forgotten.
    assert!(f.is_duplicate_and_record(k(3)));
    assert!(f.is_duplicate_and_record(k(4)));
    assert!(f.is_duplicate_and_record(k(5)));
    assert!(!f.is_duplicate_and_record(k(1)));
    // The returning key took the oldest slot: 3 was pushed out, 1 is back.
    assert!(f.is_duplicate_and_record(k(1)));
    assert!(!f.is_duplicate_and_record(k(3)));
    assert!(f.is_duplicate_and_record(k(5)));
}

#[test]
fn test_walk_gives_back_encoded_records() {
    let records: Vec<(u16, Vec<u8>)> = vec![(0x0001, vec![1, 2, 3, 4, 5]), (0x0002, vec![]), (0x0042, vec![9])];
    let mut area = Vec::new();
    for (t, v) in &records {
        let ext = HeaderExtension::new(*t, v);
        let mut buf = vec![0u8; ext.wire_len()];
        assert_eq!(ext.encode(&mut buf).expect("encode"), buf.len());
        area.extend(buf);
    }
    assert_eq!(area.len(), 12 + 4 + 8);
    let mut it = ExtensionIterator::new(&area);
    for (t, v) in &records {
        let ext = it.next().expect("record").expect("valid");
        assert_eq!(ext.ext_type, *t);
        assert_eq!(ext.value, &v[..]);
    }
    assert!(it.next().is_none());
}

#[test]
fn test_ordered_delivery_over_many_calls() {
    let mut rx = StreamReceiver::new(3, DeliveryMode::ReliableOrdered, RecoveryConfig::default());
    let mut delivered = Vec::new();
    for seq in [3u64, 1, 2, 2, 5, 1, 4, 3] {
        let f = OwnedFrame::new_data(3, seq, 1000, 77, vec![seq as u8]);
        assert!(rx.can_receive(&f));
        let (out, _) = rx.process_data_frame(f).expect("Receive");
        delivered.extend(out);
    }
    let seqs: Vec<u64> = delivered.iter().map(|f| f.header.sequence).collect();
    assert_eq!(seqs, vec![1, 2, 3, 4, 5]);
    for f in &delivered {
        assert_eq!(f.payload, vec![f.header.sequence as u8]);
    }
    assert_eq!(rx.highest_delivered_sequence, 5);
}
