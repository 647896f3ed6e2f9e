use std::time::{Duration, Instant};

use rtdp_core::buffers::BoundedRingBuffer;
use rtdp_core::delivery::{DeliveryMode, StreamReceiver};
use rtdp_core::error::ErrorCode;
use rtdp_core::protocol::frame::OwnedFrame;
use rtdp_core::recovery::{RecoveryConfig, RecoveryEngine, RecoveryState};
use rtdp_core::sequence::{DuplicateFilter, DuplicateKey, SequenceStatus, StreamSequenceTracker};

#[test]
fn test_ring_buffer_retention_and_expiry() {
    let mut ring = BoundedRingBuffer::new(5);

    for seq in 1..=5 {
        let frame = OwnedFrame::new_data(1, seq, 1000, 10, format!("payload-{}", seq).into_bytes());
        ring.push(frame);
    }

    assert_eq!(ring.min_sequence(), Some(1));
    assert_eq!(ring.max_sequence(), Some(5));

    for seq in 6..=8 {
        let frame = OwnedFrame::new_data(1, seq, 1000, 10, format!("payload-{}", seq).into_bytes());
        ring.push(frame);
    }

    assert_eq!(ring.min_sequence(), Some(4));
    assert_eq!(ring.max_sequence(), Some(8));

    let range_res = ring.get_range(2, 6);
    assert!(range_res.is_err());
    let (err, unavail_from, unavail_to) = range_res.unwrap_err();
    assert_eq!(err, ErrorCode::ReplayUnavailable);
    assert_eq!(unavail_from, 2);
    assert_eq!(unavail_to, 3);

    let valid_range = ring.get_range(4, 7).expect("Sequences 4..7 available");
    assert_eq!(valid_range.len(), 4);
    assert_eq!(valid_range[0].header.sequence, 4);
    assert_eq!(valid_range[3].header.sequence, 7);
}

#[test]
fn test_sequence_tracking_and_publisher_restart() {
    let mut tracker = StreamSequenceTracker::new(42);

    let s1 = tracker.observe(100, 1);
    assert_eq!(s1, SequenceStatus::InOrder { sequence: 1 });

    let s2 = tracker.observe(100, 2);
    assert_eq!(s2, SequenceStatus::InOrder { sequence: 2 });

    let s_dup = tracker.observe(100, 1);
    assert_eq!(s_dup, SequenceStatus::DuplicateOrOld { sequence: 1, expected: 3 });

    let s_gap = tracker.observe(100, 6);
    assert_eq!(s_gap, SequenceStatus::Gap { expected: 3, received: 6, from: 3, to: 5 });

    let s_reset = tracker.observe(101, 1);
    assert_eq!(
        s_reset,
        SequenceStatus::PublisherReset { old_publisher: Some(100), new_publisher: 101, initial_sequence: 1 }
    );
    assert_eq!(tracker.total_publisher_resets, 1);
}

#[test]
fn test_duplicate_filter() {
    let mut filter = DuplicateFilter::new(10);
    let key1 = DuplicateKey::new(1, 10, 1);
    let key2 = DuplicateKey::new(1, 10, 2);

    assert!(!filter.is_duplicate_and_record(key1));
    assert!(filter.is_duplicate_and_record(key1));
    assert!(!filter.is_duplicate_and_record(key2));
    assert!(filter.is_duplicate_and_record(key2));
}

#[test]
fn test_recovery_engine_retries_and_idempotence() {
    let mut engine = RecoveryEngine::new(RecoveryConfig {
        retry_timeout: Duration::from_millis(10),
        max_retries: 2,
        max_replay_range: 50,
        max_outstanding_requests: 4,
    });

    let created = Instant::now();
    let req = engine.create_replay_request_at(10, 12, created).expect("Created request");
    assert_eq!(req.request_id, 1);
    assert_eq!(req.from_sequence, 10);
    assert_eq!(req.to_sequence, 12);
    assert_eq!(engine.state(), RecoveryState::Recovering);

    // The retry timer is checked 15 ms after the request was sent.
    let retries = engine.check_timeouts_at(created + Duration::from_millis(15)).expect("Check timeouts");
    assert_eq!(retries.len(), 1);
    assert_eq!(retries[0].request_id, 1);

    let f10 = OwnedFrame::new_data(1, 10, 1000, 1, b"DATA-10".to_vec());
    let f11 = OwnedFrame::new_data(1, 11, 1000, 1, b"DATA-11".to_vec());
    let f12 = OwnedFrame::new_data(1, 12, 1000, 1, b"DATA-12".to_vec());

    assert!(engine.handle_replay_response(1, f10).unwrap().is_none());
    assert!(engine.handle_replay_response(1, f11).unwrap().is_none());
    let drained = engine.handle_replay_response(1, f12).unwrap();
    assert!(drained.is_some());
    let frames = drained.unwrap();
    assert_eq!(frames.len(), 3);
    assert_eq!(frames[0].header.sequence, 10);
    assert_eq!(frames[1].header.sequence, 11);
    assert_eq!(frames[2].header.sequence, 12);

    assert_eq!(engine.state(), RecoveryState::Live);
}

#[test]
fn test_delivery_modes() {
    let mut rx_be = StreamReceiver::new(1, DeliveryMode::BestEffort, RecoveryConfig::default());
    let f1 = OwnedFrame::new_data(1, 1, 1000, 10, b"1".to_vec());
    let f3 = OwnedFrame::new_data(1, 3, 1000, 10, b"3".to_vec());
    let (d1, r1) = rx_be.process_data_frame(f1).unwrap();
    assert_eq!(d1.len(), 1);
    assert!(r1.is_none());
    let (d3, r3) = rx_be.process_data_frame(f3).unwrap();
    assert_eq!(d3.len(), 1);
    assert!(r3.is_none());

    let mut rx_ro = StreamReceiver::new(1, DeliveryMode::ReliableOrdered, RecoveryConfig::default());
    let f1 = OwnedFrame::new_data(1, 1, 1000, 10, b"1".to_vec());
    let f3 = OwnedFrame::new_data(1, 3, 1000, 10, b"3".to_vec());
    let (d1, r1) = rx_ro.process_data_frame(f1).unwrap();
    assert_eq!(d1.len(), 1);
    assert!(r1.is_none());

    let (d3, r3) = rx_ro.process_data_frame(f3).unwrap();
    assert_eq!(d3.len(), 0);
    assert!(r3.is_some());
    let req = r3.unwrap();
    assert_eq!(req.from_sequence, 2);
    assert_eq!(req.to_sequence, 2);
}

#[test]
fn test_backwards_replay_range_refused() {
    let mut engine = RecoveryEngine::new(RecoveryConfig::default());
    let err = engine.create_replay_request(9, 4).unwrap_err();
    assert_eq!(err.code(), Some(ErrorCode::ReplayRangeInvalid));
    assert_eq!(
        err,
        rtdp_core::error::RtdpError::Protocol {
            code: ErrorCode::ReplayRangeInvalid,
            detail: "Requested range runs backwards: from_sequence 9 > to_sequence 4".to_string(),
        }
    );
    // Nothing changed: still live, and the next request gets the first id.
    assert_eq!(engine.state(), RecoveryState::Live);
    let req = engine.create_replay_request(4, 9).expect("Forward range");
    assert_eq!(req.request_id, 1);
}

#[test]
fn test_exhausted_request_leaves_others_untouched() {
    let mut engine = RecoveryEngine::new(RecoveryConfig {
        retry_timeout: Duration::from_millis(20),
        max_retries: 1,
        max_replay_range: 50,
        max_outstanding_requests: 4,
    });
    let t0 = Instant::now();
    let t1 = t0 + Duration::from_millis(30);
    let t2 = t1 + Duration::from_millis(30);

    let a = engine.create_replay_request_at(2, 3, t0).expect("First request");
    let retries = engine.check_timeouts_at(t1).expect("First check");
    assert_eq!(retries, vec![a]);

    let b = engine.create_replay_request_at(7, 8, t1).expect("Second request");
    // Both are due; the first has no retry left and fails recovery.
    assert_eq!(
        engine.check_timeouts_at(t2),
        Err(rtdp_core::error::RtdpError::UnrecoverableGap { from: 2, to: 3 })
    );
    assert_eq!(engine.state(), RecoveryState::RecoveryFailed);
    // The second was neither re-sent nor counted: it is still due, with its retry left.
    let retries = engine.check_timeouts_at(t2).expect("Second check");
    assert_eq!(retries, vec![b]);
}

#[test]
fn test_drain_buffered_stops_at_first_hole() {
    let mut engine = RecoveryEngine::new(RecoveryConfig::default());
    for seq in [8u64, 5, 6] {
        engine.buffer_frame(OwnedFrame::new_data(1, seq, 1000, 1, vec![seq as u8]));
    }
    let first = engine.drain_buffered();
    assert_eq!(first.iter().map(|f| f.header.sequence).collect::<Vec<_>>(), vec![5, 6]);
    let second = engine.drain_buffered();
    assert_eq!(second.iter().map(|f| f.header.sequence).collect::<Vec<_>>(), vec![8]);
    assert!(engine.drain_buffered().is_empty());
}

#[test]
fn test_replayed_frames_pass_tracker_and_filter() {
    let mut rx = StreamReceiver::new(1, DeliveryMode::ReliableOrdered, RecoveryConfig::default());
    let f1 = OwnedFrame::new_data(1, 1, 1000, 10, b"1".to_vec());
    let f3 = OwnedFrame::new_data(1, 3, 1000, 10, b"3".to_vec());
    let (d1, _) = rx.process_data_frame(f1).unwrap();
    assert_eq!(d1.len(), 1);
    let (d3, r3) = rx.process_data_frame(f3).unwrap();
    assert!(d3.is_empty());
    let req = r3.expect("Gap requested");

    let f2 = OwnedFrame::new_data(1, 2, 1000, 10, b"2".to_vec());
    let drained = rx.recovery.handle_replay_response(req.request_id, f2).unwrap().expect("Complete");
    let released = rx.release_replayed(drained);
    assert_eq!(released.iter().map(|f| f.header.sequence).collect::<Vec<_>>(), vec![2, 3]);
    assert_eq!(rx.highest_delivered_sequence, 3);
    assert_eq!(rx.tracker.expected_sequence, 4);

    // A late copy of the replayed frame is suppressed.
    let late = OwnedFrame::new_data(1, 2, 1000, 10, b"2".to_vec());
    let (d_late, r_late) = rx.process_data_frame(late).unwrap();
    assert!(d_late.is_empty());
    assert!(r_late.is_none());
    assert_eq!(rx.highest_delivered_sequence, 3);
}

#[test]
fn test_stale_replay_not_redelivered() {
    let mut rx = StreamReceiver::new(1, DeliveryMode::ReliableOrdered, RecoveryConfig::default());
    let frame = |seq: u64| OwnedFrame::new_data(1, seq, 1000, 10, vec![seq as u8]);
    let seqs = |v: &Vec<OwnedFrame>| v.iter().map(|f| f.header.sequence).collect::<Vec<_>>();
    rx.process_data_frame(frame(1)).unwrap();
    let (_, r3) = rx.process_data_frame(frame(3)).unwrap();
    let (_, r5) = rx.process_data_frame(frame(5)).unwrap();
    let (req_a, req_b) = (r3.unwrap(), r5.unwrap());
    assert_eq!((req_a.from_sequence, req_a.to_sequence), (2, 2));
    assert_eq!((req_b.from_sequence, req_b.to_sequence), (2, 4));

    // The first answer fills sequence 2: 2 and 3 are released, 5 waits for 4.
    let drained = rx.recovery.handle_replay_response(req_a.request_id, frame(2)).unwrap().unwrap();
    assert_eq!(seqs(&rx.release_replayed(drained)), vec![2, 3]);
    let (d4, _) = rx.process_data_frame(frame(4)).unwrap();
    assert_eq!(seqs(&d4), vec![4, 5]);

    // The second answer arrives after all: nothing of it is delivered again.
    assert!(rx.recovery.handle_replay_response(req_b.request_id, frame(2)).unwrap().is_none());
    assert!(rx.recovery.handle_replay_response(req_b.request_id, frame(3)).unwrap().is_none());
    let drained = rx.recovery.handle_replay_response(req_b.request_id, frame(4)).unwrap().unwrap();
    assert_eq!(seqs(&drained), vec![2, 3, 4]);
    assert!(rx.release_replayed(drained).is_empty());
    assert_eq!(rx.highest_delivered_sequence, 5);
    assert_eq!(rx.recovery.state(), RecoveryState::Live);
}

#[test]
fn test_request_ids_never_reused() {
    let mut engine = RecoveryEngine::new(RecoveryConfig::default());
    assert_eq!(engine.create_replay_request(1, 2).unwrap().request_id, 1);
    // A refused request consumes no id.
    assert!(engine.create_replay_request(5, 1).is_err());
    assert_eq!(engine.create_replay_request(3, 4).unwrap().request_id, 2);
    // A reset keeps counting.
    engine.reset();
    assert_eq!(engine.state(), RecoveryState::Live);
    assert_eq!(engine.create_replay_request(1, 2).unwrap().request_id, 3);
}

#[test]
fn test_duplicate_replay_response_absorbed() {
    let mut engine = RecoveryEngine::new(RecoveryConfig::default());
    let req = engine.create_replay_request(2, 3).unwrap();
    let f2 = OwnedFrame::new_data(1, 2, 1000, 1, b"2".to_vec());
    assert!(engine.handle_replay_response(req.request_id, f2.clone()).unwrap().is_none());
    // The same response again changes nothing and hands nothing out.
    assert!(engine.handle_replay_response(req.request_id, f2).unwrap().is_none());
    assert_eq!(engine.state(), RecoveryState::Recovering);
    let f3 = OwnedFrame::new_data(1, 3, 1000, 1, b"3".to_vec());
    let drained = engine.handle_replay_response(req.request_id, f3).unwrap().expect("Complete");
    assert_eq!(drained.iter().map(|f| f.header.sequence).collect::<Vec<_>>(), vec![2, 3]);
    // After completion a duplicate is ignored too.
    let f3 = OwnedFrame::new_data(1, 3, 1000, 1, b"3".to_vec());
    assert!(engine.handle_replay_response(req.request_id, f3).unwrap().is_none());
    assert!(engine.drain_buffered().is_empty());
    assert_eq!(engine.state(), RecoveryState::Live);
}

#[test]
fn test_recovery_engine_retries_on_the_real_clock() {
    let mut engine = RecoveryEngine::new(RecoveryConfig {
        retry_timeout: Duration::from_millis(10),
        max_retries: 2,
        max_replay_range: 50,
        max_outstanding_requests: 4,
    });
    let req = engine.create_replay_request(10, 12).expect("Created request");
    assert_eq!(req.request_id, 1);
    assert_eq!(engine.state(), RecoveryState::Recovering);

    // Wait 15 ms on the monotonic clock, then run the timer check.
    let start = Instant::now();
    while start.elapsed() < Duration::from_millis(15) {}
    let retries = engine.check_timeouts().expect("Check timeouts");
    assert_eq!(retries, vec![req]);
    assert_eq!(engine.state(), RecoveryState::Recovering);
}
