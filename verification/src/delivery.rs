//! Delivery modes: what a receiver hands to the application, and when it
//! asks for replay.

use std::time::Instant;
use vstd::prelude::*;

use crate::clock::instant_now;
use crate::error::{fails_with, Fault, RtdpError};
use crate::protocol::frame::{FrameModel, OwnedFrame};
use crate::recovery::{
    create_request_step, frame_models, keyed_by_sequence, run_before_max, EngineModel,
    RecoveryConfig, RecoveryEngine, RecoveryState, ReplayRequestPayload,
};
use crate::sequence::dedup::{dedup_step, DedupModel, DuplicateFilter, DuplicateKey};
use crate::sequence::tracker::{
    observe_allowed, observe_step, SequenceStatus, StreamSequenceTracker,
};

verus! {

/// The explicit delivery modes.
#[derive(Debug, Clone, Copy, PartialEq, Eq, Structural)]
pub enum DeliveryMode {
    BestEffort,
    Latest,
    AtLeastOnce,
    ReliableOrdered,
}

/// The receive side of one stream.
pub struct StreamReceiver {
    pub stream_id: u64,
    pub mode: DeliveryMode,
    pub tracker: StreamSequenceTracker,
    pub dedup: DuplicateFilter,
    pub recovery: RecoveryEngine,
    pub highest_delivered_sequence: u64,
}

/// The abstract state of a receiver.
pub ghost struct ReceiverModel {
    pub stream_id: u64,
    pub mode: DeliveryMode,
    pub tracker: StreamSequenceTracker,
    pub dedup: DedupModel,
    pub recovery: EngineModel,
    pub highest_delivered_sequence: u64,
}

/// The number of consecutive sequences from `start` on that are buffered.
pub open spec fn run_length(m: Map<u64, FrameModel>, start: u64) -> nat
    decreases u64::MAX - start,
{
    if !m.contains_key(start) {
        0
    } else if start == u64::MAX {
        1
    } else {
        1 + run_length(m, (start + 1) as u64)
    }
}

/// The buffered frames `start, start + 1, ...` up to the first gap.
pub open spec fn run_frames(m: Map<u64, FrameModel>, start: u64) -> Seq<FrameModel> {
    Seq::new(run_length(m, start), |i: int| m[(start + i) as u64])
}

/// The number of consecutive sequences from `start` on that are buffered,
/// stopping before `u64::MAX`.
pub open spec fn release_length(m: Map<u64, FrameModel>, start: u64) -> nat
    decreases u64::MAX - start,
{
    if start == u64::MAX || !m.contains_key(start) {
        0
    } else {
        1 + release_length(m, (start + 1) as u64)
    }
}

/// The buffer `b` after putting back, in order, the frames of `fs` whose
/// sequence is at least `x`; older frames are left out.
pub open spec fn rebuffer_from(b: Map<u64, FrameModel>, x: u64, fs: Seq<FrameModel>) -> Map<
    u64,
    FrameModel,
>
    decreases fs.len(),
{
    if fs.len() == 0 {
        b
    } else {
        let b1 = rebuffer_from(b, x, fs.drop_last());
        let f = fs.last();
        if f.header.sequence >= x {
            b1.insert(f.header.sequence, f)
        } else {
            b1
        }
    }
}

/// The duplicate filter `d` after remembering, in order, the keys of the
/// frames `fs` on stream `stream_id`.
pub open spec fn record_keys(d: DedupModel, stream_id: u64, fs: Seq<FrameModel>) -> DedupModel
    decreases fs.len(),
{
    if fs.len() == 0 {
        d
    } else {
        let f = fs.last();
        dedup_step(
            record_keys(d, stream_id, fs.drop_last()),
            DuplicateKey {
                stream_id,
                publisher_id: f.header.publisher_id,
                sequence: f.header.sequence,
            },
        ).0
    }
}

/// What a RELIABLE_ORDERED receiver does with the frames `fs` that recovery
/// hands out. Frames older than the expected sequence `x` were delivered
/// already and are dropped; the others go (back) into the buffer. Then the
/// buffered frames `x, x + 1, ...` up to the first missing sequence (or
/// `u64::MAX`) are released in order: each is remembered by the duplicate
/// filter and counted by the tracker, and the last of them is the highest
/// delivered sequence. Frames past a missing sequence stay buffered.
pub open spec fn release_step(r: ReceiverModel, fs: Seq<FrameModel>) -> (ReceiverModel, Seq<
    FrameModel,
>) {
    let x = r.tracker.expected_sequence;
    let b = rebuffer_from(r.recovery.buffered, x, fs);
    let n = release_length(b, x);
    let out = Seq::new(n, |i: int| b[(x + i) as u64]);
    (
        ReceiverModel {
            tracker: StreamSequenceTracker { expected_sequence: (x + n) as u64, ..r.tracker },
            dedup: record_keys(r.dedup, r.stream_id, out),
            recovery: EngineModel {
                buffered: b.remove_keys(Set::new(|k: u64| x <= k && k < x + n)),
                ..r.recovery
            },
            highest_delivered_sequence: if n > 0 {
                (x + n - 1) as u64
            } else {
                r.highest_delivered_sequence
            },
            ..r
        },
        out,
    )
}

/// A run taken up to the first missing sequence or `u64::MAX` is exactly
/// the run `release_step` releases.
proof fn lemma_release_length(b: Map<u64, FrameModel>, x: u64, out: Seq<FrameModel>, b2: Map<
    u64,
    FrameModel,
>)
    requires
        run_before_max(b, x, out, b2),
    ensures
        release_length(b, x) == out.len(),
        out == Seq::new(out.len(), |i: int| b[(x + i) as u64]),
    decreases out.len(),
{
    if out.len() > 0 {
        assert(out[0] == b[(x + 0) as u64]);
        let rest = out.drop_first();
        assert forall|i: int| 0 <= i < rest.len() implies #[trigger] b.contains_key(
            ((x + 1) as u64 + i) as u64,
        ) by {
            assert(out[i + 1] == b[(x + (i + 1)) as u64]);
        }
        assert forall|i: int| 0 <= i < rest.len() implies (x + 1) as u64 + i < u64::MAX
            && b.contains_key(((x + 1) as u64 + i) as u64) && #[trigger] rest[i] == b[((x + 1) as u64
            + i) as u64] by {
            assert(out[i + 1] == b[(x + (i + 1)) as u64]);
        }
        lemma_release_length(
            b,
            (x + 1) as u64,
            rest,
            b.remove_keys(Set::new(|j: u64| (x + 1) as u64 <= j && j < (x + 1) as u64 + rest.len())),
        );
    }
    assert(out =~= Seq::new(out.len(), |i: int| b[(x + i) as u64]));
}

/// The larger of two sequence numbers.
pub open spec fn max_seq(a: u64, b: u64) -> u64 {
    if a >= b {
        a
    } else {
        b
    }
}

/// What the receiver does with DATA frame `f` arriving at time `now`
/// (the time stamps a replay request it creates). The tracker classifies the
/// frame first, in every mode.
/// - BEST_EFFORT delivers every frame and requests nothing.
/// - LATEST delivers only frames newer than the highest delivered.
/// - AT_LEAST_ONCE delivers every frame, duplicates included, and requests
///   replay of every gap.
/// - RELIABLE_ORDERED suppresses duplicates by key, withholds a frame that
///   follows a gap (buffering it) while requesting replay, and on in-order
///   arrival delivers the frame followed by the buffered frames that now
///   continue the sequence; a publisher restart resets recovery.
/// A failed replay request creation is the step's error.
pub open spec fn receive_step(r: ReceiverModel, f: FrameModel, now: Instant) -> (
    ReceiverModel,
    Result<(Seq<FrameModel>, Option<ReplayRequestPayload>), Fault>,
) {
    let pub_id = f.header.publisher_id;
    let seq = f.header.sequence;
    let (t1, status) = observe_step(r.tracker, pub_id, seq);
    let r1 = ReceiverModel { tracker: t1, ..r };
    match r.mode {
        DeliveryMode::BestEffort => (
            ReceiverModel {
                highest_delivered_sequence: max_seq(r.highest_delivered_sequence, seq),
                ..r1
            },
            Ok((seq![f], None)),
        ),
        DeliveryMode::Latest => if seq > r.highest_delivered_sequence {
            (ReceiverModel { highest_delivered_sequence: seq, ..r1 }, Ok((seq![f], None)))
        } else {
            (r1, Ok((Seq::empty(), None)))
        },
        DeliveryMode::AtLeastOnce => match status {
            SequenceStatus::InOrder { sequence } => (
                ReceiverModel {
                    highest_delivered_sequence: max_seq(r.highest_delivered_sequence, sequence),
                    ..r1
                },
                Ok((seq![f], None)),
            ),
            SequenceStatus::Gap { from, to, .. } => {
                let (e2, res) = create_request_step(r.recovery, from, to, now);
                match res {
                    Ok(p) => (
                        ReceiverModel {
                            recovery: e2,
                            highest_delivered_sequence: max_seq(r.highest_delivered_sequence, seq),
                            ..r1
                        },
                        Ok((seq![f], Some(p))),
                    ),
                    Err(c) => (ReceiverModel { recovery: e2, ..r1 }, Err(c)),
                }
            },
            SequenceStatus::DuplicateOrOld { .. } => (r1, Ok((seq![f], None))),
            SequenceStatus::PublisherReset { initial_sequence, .. } => (
                ReceiverModel { highest_delivered_sequence: initial_sequence, ..r1 },
                Ok((seq![f], None)),
            ),
        },
        DeliveryMode::ReliableOrdered => {
            let key = DuplicateKey { stream_id: r.stream_id, publisher_id: pub_id, sequence: seq };
            let (d2, dup) = dedup_step(r.dedup, key);
            let r2 = ReceiverModel { dedup: d2, ..r1 };
            if dup {
                (r2, Ok((Seq::empty(), None)))
            } else {
                match status {
                    SequenceStatus::InOrder { sequence } => {
                        let b = r.recovery.buffered;
                        let start = (sequence + 1) as u64;
                        let n = run_length(b, start);
                        (
                            ReceiverModel {
                                tracker: StreamSequenceTracker {
                                    expected_sequence: (sequence + 1 + n) as u64,
                                    ..t1
                                },
                                recovery: EngineModel {
                                    buffered: b.remove_keys(
                                        Set::new(|k: u64| start <= k && k < start + n),
                                    ),
                                    ..r.recovery
                                },
                                highest_delivered_sequence: (sequence + n) as u64,
                                ..r2
                            },
                            Ok((seq![f] + run_frames(b, start), None)),
                        )
                    },
                    SequenceStatus::Gap { from, to, .. } => {
                        let e1 = EngineModel {
                            buffered: r.recovery.buffered.insert(seq, f),
                            ..r.recovery
                        };
                        let (e2, res) = create_request_step(e1, from, to, now);
                        match res {
                            Ok(p) => (
                                ReceiverModel { recovery: e2, ..r2 },
                                Ok((Seq::empty(), Some(p))),
                            ),
                            Err(c) => (ReceiverModel { recovery: e2, ..r2 }, Err(c)),
                        }
                    },
                    SequenceStatus::DuplicateOrOld { .. } => (r2, Ok((Seq::empty(), None))),
                    SequenceStatus::PublisherReset { initial_sequence, .. } => (
                        ReceiverModel {
                            recovery: EngineModel {
                                state: RecoveryState::Live,
                                outstanding: Seq::empty(),
                                buffered: Map::empty(),
                                ..r.recovery
                            },
                            highest_delivered_sequence: initial_sequence,
                            ..r2
                        },
                        Ok((seq![f], None)),
                    ),
                }
            }
        },
    }
}

/// The frames a receiver can take without an arithmetic overflow: the
/// tracker's counters and expected sequence, the next request id when a
/// gap is requested, and the sequence run that in-order delivery drains.
pub open spec fn receive_allowed(r: ReceiverModel, f: FrameModel) -> bool {
    let pub_id = f.header.publisher_id;
    let seq = f.header.sequence;
    let (t1, status) = observe_step(r.tracker, pub_id, seq);
    &&& observe_allowed(r.tracker, pub_id, seq)
    &&& (r.mode is AtLeastOnce || r.mode is ReliableOrdered) ==> (status is Gap
        ==> r.recovery.next_request_id < u64::MAX)
    &&& r.mode is ReliableOrdered ==> (status matches SequenceStatus::InOrder { sequence }
        ==> exists|k: u64| k > sequence && !r.recovery.buffered.contains_key(k))
}

/// The frames of a delivery.
pub open spec fn delivered_models(v: Seq<OwnedFrame>) -> Seq<FrameModel> {
    v.map_values(|f: OwnedFrame| f.model())
}

/// A drained run of `n` frames from `start`, ending before a missing
/// sequence, is exactly the run of buffered frames from `start`.
proof fn lemma_run_length(m: Map<u64, FrameModel>, start: u64, n: nat)
    requires
        start + n <= u64::MAX,
        forall|i: int| 0 <= i < n ==> #[trigger] m.contains_key((start + i) as u64),
        !m.contains_key((start + n) as u64),
    ensures
        run_length(m, start) == n,
    decreases n,
{
    if n == 0 {
    } else {
        assert(m.contains_key((start + 0) as u64));
        assert forall|i: int| 0 <= i < n - 1 implies #[trigger] m.contains_key(
            ((start + 1) as u64 + i) as u64,
        ) by {
            assert(m.contains_key((start + (i + 1)) as u64));
        }
        lemma_run_length(m, (start + 1) as u64, (n - 1) as nat);
    }
}

/// RELIABLE_ORDERED suppresses duplicates: a key already remembered is
/// delivered nothing and requests nothing.
pub proof fn lemma_reliable_ordered_suppresses_duplicates(r: ReceiverModel, f: FrameModel, now: Instant)
    requires
        r.mode is ReliableOrdered,
        r.dedup.history.contains(
            DuplicateKey {
                stream_id: r.stream_id,
                publisher_id: f.header.publisher_id,
                sequence: f.header.sequence,
            },
        ),
    ensures
        receive_step(r, f, now).1 == Ok::<(Seq<FrameModel>, Option<ReplayRequestPayload>), Fault>(
            (Seq::empty(), None),
        ),
{
}

/// RELIABLE_ORDERED delivers in strictly ascending, consecutive sequence
/// order: a delivered batch starts with the arriving frame and continues
/// one sequence number at a time.
pub proof fn lemma_reliable_ordered_delivers_consecutively(
    r: ReceiverModel,
    f: FrameModel,
    now: Instant,
)
    requires
        r.mode is ReliableOrdered,
        keyed_by_sequence(r.recovery.buffered),
        receive_allowed(r, f),
    ensures
        receive_step(r, f, now).1 matches Ok((fs, _)) ==> forall|i: int|
            0 <= i < fs.len() ==> (#[trigger] fs[i]).header.sequence == f.header.sequence + i,
{
    let (t1, status) = observe_step(r.tracker, f.header.publisher_id, f.header.sequence);
    if let SequenceStatus::InOrder { sequence } = status {
        let b = r.recovery.buffered;
        let start = (sequence + 1) as u64;
        lemma_run_in_buffer(b, start);
        if let Ok((fs, _)) = receive_step(r, f, now).1 {
            assert forall|i: int| 0 <= i < fs.len() implies (#[trigger] fs[i]).header.sequence
                == f.header.sequence + i by {
                if i > 0 {
                    assert(fs[i] == run_frames(b, start)[i - 1]);
                    assert(b.contains_key((start + (i - 1)) as u64));
                }
            }
        }
    }
}

/// The frames of a buffered run are present and stored under consecutive
/// sequences.
proof fn lemma_run_in_buffer(m: Map<u64, FrameModel>, start: u64)
    ensures
        start + run_length(m, start) <= u64::MAX + 1,
        forall|i: int|
            0 <= i < run_length(m, start) ==> #[trigger] m.contains_key((start + i) as u64),
    decreases u64::MAX - start,
{
    if m.contains_key(start) && start < u64::MAX {
        lemma_run_in_buffer(m, (start + 1) as u64);
        assert forall|i: int| 0 <= i < run_length(m, start) implies #[trigger] m.contains_key(
            (start + i) as u64,
        ) by {
            if i > 0 {
                assert(m.contains_key(((start + 1) as u64 + (i - 1)) as u64));
            }
        }
    }
}

/// RELIABLE_ORDERED withholds a frame that follows a gap: it is buffered,
/// nothing is delivered, and the replay request (when it can be made)
/// covers exactly the gap.
pub proof fn lemma_reliable_ordered_withholds_after_gap(
    r: ReceiverModel,
    f: FrameModel,
    now: Instant,
)
    requires
        r.mode is ReliableOrdered,
        !r.dedup.history.contains(
            DuplicateKey {
                stream_id: r.stream_id,
                publisher_id: f.header.publisher_id,
                sequence: f.header.sequence,
            },
        ),
        observe_step(r.tracker, f.header.publisher_id, f.header.sequence).1 is Gap,
    ensures
        ({
            let (r2, res) = receive_step(r, f, now);
            let st = observe_step(r.tracker, f.header.publisher_id, f.header.sequence).1;
            &&& r2.recovery.buffered.contains_key(f.header.sequence)
            &&& r2.recovery.buffered[f.header.sequence] == f
            &&& res matches Ok((fs, p)) ==> fs.len() == 0 && p is Some && p->Some_0.from_sequence
                == st->Gap_from && p->Some_0.to_sequence == st->Gap_to
        }),
{
}

/// AT_LEAST_ONCE hands every frame to the application and requests replay
/// of exactly the gap a frame reveals.
pub proof fn lemma_at_least_once_delivers_and_requests_gaps(
    r: ReceiverModel,
    f: FrameModel,
    now: Instant,
)
    requires
        r.mode is AtLeastOnce,
    ensures
        ({
            let st = observe_step(r.tracker, f.header.publisher_id, f.header.sequence).1;
            receive_step(r, f, now).1 matches Ok((fs, p)) ==> {
                &&& fs == seq![f]
                &&& (st is Gap <==> p is Some)
                &&& p is Some ==> p->Some_0.from_sequence == st->Gap_from
                    && p->Some_0.to_sequence == st->Gap_to
            }
        }),
{
}

/// LATEST never hands out a stale frame: a delivered frame is newer than
/// every frame delivered before, and the highest delivered sequence never
/// goes down.
pub proof fn lemma_latest_discards_stale(r: ReceiverModel, f: FrameModel, now: Instant)
    requires
        r.mode is Latest,
    ensures
        ({
            let (r2, res) = receive_step(r, f, now);
            &&& r2.highest_delivered_sequence >= r.highest_delivered_sequence
            &&& res matches Ok((fs, p)) && p is None
            &&& res->Ok_0.0.len() > 0 <==> f.header.sequence > r.highest_delivered_sequence
        }),
{
}

/// BEST_EFFORT hands every frame over as it arrives and never requests
/// replay.
pub proof fn lemma_best_effort_passes_through(r: ReceiverModel, f: FrameModel, now: Instant)
    requires
        r.mode is BestEffort,
    ensures
        receive_step(r, f, now).1 == Ok::<(Seq<FrameModel>, Option<ReplayRequestPayload>), Fault>(
            (seq![f], None),
        ),
{
}

/// The bookkeeping of a duplicate filter's model: a positive bound, no
/// more keys than the bound, and an eviction slot in range (the first slot
/// until the filter is full).
pub open spec fn dedup_model_ok(d: DedupModel) -> bool {
    &&& d.capacity > 0
    &&& d.history.len() <= d.capacity
    &&& d.head < d.capacity
    &&& d.history.len() < d.capacity ==> d.head == 0
}

/// The RELIABLE_ORDERED delivery invariant of a receiver whose DATA comes
/// from publisher `p`: the highest delivered sequence is one below the
/// sequence the tracker expects (nothing is delivered before the first
/// frame, when no replay is outstanding either), no other publisher is
/// active, buffered frames are stored under
/// their sequences, and every key of `p` the duplicate filter remembers is
/// either below the expected sequence (delivered already) or a sequence
/// above it that is buffered.
pub open spec fn ordered_inv(r: ReceiverModel, p: u64) -> bool {
    let x = r.tracker.expected_sequence;
    &&& r.mode is ReliableOrdered
    &&& r.tracker.active_publisher_id is None ==> x == 1 && r.recovery.outstanding.len() == 0
    &&& r.tracker.active_publisher_id is None || r.tracker.active_publisher_id == Some(p)
    &&& r.highest_delivered_sequence + 1 == x
    &&& keyed_by_sequence(r.recovery.buffered)
    &&& dedup_model_ok(r.dedup)
    &&& forall|k: DuplicateKey|
        #[trigger] r.dedup.history.contains(k) && k.stream_id == r.stream_id && k.publisher_id == p
            ==> k.sequence < x || (x < k.sequence < u64::MAX && r.recovery.buffered.contains_key(
            k.sequence,
        ))
}

/// Remembering a key keeps the filter's bookkeeping and adds no key but
/// that one.
proof fn lemma_dedup_step_keys(d: DedupModel, key: DuplicateKey)
    requires
        dedup_model_ok(d),
    ensures
        dedup_model_ok(dedup_step(d, key).0),
        forall|k: DuplicateKey|
            #[trigger] dedup_step(d, key).0.history.contains(k) ==> d.history.contains(k) || k
                == key,
{
    let d2 = dedup_step(d, key).0;
    assert forall|k: DuplicateKey| #[trigger] d2.history.contains(k) implies d.history.contains(k)
        || k == key by {
        if !d.history.contains(key) && d.history.len() >= d.capacity {
            let j = choose|j: int| 0 <= j < d2.history.len() && d2.history[j] == k;
            if j != d.head {
                assert(d.history[j] == k);
            }
        } else if !d.history.contains(key) {
            let j = choose|j: int| 0 <= j < d2.history.len() && d2.history[j] == k;
            if j < d.history.len() {
                assert(d.history[j] == k);
            }
        }
    }
}

/// A run of buffered frames ends at a missing sequence at or before any
/// missing sequence past its start.
proof fn lemma_run_ends(m: Map<u64, FrameModel>, start: u64, k: u64)
    requires
        start <= k,
        !m.contains_key(k),
    ensures
        start + run_length(m, start) <= k,
        !m.contains_key((start + run_length(m, start)) as u64),
    decreases u64::MAX - start,
{
    if m.contains_key(start) {
        assert(start < k);
        lemma_run_ends(m, (start + 1) as u64, k);
    }
}

/// The frames a receive step delivers: none when it fails.
pub open spec fn step_delivered(
    res: Result<(Seq<FrameModel>, Option<ReplayRequestPayload>), Fault>,
) -> Seq<FrameModel> {
    match res {
        Ok((fs, _)) => fs,
        Err(_) => Seq::empty(),
    }
}

/// RELIABLE_ORDERED continues where it left off: for a receiver in the
/// delivery invariant taking a DATA frame of its publisher, the invariant
/// holds afterwards, and the frames delivered (none when the step fails)
/// carry the sequences right after the highest delivered one, in order,
/// which becomes the last of them.
pub proof fn lemma_reliable_ordered_receive_continues(
    r: ReceiverModel,
    p: u64,
    f: FrameModel,
    now: Instant,
)
    requires
        ordered_inv(r, p),
        f.header.publisher_id == p,
        f.header.sequence < u64::MAX,
        receive_allowed(r, f),
    ensures
        ({
            let (r2, res) = receive_step(r, f, now);
            let fs = step_delivered(res);
            &&& ordered_inv(r2, p)
            &&& r2.highest_delivered_sequence == r.highest_delivered_sequence + fs.len()
            &&& forall|i: int|
                0 <= i < fs.len() ==> (#[trigger] fs[i]).header.sequence
                    == r.highest_delivered_sequence + 1 + i
        }),
{
    let x = r.tracker.expected_sequence;
    let seq = f.header.sequence;
    let key = DuplicateKey { stream_id: r.stream_id, publisher_id: p, sequence: seq };
    let (t1, status) = observe_step(r.tracker, p, seq);
    let (d2, dup) = dedup_step(r.dedup, key);
    lemma_dedup_step_keys(r.dedup, key);
    let (r2, res) = receive_step(r, f, now);
    let b = r.recovery.buffered;
    if !dup {
        if let SequenceStatus::InOrder { sequence } = status {
            assert(sequence == x);
            let start = (sequence + 1) as u64;
            let n = run_length(b, start);
            let kk = choose|k: u64| k > sequence && !b.contains_key(k);
            lemma_run_ends(b, start, kk);
            lemma_run_in_buffer(b, start);
            let fs = seq![f] + run_frames(b, start);
            assert(r2.tracker.expected_sequence == start + n);
            assert forall|k: DuplicateKey|
                #[trigger] r2.dedup.history.contains(k) && k.stream_id == r2.stream_id
                    && k.publisher_id == p implies k.sequence < r2.tracker.expected_sequence || (
                r2.tracker.expected_sequence < k.sequence < u64::MAX
                    && r2.recovery.buffered.contains_key(k.sequence)) by {
                if k != key {
                    assert(r.dedup.history.contains(k));
                }
            }
            assert forall|i: int| 0 <= i < fs.len() implies (#[trigger] fs[i]).header.sequence
                == r.highest_delivered_sequence + 1 + i by {
                if i > 0 {
                    assert(fs[i] == run_frames(b, start)[i - 1]);
                    assert(b.contains_key((start + (i - 1)) as u64));
                }
            }
        } else if let SequenceStatus::Gap { from, to, .. } = status {
            assert(seq > x || r.tracker.active_publisher_id is None);
            let e1 = EngineModel { buffered: b.insert(seq, f), ..r.recovery };
            assert(create_request_step(e1, from, to, now).0.buffered == e1.buffered);
            assert forall|k: DuplicateKey|
                #[trigger] r2.dedup.history.contains(k) && k.stream_id == r2.stream_id
                    && k.publisher_id == p implies k.sequence < r2.tracker.expected_sequence || (
                r2.tracker.expected_sequence < k.sequence < u64::MAX
                    && r2.recovery.buffered.contains_key(k.sequence)) by {
                if k != key {
                    assert(r.dedup.history.contains(k));
                }
            }
        } else {
            assert forall|k: DuplicateKey|
                #[trigger] r2.dedup.history.contains(k) && k.stream_id == r2.stream_id
                    && k.publisher_id == p implies k.sequence < r2.tracker.expected_sequence || (
                r2.tracker.expected_sequence < k.sequence < u64::MAX
                    && r2.recovery.buffered.contains_key(k.sequence)) by {
                if k != key {
                    assert(r.dedup.history.contains(k));
                }
            }
        }
    } else {
        assert(!(status is InOrder));
    }
}

/// The frames `release_step` releases from buffer `m` at `start` are
/// present, stored under consecutive sequences below `u64::MAX`, and end at
/// a missing sequence or at `u64::MAX`.
proof fn lemma_release_run(m: Map<u64, FrameModel>, start: u64)
    ensures
        start + release_length(m, start) <= u64::MAX,
        start + release_length(m, start) == u64::MAX || !m.contains_key(
            (start + release_length(m, start)) as u64,
        ),
        forall|i: int|
            0 <= i < release_length(m, start) ==> #[trigger] m.contains_key((start + i) as u64),
    decreases u64::MAX - start,
{
    if start < u64::MAX && m.contains_key(start) {
        lemma_release_run(m, (start + 1) as u64);
        assert forall|i: int| 0 <= i < release_length(m, start) implies #[trigger] m.contains_key(
            (start + i) as u64,
        ) by {
            if i > 0 {
                assert(m.contains_key(((start + 1) as u64 + (i - 1)) as u64));
            }
        }
    }
}

/// Remembering the keys of a run of frames keeps the filter's bookkeeping
/// and adds no key but theirs.
proof fn lemma_record_keys(d: DedupModel, stream_id: u64, fs: Seq<FrameModel>)
    requires
        dedup_model_ok(d),
    ensures
        dedup_model_ok(record_keys(d, stream_id, fs)),
        forall|k: DuplicateKey|
            #[trigger] record_keys(d, stream_id, fs).history.contains(k) ==> d.history.contains(k)
                || exists|i: int| 0 <= i < fs.len() && k.sequence == fs[i].header.sequence,
    decreases fs.len(),
{
    if fs.len() > 0 {
        let f = fs.last();
        let d1 = record_keys(d, stream_id, fs.drop_last());
        let key = DuplicateKey {
            stream_id,
            publisher_id: f.header.publisher_id,
            sequence: f.header.sequence,
        };
        lemma_record_keys(d, stream_id, fs.drop_last());
        lemma_dedup_step_keys(d1, key);
        assert forall|k: DuplicateKey| #[trigger] record_keys(d, stream_id, fs).history.contains(k)
            implies d.history.contains(k) || exists|i: int|
            0 <= i < fs.len() && k.sequence == fs[i].header.sequence by {
            if k == key {
                assert(k.sequence == fs[fs.len() - 1].header.sequence);
            } else if !d.history.contains(k) {
                assert(d1.history.contains(k));
                let i = choose|i: int|
                    0 <= i < fs.drop_last().len() && k.sequence == fs.drop_last()[i].header.sequence;
                assert(fs[i] == fs.drop_last()[i]);
            }
        }
    }
}

/// Putting frames back into a buffer keeps every buffered sequence, adds
/// those of the frames at or past `x`, and stores each under its sequence.
pub(crate) proof fn lemma_rebuffer(b: Map<u64, FrameModel>, x: u64, fs: Seq<FrameModel>)
    requires
        keyed_by_sequence(b),
    ensures
        keyed_by_sequence(rebuffer_from(b, x, fs)),
        forall|j: u64| b.contains_key(j) ==> #[trigger] rebuffer_from(b, x, fs).contains_key(j),
        forall|i: int|
            0 <= i < fs.len() && fs[i].header.sequence >= x ==> rebuffer_from(
                b,
                x,
                fs,
            ).contains_key(#[trigger] fs[i].header.sequence),
    decreases fs.len(),
{
    if fs.len() > 0 {
        lemma_rebuffer(b, x, fs.drop_last());
        assert forall|i: int|
            0 <= i < fs.len() && fs[i].header.sequence >= x implies rebuffer_from(
            b,
            x,
            fs,
        ).contains_key(#[trigger] fs[i].header.sequence) by {
            if i < fs.len() - 1 {
                assert(fs[i] == fs.drop_last()[i]);
            }
        }
    }
}

/// Releasing continues where delivery left off: when the receiver with the
/// released frames put back is in the delivery invariant, the receiver
/// after the release is too, and the released frames carry the sequences
/// right after the highest delivered one, in order.
pub(crate) proof fn lemma_release_continues(r: ReceiverModel, p: u64, fs: Seq<FrameModel>)
    requires
        r.tracker.active_publisher_id == Some(p),
        ordered_inv(
            ReceiverModel {
                recovery: EngineModel {
                    buffered: rebuffer_from(r.recovery.buffered, r.tracker.expected_sequence, fs),
                    ..r.recovery
                },
                ..r
            },
            p,
        ),
    ensures
        ({
            let (r2, out) = release_step(r, fs);
            &&& ordered_inv(r2, p)
            &&& r2.highest_delivered_sequence == r.highest_delivered_sequence + out.len()
            &&& forall|i: int|
                0 <= i < out.len() ==> (#[trigger] out[i]).header.sequence
                    == r.highest_delivered_sequence + 1 + i
        }),
{
    let x = r.tracker.expected_sequence;
    let b = rebuffer_from(r.recovery.buffered, x, fs);
    let n = release_length(b, x);
    let (r2, out) = release_step(r, fs);
    lemma_release_run(b, x);
    lemma_record_keys(r.dedup, r.stream_id, out);
    assert forall|i: int| 0 <= i < out.len() implies (#[trigger] out[i]).header.sequence == x + i by {
        assert(b.contains_key((x + i) as u64));
    }
    assert forall|k: DuplicateKey|
        #[trigger] r2.dedup.history.contains(k) && k.stream_id == r2.stream_id && k.publisher_id
            == p implies k.sequence < r2.tracker.expected_sequence || (r2.tracker.expected_sequence
        < k.sequence < u64::MAX && r2.recovery.buffered.contains_key(k.sequence)) by {
        if !r.dedup.history.contains(k) {
            let i = choose|i: int| 0 <= i < out.len() && k.sequence == out[i].header.sequence;
            assert(out[i].header.sequence == x + i);
        }
    }
}

/// The state of a receiver for `stream_id` in `mode` that has taken
/// nothing yet: no publisher, sequence 1 expected, nothing remembered among
/// the last 10 000 keys, recovery live with request ids from 1, nothing
/// delivered.
pub open spec fn fresh_receiver(stream_id: u64, mode: DeliveryMode, cfg: RecoveryConfig) -> ReceiverModel {
    ReceiverModel {
        stream_id,
        mode,
        tracker: StreamSequenceTracker::new_spec(stream_id),
        dedup: DedupModel { history: Seq::empty(), head: 0, capacity: 10_000 },
        recovery: EngineModel {
            config: cfg,
            state: RecoveryState::Live,
            next_request_id: 1,
            outstanding: Seq::empty(),
            buffered: Map::empty(),
        },
        highest_delivered_sequence: 0,
    }
}

/// A receiver's state after taking the DATA frames `fs` in turn, the `i`-th
/// at time `nows[i]`, and the frames it delivered, in order.
pub open spec fn receive_all(r: ReceiverModel, fs: Seq<FrameModel>, nows: Seq<Instant>) -> (
    ReceiverModel,
    Seq<FrameModel>,
)
    decreases fs.len(),
{
    if fs.len() == 0 {
        (r, Seq::empty())
    } else {
        let (r1, d1) = receive_all(r, fs.drop_last(), nows);
        let (r2, res) = receive_step(r1, fs.last(), nows[fs.len() - 1]);
        (r2, d1 + step_delivered(res))
    }
}

/// Each frame of `fs` can be taken in turn without an arithmetic overflow.
pub open spec fn all_receivable(r: ReceiverModel, fs: Seq<FrameModel>, nows: Seq<Instant>) -> bool
    decreases fs.len(),
{
    fs.len() == 0 || (all_receivable(r, fs.drop_last(), nows) && receive_allowed(
        receive_all(r, fs.drop_last(), nows).0,
        fs.last(),
    ))
}

/// A fresh RELIABLE_ORDERED receiver is in the delivery invariant of any
/// publisher.
pub proof fn lemma_fresh_receiver_ordered(stream_id: u64, cfg: RecoveryConfig, p: u64)
    ensures
        ordered_inv(fresh_receiver(stream_id, DeliveryMode::ReliableOrdered, cfg), p),
{
}

/// Successive receive steps keep the delivery invariant and continue one
/// another: what they deliver together carries the sequences right after
/// the highest delivered one, in order.
proof fn lemma_receive_all_continues(
    r: ReceiverModel,
    p: u64,
    fs: Seq<FrameModel>,
    nows: Seq<Instant>,
)
    requires
        ordered_inv(r, p),
        nows.len() >= fs.len(),
        forall|i: int|
            0 <= i < fs.len() ==> (#[trigger] fs[i]).header.publisher_id == p
                && fs[i].header.sequence < u64::MAX,
        all_receivable(r, fs, nows),
    ensures
        ({
            let (r2, d) = receive_all(r, fs, nows);
            &&& ordered_inv(r2, p)
            &&& r2.highest_delivered_sequence == r.highest_delivered_sequence + d.len()
            &&& forall|i: int|
                0 <= i < d.len() ==> (#[trigger] d[i]).header.sequence
                    == r.highest_delivered_sequence + 1 + i
        }),
    decreases fs.len(),
{
    if fs.len() > 0 {
        let pre = fs.drop_last();
        assert forall|i: int| 0 <= i < pre.len() implies (#[trigger] pre[i]).header.publisher_id
            == p && pre[i].header.sequence < u64::MAX by {
            assert(pre[i] == fs[i]);
        }
        lemma_receive_all_continues(r, p, pre, nows);
        let (r1, d1) = receive_all(r, pre, nows);
        let f = fs.last();
        let now = nows[fs.len() - 1];
        assert(f == fs[fs.len() - 1]);
        lemma_reliable_ordered_receive_continues(r1, p, f, now);
        let out = step_delivered(receive_step(r1, f, now).1);
        let d = d1 + out;
        assert forall|i: int| 0 <= i < d.len() implies (#[trigger] d[i]).header.sequence
            == r.highest_delivered_sequence + 1 + i by {
            if i < d1.len() {
                assert(d[i] == d1[i]);
            } else {
                assert(d[i] == out[i - d1.len()]);
            }
        }
    }
}

/// `v` is a frame buffered in `b`.
pub open spec fn buffered_frame(b: Map<u64, FrameModel>, v: FrameModel) -> bool {
    exists|k: u64| b.contains_key(k) && b[k] == v
}

/// A RELIABLE_ORDERED receive step hands out only the arriving frame and
/// frames it had buffered, and buffers nothing but the arriving frame.
proof fn lemma_receive_step_sources(r: ReceiverModel, f: FrameModel, now: Instant)
    requires
        r.mode is ReliableOrdered,
    ensures
        ({
            let (r2, res) = receive_step(r, f, now);
            let fs = step_delivered(res);
            &&& forall|i: int|
                0 <= i < fs.len() ==> #[trigger] fs[i] == f || buffered_frame(r.recovery.buffered, fs[i])
            &&& forall|v: FrameModel|
                #[trigger] buffered_frame(r2.recovery.buffered, v) ==> v == f || buffered_frame(
                    r.recovery.buffered,
                    v,
                )
        }),
{
    let (t1, status) = observe_step(r.tracker, f.header.publisher_id, f.header.sequence);
    let (r2, res) = receive_step(r, f, now);
    let b = r.recovery.buffered;
    let fs = step_delivered(res);
    if let SequenceStatus::InOrder { sequence } = status {
        let start = (sequence + 1) as u64;
        lemma_run_in_buffer(b, start);
        assert forall|i: int| 0 <= i < fs.len() implies #[trigger] fs[i] == f || buffered_frame(b, fs[i]) by {
            if i > 0 && fs.len() > 1 {
                assert(fs[i] == run_frames(b, start)[i - 1]);
                assert(b.contains_key((start + (i - 1)) as u64));
            }
        }
    } else if let SequenceStatus::Gap { from, to, .. } = status {
        let e1 = EngineModel { buffered: b.insert(f.header.sequence, f), ..r.recovery };
        assert(create_request_step(e1, from, to, now).0.buffered == e1.buffered);
    }
    assert forall|v: FrameModel| #[trigger] buffered_frame(r2.recovery.buffered, v) implies v == f
        || buffered_frame(b, v) by {
        let k = choose|k: u64| r2.recovery.buffered.contains_key(k) && r2.recovery.buffered[k] == v;
        if v != f {
            assert(b.contains_key(k) && b[k] == v);
        }
    }
}

/// What successive RELIABLE_ORDERED receive steps hand out, and what they
/// leave buffered, are frames they took or frames buffered at the start.
proof fn lemma_receive_all_sources(r: ReceiverModel, fs: Seq<FrameModel>, nows: Seq<Instant>)
    requires
        r.mode is ReliableOrdered,
        nows.len() >= fs.len(),
    ensures
        ({
            let (r2, d) = receive_all(r, fs, nows);
            &&& r2.mode is ReliableOrdered
            &&& forall|i: int|
                0 <= i < d.len() ==> fs.contains(#[trigger] d[i]) || buffered_frame(
                    r.recovery.buffered,
                    d[i],
                )
            &&& forall|v: FrameModel|
                #[trigger] buffered_frame(r2.recovery.buffered, v) ==> fs.contains(v)
                    || buffered_frame(r.recovery.buffered, v)
        }),
    decreases fs.len(),
{
    if fs.len() > 0 {
        let pre = fs.drop_last();
        lemma_receive_all_sources(r, pre, nows);
        let (r1, d1) = receive_all(r, pre, nows);
        let f = fs.last();
        let now = nows[fs.len() - 1];
        lemma_receive_step_sources(r1, f, now);
        let out = step_delivered(receive_step(r1, f, now).1);
        let (r2, d) = receive_all(r, fs, nows);
        assert(fs.contains(f)) by {
            assert(fs[fs.len() - 1] == f);
        }
        assert forall|v: FrameModel| pre.contains(v) implies fs.contains(v) by {
            let j = choose|j: int| 0 <= j < pre.len() && pre[j] == v;
            assert(fs[j] == v);
        }
        assert forall|i: int| 0 <= i < d.len() implies fs.contains(#[trigger] d[i]) || buffered_frame(
            r.recovery.buffered,
            d[i],
        ) by {
            if i < d1.len() {
                assert(d[i] == d1[i]);
            } else {
                assert(d[i] == out[i - d1.len()]);
                if d[i] != f {
                    assert(buffered_frame(r1.recovery.buffered, d[i]));
                }
            }
        }
        assert forall|v: FrameModel| #[trigger] buffered_frame(r2.recovery.buffered, v) implies fs.contains(
            v,
        ) || buffered_frame(r.recovery.buffered, v) by {
            if v != f {
                assert(buffered_frame(r1.recovery.buffered, v));
            }
        }
    }
}

/// RELIABLE_ORDERED delivery over successive calls: a fresh receiver that
/// takes DATA frames of one publisher, whatever of them is lost, reordered
/// or repeated, delivers the sequences 1, 2, 3, ... in that order, each
/// once and each as one of the frames it took, and its highest delivered
/// sequence is the number delivered.
pub proof fn lemma_reliable_ordered_delivery_order(
    stream_id: u64,
    cfg: RecoveryConfig,
    p: u64,
    fs: Seq<FrameModel>,
    nows: Seq<Instant>,
)
    requires
        nows.len() == fs.len(),
        forall|i: int|
            0 <= i < fs.len() ==> (#[trigger] fs[i]).header.publisher_id == p
                && fs[i].header.sequence < u64::MAX,
        all_receivable(fresh_receiver(stream_id, DeliveryMode::ReliableOrdered, cfg), fs, nows),
    ensures
        ({
            let (r, d) = receive_all(
                fresh_receiver(stream_id, DeliveryMode::ReliableOrdered, cfg),
                fs,
                nows,
            );
            &&& forall|i: int| 0 <= i < d.len() ==> (#[trigger] d[i]).header.sequence == i + 1
            &&& forall|i: int| 0 <= i < d.len() ==> fs.contains(#[trigger] d[i])
            &&& r.highest_delivered_sequence == d.len()
        }),
{
    lemma_fresh_receiver_ordered(stream_id, cfg, p);
    lemma_receive_all_sources(
        fresh_receiver(stream_id, DeliveryMode::ReliableOrdered, cfg),
        fs,
        nows,
    );
    lemma_receive_all_continues(
        fresh_receiver(stream_id, DeliveryMode::ReliableOrdered, cfg),
        p,
        fs,
        nows,
    );
}

impl StreamReceiver {
    /// The abstract state of the receiver.
    pub open spec fn model(&self) -> ReceiverModel {
        ReceiverModel {
            stream_id: self.stream_id,
            mode: self.mode,
            tracker: self.tracker,
            dedup: self.dedup.model(),
            recovery: self.recovery.model(),
            highest_delivered_sequence: self.highest_delivered_sequence,
        }
    }

    /// The receiver's consistency: its filter and engine are consistent and
    /// the filter has room.
    pub open spec fn wf(&self) -> bool {
        &&& self.dedup.wf()
        &&& self.dedup.model().capacity > 0
        &&& self.recovery.wf()
    }

    /// A receiver for `stream_id` in `mode`, remembering the last 10 000
    /// keys for duplicate suppression.
    pub fn new(stream_id: u64, mode: DeliveryMode, recovery_config: RecoveryConfig) -> (r: Self)
        ensures
            r.wf(),
            r.model() == fresh_receiver(stream_id, mode, recovery_config),
    {
        Self {
            stream_id,
            mode,
            tracker: StreamSequenceTracker::new(stream_id),
            dedup: DuplicateFilter::new(10_000),
            recovery: RecoveryEngine::new(recovery_config),
            highest_delivered_sequence: 0,
        }
    }

    /// Whether the receiver can take `frame` without an arithmetic overflow,
    /// as `receive_allowed` says.
    #[verifier::loop_isolation(false)]
    pub fn can_receive(&self, frame: &OwnedFrame) -> (r: bool)
        requires
            self.wf(),
        ensures
            r == receive_allowed(self.model(), frame.model()),
    {
        let pub_id = frame.header.publisher_id;
        let seq = frame.header.sequence;
        if !self.tracker.can_observe(pub_id, seq) {
            return false;
        }
        let mut probe = StreamSequenceTracker {
            stream_id: self.tracker.stream_id,
            active_publisher_id: self.tracker.active_publisher_id,
            expected_sequence: self.tracker.expected_sequence,
            total_gaps_detected: self.tracker.total_gaps_detected,
            total_duplicates_detected: self.tracker.total_duplicates_detected,
            total_publisher_resets: self.tracker.total_publisher_resets,
        };
        let status = probe.observe(pub_id, seq);
        let requests = match self.mode {
            DeliveryMode::AtLeastOnce | DeliveryMode::ReliableOrdered => true,
            _ => false,
        };
        match status {
            SequenceStatus::Gap { .. } => !requests || self.recovery.next_request_id() < u64::MAX,
            SequenceStatus::InOrder { sequence } => {
                if self.mode == DeliveryMode::ReliableOrdered {
                    let ghost b = self.recovery.model().buffered;
                    let mut k: u64 = sequence;
                    loop
                        invariant
                            sequence <= k,
                            b == self.recovery.model().buffered,
                            forall|j: u64| sequence < j <= k ==> #[trigger] b.contains_key(j),
                        decreases u64::MAX - k,
                    {
                        if k == u64::MAX {
                            return false;
                        }
                        k = k + 1;
                        if !self.recovery.is_buffered(k) {
                            return true;
                        }
                    }
                } else {
                    true
                }
            },
            _ => true,
        }
    }

    /// Handles an incoming DATA frame under the receiver's delivery mode,
    /// as `receive_step` says, with `now` stamping a replay request it
    /// creates. Returns the frames to deliver, in order, and the replay
    /// request to send, if any.
    pub fn process_data_frame_at(&mut self, frame: OwnedFrame, now: Instant) -> (r: Result<
        (Vec<OwnedFrame>, Option<ReplayRequestPayload>),
        RtdpError,
    >)
        requires
            old(self).wf(),
            receive_allowed(old(self).model(), frame.model()),
        ensures
            final(self).wf(),
            final(self).model() == receive_step(old(self).model(), frame.model(), now).0,
            match receive_step(old(self).model(), frame.model(), now).1 {
                Ok((fs, p)) => r is Ok && delivered_models(r->Ok_0.0@) == fs && r->Ok_0.1 == p,
                Err(f) => fails_with(r, f),
            },
    {
        let ghost m0 = self.model();
        let ghost fm = frame.model();
        let pub_id = frame.header.publisher_id;
        let seq = frame.header.sequence;
        let status = self.tracker.observe(pub_id, seq);
        let key = DuplicateKey::new(self.stream_id, pub_id, seq);
        match self.mode {
            DeliveryMode::BestEffort => {
                if seq > self.highest_delivered_sequence {
                    self.highest_delivered_sequence = seq;
                }
                let mut out: Vec<OwnedFrame> = Vec::new();
                out.push(frame);
                assert(delivered_models(out@) =~= seq![fm]);
                Ok((out, None))
            },
            DeliveryMode::Latest => {
                if seq > self.highest_delivered_sequence {
                    self.highest_delivered_sequence = seq;
                    let mut out: Vec<OwnedFrame> = Vec::new();
                    out.push(frame);
                    assert(delivered_models(out@) =~= seq![fm]);
                    Ok((out, None))
                } else {
                    let out: Vec<OwnedFrame> = Vec::new();
                    assert(delivered_models(out@) =~= Seq::<FrameModel>::empty());
                    Ok((out, None))
                }
            },
            DeliveryMode::AtLeastOnce => {
                match status {
                    SequenceStatus::InOrder { sequence } => {
                        if sequence > self.highest_delivered_sequence {
                            self.highest_delivered_sequence = sequence;
                        }
                        let mut out: Vec<OwnedFrame> = Vec::new();
                        out.push(frame);
                        assert(delivered_models(out@) =~= seq![fm]);
                        Ok((out, None))
                    },
                    SequenceStatus::Gap { from, to, .. } => {
                        let replay_req = match self.recovery.create_replay_request_at(from, to, now) {
                            Ok(p) => p,
                            Err(e) => {
                                return Err(e);
                            },
                        };
                        if seq > self.highest_delivered_sequence {
                            self.highest_delivered_sequence = seq;
                        }
                        let mut out: Vec<OwnedFrame> = Vec::new();
                        out.push(frame);
                        assert(delivered_models(out@) =~= seq![fm]);
                        Ok((out, Some(replay_req)))
                    },
                    SequenceStatus::DuplicateOrOld { .. } => {
                        let mut out: Vec<OwnedFrame> = Vec::new();
                        out.push(frame);
                        assert(delivered_models(out@) =~= seq![fm]);
                        Ok((out, None))
                    },
                    SequenceStatus::PublisherReset { initial_sequence, .. } => {
                        self.highest_delivered_sequence = initial_sequence;
                        let mut out: Vec<OwnedFrame> = Vec::new();
                        out.push(frame);
                        assert(delivered_models(out@) =~= seq![fm]);
                        Ok((out, None))
                    },
                }
            },
            DeliveryMode::ReliableOrdered => {
                if self.dedup.is_duplicate_and_record(key) {
                    let out: Vec<OwnedFrame> = Vec::new();
                    assert(delivered_models(out@) =~= Seq::<FrameModel>::empty());
                    return Ok((out, None));
                }
                match status {
                    SequenceStatus::InOrder { sequence } => {
                        let mut delivered: Vec<OwnedFrame> = Vec::new();
                        delivered.push(frame);
                        self.highest_delivered_sequence = sequence;
                        let ghost b0 = self.recovery.model().buffered;
                        let start = sequence + 1;
                        let mut contiguous = self.recovery.drain_contiguous(start);
                        let n = contiguous.len();
                        proof {
                            assert forall|k: int| 0 <= k < n implies #[trigger] b0.contains_key(
                                (start + k) as u64,
                            ) by {
                                let _ = contiguous@[k].model();
                            }
                            lemma_run_length(b0, start, n as nat);
                        }
                        let ghost dm = self.dedup.model();
                        let ghost em = self.recovery.model();
                        let mut i: usize = 0;
                        while i < n
                            invariant
                                self.wf(),
                                self.dedup.model() == dm,
                                self.recovery.model() == em,
                                self.stream_id == m0.stream_id,
                                self.mode == m0.mode,
                                n == contiguous@.len(),
                                i <= n,
                                start == sequence + 1,
                                start + n <= u64::MAX,
                                forall|k: int| 0 <= k < n ==> #[trigger] contiguous@[k].header.sequence
                                    == start + k,
                                self.tracker == (StreamSequenceTracker {
                                    expected_sequence: (start + i) as u64,
                                    ..observe_step(m0.tracker, pub_id, seq).0
                                }),
                                self.highest_delivered_sequence == (if i == 0 {
                                    sequence
                                } else {
                                    (start + i - 1) as u64
                                }),
                            decreases n - i,
                        {
                            let c_seq = contiguous[i].header.sequence;
                            self.highest_delivered_sequence = c_seq;
                            let next_expected = c_seq + 1;
                            self.tracker.advance_expected(next_expected);
                            i = i + 1;
                        }
                        let ghost d0 = delivered@;
                        let ghost c0 = contiguous@;
                        delivered.append(&mut contiguous);
                        assert(delivered_models(delivered@) =~= seq![fm] + run_frames(b0, start));
                        Ok((delivered, None))
                    },
                    SequenceStatus::Gap { from, to, .. } => {
                        self.recovery.buffer_frame(frame);
                        let replay_req = match self.recovery.create_replay_request_at(from, to, now) {
                            Ok(p) => p,
                            Err(e) => {
                                return Err(e);
                            },
                        };
                        let out: Vec<OwnedFrame> = Vec::new();
                        assert(delivered_models(out@) =~= Seq::<FrameModel>::empty());
                        Ok((out, Some(replay_req)))
                    },
                    SequenceStatus::DuplicateOrOld { .. } => {
                        let out: Vec<OwnedFrame> = Vec::new();
                        assert(delivered_models(out@) =~= Seq::<FrameModel>::empty());
                        Ok((out, None))
                    },
                    SequenceStatus::PublisherReset { initial_sequence, .. } => {
                        self.recovery.reset();
                        self.highest_delivered_sequence = initial_sequence;
                        let mut out: Vec<OwnedFrame> = Vec::new();
                        out.push(frame);
                        assert(delivered_models(out@) =~= seq![fm]);
                        Ok((out, None))
                    },
                }
            },
        }
    }

    /// Releases, in RELIABLE_ORDERED, the frames that recovery handed out,
    /// as `release_step` says: each released frame passes the duplicate
    /// filter and the tracker before it is returned for delivery, so a
    /// later copy of it is suppressed.
    pub fn release_replayed(&mut self, frames: Vec<OwnedFrame>) -> (r: Vec<OwnedFrame>)
        requires
            old(self).wf(),
        ensures
            final(self).wf(),
            (final(self).model(), delivered_models(r@)) == release_step(
                old(self).model(),
                delivered_models(frames@),
            ),
    {
        let ghost m0 = self.model();
        let ghost fs0 = delivered_models(frames@);
        let x = self.tracker.expected_sequence;
        let mut frames = frames;
        let n0 = frames.len();
        let mut i: usize = 0;
        while i < n0
            invariant
                self.wf(),
                i <= n0,
                fs0.len() == n0,
                frames@.len() == n0 - i,
                delivered_models(frames@) == fs0.skip(i as int),
                x == m0.tracker.expected_sequence,
                self.model() == (ReceiverModel {
                    recovery: EngineModel {
                        buffered: rebuffer_from(m0.recovery.buffered, x, fs0.take(i as int)),
                        ..m0.recovery
                    },
                    ..m0
                }),
            decreases n0 - i,
        {
            let ghost rest = frames@;
            let f = frames.remove(0);
            proof {
                assert(f.model() == delivered_models(rest)[0]);
                assert(delivered_models(frames@) =~= delivered_models(rest).drop_first());
                assert(fs0.skip(i as int).drop_first() =~= fs0.skip(i + 1));
                assert(fs0.take(i + 1).drop_last() =~= fs0.take(i as int));
                assert(fs0.take(i + 1).last() == fs0[i as int]);
                assert(fs0[i as int] == fs0.skip(i as int)[0]);
            }
            if f.header.sequence >= x {
                self.recovery.buffer_frame(f);
            }
            i = i + 1;
        }
        let ghost b1 = self.recovery.model().buffered;
        assert(fs0.take(n0 as int) =~= fs0);
        proof {
            self.recovery.lemma_buffer_keyed();
        }
        let run = self.recovery.take_run(x);
        let ghost out = frame_models(run@);
        proof {
            lemma_release_length(b1, x, out, self.recovery.model().buffered);
            assert forall|k: int| 0 <= k < run@.len() implies (#[trigger] run@[k]).header.sequence
                == x + k by {
                assert(out[k] == run@[k].model());
                assert(b1.contains_key((x + k) as u64));
            }
        }
        let n = run.len();
        let ghost d0 = self.dedup.model();
        let ghost e1 = self.recovery.model();
        let mut j: usize = 0;
        while j < n
            invariant
                self.wf(),
                j <= n,
                n == run@.len(),
                out == frame_models(run@),
                x + n <= u64::MAX,
                forall|k: int| 0 <= k < n ==> (#[trigger] run@[k]).header.sequence == x + k,
                self.dedup.model() == record_keys(d0, m0.stream_id, out.take(j as int)),
                self.recovery.model() == e1,
                self.stream_id == m0.stream_id,
                self.mode == m0.mode,
                self.tracker == (StreamSequenceTracker {
                    expected_sequence: (x + j) as u64,
                    ..m0.tracker
                }),
                self.highest_delivered_sequence == if j > 0 {
                    (x + j - 1) as u64
                } else {
                    m0.highest_delivered_sequence
                },
            decreases n - j,
        {
            let s = run[j].header.sequence;
            let key = DuplicateKey::new(self.stream_id, run[j].header.publisher_id, s);
            let _ = self.dedup.is_duplicate_and_record(key);
            proof {
                assert(out.take(j + 1).drop_last() =~= out.take(j as int));
                assert(out.take(j + 1).last() == run@[j as int].model());
            }
            self.tracker.advance_expected(s + 1);
            self.highest_delivered_sequence = s;
            j = j + 1;
        }
        assert(out.take(n as int) =~= out);
        assert(delivered_models(run@) == out);
        run
    }

    /// Handles an incoming DATA frame under the receiver's delivery mode;
    /// a replay request it creates is stamped with the current monotonic
    /// time.
    pub fn process_data_frame(&mut self, frame: OwnedFrame) -> (r: Result<
        (Vec<OwnedFrame>, Option<ReplayRequestPayload>),
        RtdpError,
    >)
        requires
            old(self).wf(),
            receive_allowed(old(self).model(), frame.model()),
        ensures
            final(self).wf(),
            exists|now: Instant|
                {
                    &&& final(self).model() == receive_step(old(self).model(), frame.model(), now).0
                    &&& match receive_step(old(self).model(), frame.model(), now).1 {
                        Ok((fs, p)) => r is Ok && delivered_models(r->Ok_0.0@) == fs && r->Ok_0.1
                            == p,
                        Err(f) => fails_with(r, f),
                    }
                },
    {
        let now = instant_now();
        self.process_data_frame_at(frame, now)
    }
}

} // verus!
