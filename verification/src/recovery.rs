//! Subscriber-side recovery: replay requests, retries, buffering of
//! out-of-order frames, and the replay payload formats.

use std::collections::BTreeMap;
use std::time::{Duration, Instant};
use vstd::prelude::*;
use vstd::std_specs::cmp::OrdSpec;
use vstd::string::StringExecFns;

use crate::clock::{
    duration_at_least, duration_from_millis, duration_reaches, elapsed_between, instant_elapsed,
    instant_now, millis_duration,
};
use crate::error::{
    append_decimal, decimal_text, fails_with, fault, malformed_fault, outcome_matches,
    ErrorCode, Fault, RtdpError,
};
use crate::protocol::frame::{FrameModel, OwnedFrame};
use crate::wire::{
    be64, be64_bytes, lemma_be64_roundtrip, read_u64_at, write_u64_at,
};

verus! {

broadcast use vstd::std_specs::btree::group_btree_axioms;

/// The 24 bytes of three big-endian `u64`s.
pub open spec fn u64_triple_bytes(a: u64, b: u64, c: u64) -> Seq<u8> {
    be64_bytes(a) + be64_bytes(b) + be64_bytes(c)
}

/// Payload of a REPLAY_REQUEST.
#[derive(Debug, Clone, Copy, PartialEq, Eq, Structural)]
pub struct ReplayRequestPayload {
    pub request_id: u64,
    pub from_sequence: u64,
    pub to_sequence: u64,
}

/// What decoding a REPLAY_REQUEST payload gives: fewer than 24 bytes is
/// `MALFORMED_FRAME`, a range running backwards `REPLAY_RANGE_INVALID`
/// naming both ends.
pub open spec fn spec_replay_request_decode(s: Seq<u8>) -> Result<ReplayRequestPayload, Fault> {
    if s.len() < 24 {
        Err(malformed_fault("REPLAY_REQUEST payload < 24 bytes"@))
    } else if be64(s, 8) > be64(s, 16) {
        Err(
            fault(
                ErrorCode::ReplayRangeInvalid,
                "from_sequence "@ + decimal_text(be64(s, 8)) + " > to_sequence "@ + decimal_text(
                    be64(s, 16),
                ),
            ),
        )
    } else {
        Ok(
            ReplayRequestPayload {
                request_id: be64(s, 0),
                from_sequence: be64(s, 8),
                to_sequence: be64(s, 16),
            },
        )
    }
}

/// Writes three `u64`s big-endian into the first 24 bytes of `dst`.
fn write_u64_triple(dst: &mut [u8], a: u64, b: u64, c: u64)
    requires
        old(dst)@.len() >= 24,
    ensures
        final(dst)@ == u64_triple_bytes(a, b, c) + old(dst)@.skip(24),
{
    let ghost d0 = dst@;
    write_u64_at(dst, 0, a);
    write_u64_at(dst, 8, b);
    write_u64_at(dst, 16, c);
    assert(dst@ =~= u64_triple_bytes(a, b, c) + d0.skip(24));
}

impl ReplayRequestPayload {
    /// Writes the 24-byte payload to the front of `dst`; a shorter `dst` is
    /// `MALFORMED_FRAME` and is left as it was.
    pub fn encode(&self, dst: &mut [u8]) -> (r: Result<(), RtdpError>)
        ensures
            old(dst)@.len() < 24 ==> fails_with(
                r,
                malformed_fault("Buffer too short for REPLAY_REQUEST payload"@),
            ) && final(dst)@ == old(dst)@,
            old(dst)@.len() >= 24 ==> r is Ok && final(dst)@ == u64_triple_bytes(
                self.request_id,
                self.from_sequence,
                self.to_sequence,
            ) + old(dst)@.skip(24),
    {
        if dst.len() < 24 {
            return Err(
                RtdpError::malformed(String::from_str("Buffer too short for REPLAY_REQUEST payload")),
            );
        }
        write_u64_triple(dst, self.request_id, self.from_sequence, self.to_sequence);
        Ok(())
    }

    /// Decodes a REPLAY_REQUEST payload, as `spec_replay_request_decode` says.
    pub fn decode(src: &[u8]) -> (r: Result<Self, RtdpError>)
        ensures
            outcome_matches(r, spec_replay_request_decode(src@)),
    {
        if src.len() < 24 {
            return Err(RtdpError::malformed(String::from_str("REPLAY_REQUEST payload < 24 bytes")));
        }
        let request_id = read_u64_at(src, 0);
        let from_sequence = read_u64_at(src, 8);
        let to_sequence = read_u64_at(src, 16);
        if from_sequence > to_sequence {
            let mut detail = String::from_str("from_sequence ");
            append_decimal(&mut detail, from_sequence);
            detail.append(" > to_sequence ");
            append_decimal(&mut detail, to_sequence);
            return Err(RtdpError::Protocol { code: ErrorCode::ReplayRangeInvalid, detail });
        }
        Ok(Self { request_id, from_sequence, to_sequence })
    }
}

/// Payload of a REPLAY_UNAVAILABLE.
#[derive(Debug, Clone, Copy, PartialEq, Eq, Structural)]
pub struct ReplayUnavailablePayload {
    pub request_id: u64,
    pub first_unavailable: u64,
    pub last_unavailable: u64,
}

/// What decoding a REPLAY_UNAVAILABLE payload gives: fewer than 24 bytes is
/// `MALFORMED_FRAME`.
pub open spec fn spec_replay_unavailable_decode(s: Seq<u8>) -> Result<
    ReplayUnavailablePayload,
    Fault,
> {
    if s.len() < 24 {
        Err(malformed_fault("REPLAY_UNAVAILABLE payload < 24 bytes"@))
    } else {
        Ok(
            ReplayUnavailablePayload {
                request_id: be64(s, 0),
                first_unavailable: be64(s, 8),
                last_unavailable: be64(s, 16),
            },
        )
    }
}

impl ReplayUnavailablePayload {
    /// Writes the 24-byte payload to the front of `dst`; a shorter `dst` is
    /// `MALFORMED_FRAME` and is left as it was.
    pub fn encode(&self, dst: &mut [u8]) -> (r: Result<(), RtdpError>)
        ensures
            old(dst)@.len() < 24 ==> fails_with(
                r,
                malformed_fault("Buffer too short for REPLAY_UNAVAILABLE payload"@),
            ) && final(dst)@ == old(dst)@,
            old(dst)@.len() >= 24 ==> r is Ok && final(dst)@ == u64_triple_bytes(
                self.request_id,
                self.first_unavailable,
                self.last_unavailable,
            ) + old(dst)@.skip(24),
    {
        if dst.len() < 24 {
            return Err(
                RtdpError::malformed(
                    String::from_str("Buffer too short for REPLAY_UNAVAILABLE payload"),
                ),
            );
        }
        write_u64_triple(dst, self.request_id, self.first_unavailable, self.last_unavailable);
        Ok(())
    }

    /// Decodes a REPLAY_UNAVAILABLE payload, as
    /// `spec_replay_unavailable_decode` says.
    pub fn decode(src: &[u8]) -> (r: Result<Self, RtdpError>)
        ensures
            outcome_matches(r, spec_replay_unavailable_decode(src@)),
    {
        if src.len() < 24 {
            return Err(
                RtdpError::malformed(String::from_str("REPLAY_UNAVAILABLE payload < 24 bytes")),
            );
        }
        Ok(
            Self {
                request_id: read_u64_at(src, 0),
                first_unavailable: read_u64_at(src, 8),
                last_unavailable: read_u64_at(src, 16),
            },
        )
    }
}

/// Decoding the bytes of a replay request gives it back, when its range does
/// not run backwards.
pub proof fn lemma_replay_request_roundtrip(p: ReplayRequestPayload, rest: Seq<u8>)
    requires
        p.from_sequence <= p.to_sequence,
    ensures
        spec_replay_request_decode(
            u64_triple_bytes(p.request_id, p.from_sequence, p.to_sequence) + rest,
        ) == Ok::<ReplayRequestPayload, Fault>(p),
{
    let s = u64_triple_bytes(p.request_id, p.from_sequence, p.to_sequence) + rest;
    lemma_be64_roundtrip(p.request_id);
    lemma_be64_roundtrip(p.from_sequence);
    lemma_be64_roundtrip(p.to_sequence);
    assert(s.subrange(0, 8) =~= be64_bytes(p.request_id));
    assert(s.subrange(8, 16) =~= be64_bytes(p.from_sequence));
    assert(s.subrange(16, 24) =~= be64_bytes(p.to_sequence));
    assert(be64(s, 0) == be64(s.subrange(0, 8), 0));
    assert(be64(s, 8) == be64(s.subrange(8, 16), 0));
    assert(be64(s, 16) == be64(s.subrange(16, 24), 0));
}

/// Decoding the bytes of a replay-unavailable notice gives it back.
pub proof fn lemma_replay_unavailable_roundtrip(p: ReplayUnavailablePayload, rest: Seq<u8>)
    ensures
        spec_replay_unavailable_decode(
            u64_triple_bytes(p.request_id, p.first_unavailable, p.last_unavailable) + rest,
        ) == Ok::<ReplayUnavailablePayload, Fault>(p),
{
    let s = u64_triple_bytes(p.request_id, p.first_unavailable, p.last_unavailable) + rest;
    lemma_be64_roundtrip(p.request_id);
    lemma_be64_roundtrip(p.first_unavailable);
    lemma_be64_roundtrip(p.last_unavailable);
    assert(s.subrange(0, 8) =~= be64_bytes(p.request_id));
    assert(s.subrange(8, 16) =~= be64_bytes(p.first_unavailable));
    assert(s.subrange(16, 24) =~= be64_bytes(p.last_unavailable));
    assert(be64(s, 0) == be64(s.subrange(0, 8), 0));
    assert(be64(s, 8) == be64(s.subrange(8, 16), 0));
    assert(be64(s, 16) == be64(s.subrange(16, 24), 0));
}

/// Recovery state of a stream.
#[derive(Debug, Clone, Copy, PartialEq, Eq, Structural)]
pub enum RecoveryState {
    Live,
    Recovering,
    RecoveryFailed,
}

/// An outstanding replay request.
#[derive(Debug)]
pub struct ActiveReplayRequest {
    pub request_id: u64,
    pub from_sequence: u64,
    pub to_sequence: u64,
    pub created_at: Instant,
    pub last_sent_at: Instant,
    pub retries_attempted: usize,
    pub received_sequences: Vec<u64>,
}

/// The abstract state of an outstanding replay request.
pub ghost struct RequestModel {
    pub request_id: u64,
    pub from_sequence: u64,
    pub to_sequence: u64,
    pub created_at: Instant,
    pub last_sent_at: Instant,
    pub retries_attempted: usize,
    pub received_sequences: Seq<u64>,
}

impl ActiveReplayRequest {
    /// The abstract state of this request.
    pub open spec fn model(&self) -> RequestModel {
        RequestModel {
            request_id: self.request_id,
            from_sequence: self.from_sequence,
            to_sequence: self.to_sequence,
            created_at: self.created_at,
            last_sent_at: self.last_sent_at,
            retries_attempted: self.retries_attempted,
            received_sequences: self.received_sequences@,
        }
    }
}

/// Retry and bound settings of the recovery engine.
#[derive(Debug, Clone, Copy, PartialEq, Eq)]
pub struct RecoveryConfig {
    pub retry_timeout: Duration,
    pub max_retries: usize,
    pub max_replay_range: u64,
    pub max_outstanding_requests: usize,
}

impl Default for RecoveryConfig {
    fn default() -> (r: Self)
        ensures
            r.retry_timeout == millis_duration(50),
            r.max_retries == 3,
            r.max_replay_range == 1000,
            r.max_outstanding_requests == 16,
    {
        Self {
            retry_timeout: duration_from_millis(50),
            max_retries: 3,
            max_replay_range: 1000,
            max_outstanding_requests: 16,
        }
    }
}

/// The abstract state of a recovery engine: its configuration, its state,
/// the next request id, the outstanding requests (oldest first) and the
/// buffered out-of-order frames by sequence.
pub ghost struct EngineModel {
    pub config: RecoveryConfig,
    pub state: RecoveryState,
    pub next_request_id: u64,
    pub outstanding: Seq<RequestModel>,
    pub buffered: Map<u64, FrameModel>,
}

/// `k` is the least sequence buffered in `b`.
pub open spec fn is_least_key(b: Map<u64, FrameModel>, k: u64) -> bool {
    &&& b.contains_key(k)
    &&& forall|j: u64| #[trigger] b.contains_key(j) ==> k <= j
}

/// `out` is the run of frames buffered in `b` under `k, k + 1, ...` up to
/// the first sequence not buffered (or the largest sequence), and `b2` is
/// `b` without that run.
pub open spec fn contiguous_run(
    b: Map<u64, FrameModel>,
    k: u64,
    out: Seq<FrameModel>,
    b2: Map<u64, FrameModel>,
) -> bool {
    &&& forall|i: int|
        0 <= i < out.len() ==> k + i <= u64::MAX && b.contains_key((k + i) as u64)
            && #[trigger] out[i] == b[(k + i) as u64]
    &&& (k + out.len() > u64::MAX || !b.contains_key((k + out.len()) as u64))
    &&& b2 == b.remove_keys(Set::new(|j: u64| k <= j && j < k + out.len()))
}

/// `out` is the run of frames buffered in `b` under `k, k + 1, ...` up to
/// the first sequence not buffered or `u64::MAX`, whichever comes first,
/// and `b2` is `b` without that run.
pub open spec fn run_before_max(
    b: Map<u64, FrameModel>,
    k: u64,
    out: Seq<FrameModel>,
    b2: Map<u64, FrameModel>,
) -> bool {
    &&& forall|i: int|
        0 <= i < out.len() ==> k + i < u64::MAX && b.contains_key((k + i) as u64)
            && #[trigger] out[i] == b[(k + i) as u64]
    &&& k + out.len() <= u64::MAX
    &&& (k + out.len() == u64::MAX || !b.contains_key((k + out.len()) as u64))
    &&& b2 == b.remove_keys(Set::new(|j: u64| k <= j && j < k + out.len()))
}

/// Draining the contiguous buffered frames of `b` hands out `out` and
/// leaves `b2`: nothing from an empty buffer; otherwise the run starting at
/// the least buffered sequence, while frames past the first missing
/// sequence stay buffered.
pub open spec fn drains_run(
    b: Map<u64, FrameModel>,
    out: Seq<FrameModel>,
    b2: Map<u64, FrameModel>,
) -> bool {
    if b == Map::<u64, FrameModel>::empty() {
        out.len() == 0 && b2 == b
    } else {
        exists|k: u64| is_least_key(b, k) && contiguous_run(b, k, out, b2)
    }
}

/// The models of a sequence of frames.
pub open spec fn frame_models(v: Seq<OwnedFrame>) -> Seq<FrameModel> {
    v.map_values(|f: OwnedFrame| f.model())
}

/// Request ids strictly increase, oldest request first.
pub open spec fn ids_increasing(reqs: Seq<RequestModel>) -> bool {
    forall|i: int, j: int|
        0 <= i < j < reqs.len() ==> #[trigger] reqs[i].request_id < #[trigger] reqs[j].request_id
}

/// The index of the outstanding request with id `id`, if there is one.
pub open spec fn find_request(reqs: Seq<RequestModel>, id: u64) -> Option<int>
    decreases reqs.len(),
{
    if reqs.len() == 0 {
        None
    } else {
        match find_request(reqs.drop_last(), id) {
            Some(i) => Some(i),
            None => if reqs.last().request_id == id {
                Some(reqs.len() - 1)
            } else {
                None
            },
        }
    }
}

/// What creating a replay request for `from..=to` at time `now` does: a
/// range running backwards is `REPLAY_RANGE_INVALID` (naming both ends), a
/// range longer than `max_replay_range` is `REPLAY_RANGE_INVALID` (naming
/// the length and the limit), too many outstanding requests `BACKPRESSURE`
/// (each leaves the engine as it was); otherwise a request with the next id
/// is appended and the engine is recovering.
pub open spec fn create_request_step(m: EngineModel, from: u64, to: u64, now: Instant) -> (
    EngineModel,
    Result<ReplayRequestPayload, Fault>,
) {
    let range_len = (if to >= from { to - from } else { 0 }) + 1;
    if from > to {
        (
            m,
            Err(
                fault(
                    ErrorCode::ReplayRangeInvalid,
                    "Requested range runs backwards: from_sequence "@ + decimal_text(from)
                        + " > to_sequence "@ + decimal_text(to),
                ),
            ),
        )
    } else if range_len > m.config.max_replay_range {
        (
            m,
            Err(
                fault(
                    ErrorCode::ReplayRangeInvalid,
                    "Requested range "@ + decimal_text(range_len as u64) + " exceeds maximum allowed "@
                        + decimal_text(m.config.max_replay_range),
                ),
            ),
        )
    } else if m.outstanding.len() >= m.config.max_outstanding_requests {
        (m, Err(fault(ErrorCode::Backpressure, "Exceeded max outstanding replay requests"@)))
    } else {
        let id = m.next_request_id;
        (
            EngineModel {
                next_request_id: (id + 1) as u64,
                outstanding: m.outstanding.push(
                    RequestModel {
                        request_id: id,
                        from_sequence: from,
                        to_sequence: to,
                        created_at: now,
                        last_sent_at: now,
                        retries_attempted: 0,
                        received_sequences: Seq::empty(),
                    },
                ),
                state: RecoveryState::Recovering,
                ..m
            },
            Ok(ReplayRequestPayload { request_id: id, from_sequence: from, to_sequence: to }),
        )
    }
}

/// The creations that cannot overflow: the range length and, when a request
/// is created, the next request id fit in `u64`.
pub open spec fn create_request_allowed(m: EngineModel, from: u64, to: u64) -> bool {
    &&& (if to >= from { to - from } else { 0 }) < u64::MAX
    &&& m.next_request_id < u64::MAX
}

/// The request after a replayed frame with sequence `seq` arrives: a
/// sequence inside its range, not yet seen, is recorded.
pub open spec fn record_arrival(r: RequestModel, seq: u64) -> RequestModel {
    if r.from_sequence <= seq <= r.to_sequence && !r.received_sequences.contains(seq) {
        RequestModel { received_sequences: r.received_sequences.push(seq), ..r }
    } else {
        r
    }
}

/// Every sequence of the request's range has arrived.
pub open spec fn all_arrived(r: RequestModel) -> bool {
    forall|s: u64| r.from_sequence <= s <= r.to_sequence ==> #[trigger] r.received_sequences.contains(s)
}

/// Whether the request's retry timer has run out at `now`.
pub open spec fn request_due(r: RequestModel, now: Instant, cfg: RecoveryConfig) -> bool {
    duration_reaches(instant_elapsed(now, r.last_sent_at), cfg.retry_timeout)
}

/// The request after a timer check at `now`: a due request with retries left
/// is re-sent (one more retry, sent now).
pub open spec fn after_timer_check(r: RequestModel, now: Instant, cfg: RecoveryConfig) -> RequestModel {
    if request_due(r, now, cfg) && r.retries_attempted < cfg.max_retries {
        RequestModel { retries_attempted: (r.retries_attempted + 1) as usize, last_sent_at: now, ..r }
    } else {
        r
    }
}

/// The re-sends a timer check at `now` produces, oldest request first.
pub open spec fn retry_payloads(reqs: Seq<RequestModel>, now: Instant, cfg: RecoveryConfig) -> Seq<
    ReplayRequestPayload,
>
    decreases reqs.len(),
{
    if reqs.len() == 0 {
        Seq::empty()
    } else {
        let prev = retry_payloads(reqs.drop_last(), now, cfg);
        let r = reqs.last();
        if request_due(r, now, cfg) && r.retries_attempted < cfg.max_retries {
            prev.push(
                ReplayRequestPayload {
                    request_id: r.request_id,
                    from_sequence: r.from_sequence,
                    to_sequence: r.to_sequence,
                },
            )
        } else {
            prev
        }
    }
}

/// The oldest request that is due at `now` with its retries used up.
pub open spec fn first_exhausted(reqs: Seq<RequestModel>, now: Instant, cfg: RecoveryConfig) -> Option<
    int,
>
    decreases reqs.len(),
{
    if reqs.len() == 0 {
        None
    } else {
        match first_exhausted(reqs.drop_last(), now, cfg) {
            Some(i) => Some(i),
            None => {
                let r = reqs.last();
                if request_due(r, now, cfg) && r.retries_attempted >= cfg.max_retries {
                    Some(reqs.len() - 1)
                } else {
                    None
                }
            },
        }
    }
}

/// What a timer check at `now` does: if some due request has used up its
/// retries, the oldest such one is dropped, the engine fails, its range is
/// reported unrecoverable, and every other request stays as it was (no
/// retry is counted that is not sent); otherwise every due request with
/// retries left is re-sent and the re-sends are returned.
pub open spec fn timer_step(m: EngineModel, now: Instant) -> (
    EngineModel,
    Result<Seq<ReplayRequestPayload>, (u64, u64)>,
) {
    let checked = m.outstanding.map_values(|r: RequestModel| after_timer_check(r, now, m.config));
    match first_exhausted(m.outstanding, now, m.config) {
        Some(f) => (
            EngineModel {
                outstanding: m.outstanding.remove(f),
                state: RecoveryState::RecoveryFailed,
                ..m
            },
            Err((m.outstanding[f].from_sequence, m.outstanding[f].to_sequence)),
        ),
        None => (
            EngineModel { outstanding: checked, ..m },
            Ok(retry_payloads(m.outstanding, now, m.config)),
        ),
    }
}

/// What a replayed frame `f` for request `request_id` does to engine `m`,
/// leaving `m2` and handing out `out`. For an unknown request nothing
/// changes and nothing is handed out. Otherwise the frame's sequence is
/// recorded against the request when it lies in the requested range and the
/// frame is buffered; once every sequence of the range has arrived the
/// request is retired (the engine goes live when none remain) and the
/// contiguous buffered frames are drained and handed out (`drains_run`).
pub open spec fn replay_response_outcome(
    m: EngineModel,
    request_id: u64,
    f: FrameModel,
    m2: EngineModel,
    out: Option<Seq<FrameModel>>,
) -> bool {
    let seq = f.header.sequence;
    match find_request(m.outstanding, request_id) {
        None => m2 == m && out is None,
        Some(i) => {
            let req = record_arrival(m.outstanding[i], seq);
            let buf = m.buffered.insert(seq, f);
            if all_arrived(req) {
                let rest = m.outstanding.remove(i);
                &&& m2 == (EngineModel {
                    outstanding: rest,
                    buffered: m2.buffered,
                    state: if rest.len() == 0 {
                        RecoveryState::Live
                    } else {
                        m.state
                    },
                    ..m
                })
                &&& out is Some
                &&& drains_run(buf, out->Some_0, m2.buffered)
            } else {
                &&& m2 == (EngineModel { outstanding: m.outstanding.update(i, req), buffered: buf, ..m })
                &&& out is None
            }
        },
    }
}

/// Every buffered frame is stored under its own sequence number.
pub open spec fn keyed_by_sequence(m: Map<u64, FrameModel>) -> bool {
    forall|k: u64| #[trigger] m.contains_key(k) ==> m[k].header.sequence == k
}

/// Recovery engine of one stream.
pub struct RecoveryEngine {
    config: RecoveryConfig,
    state: RecoveryState,
    next_request_id: u64,
    outstanding_requests: Vec<ActiveReplayRequest>,
    buffered_out_of_order: BTreeMap<u64, OwnedFrame>,
}

/// Keys a `BTreeMap` walks in increasing order are strictly increasing.
proof fn lemma_increasing_keys(ks: Seq<u64>)
    requires
        vstd::std_specs::btree::increasing_seq(ks),
    ensures
        forall|i: int, j: int| 0 <= i < j < ks.len() ==> ks[i] < ks[j],
{
    broadcast use vstd::std_specs::btree::axiom_increasing_seq_meaning;

    assert forall|i: int, j: int| 0 <= i < j < ks.len() implies ks[i] < ks[j] by {
        assert(ks[i].cmp_spec(&ks[j]) is Less);
    }
}

/// The models of a map of frames.
pub open spec fn map_model(m: Map<u64, OwnedFrame>) -> Map<u64, FrameModel> {
    m.map_values(|f: OwnedFrame| f.model())
}

/// Whether every sequence of `from..=to` is in `v`.
fn all_in_range(v: &Vec<u64>, from: u64, to: u64) -> (r: bool)
    ensures
        r == forall|s: u64| from <= s <= to ==> #[trigger] v@.contains(s),
{
    if from > to {
        return true;
    }
    let mut s: u64 = from;
    loop
        invariant
            from <= s <= to,
            forall|x: u64| from <= x < s ==> #[trigger] v@.contains(x),
        decreases to - s,
    {
        if !contains_u64(v, s) {
            return false;
        }
        if s == to {
            return true;
        }
        s = s + 1;
    }
}

/// Whether `v` holds `x`.
fn contains_u64(v: &Vec<u64>, x: u64) -> (r: bool)
    ensures
        r == v@.contains(x),
{
    let mut i: usize = 0;
    while i < v.len()
        invariant
            i <= v@.len(),
            forall|j: int| 0 <= j < i ==> v@[j] != x,
        decreases v@.len() - i,
    {
        if v[i] == x {
            return true;
        }
        i = i + 1;
    }
    false
}

impl RecoveryEngine {
    /// The abstract state of the engine.
    pub closed spec fn model(&self) -> EngineModel {
        EngineModel {
            config: self.config,
            state: self.state,
            next_request_id: self.next_request_id,
            outstanding: self.outstanding_requests@.map_values(|r: ActiveReplayRequest| r.model()),
            buffered: map_model(self.buffered_out_of_order@),
        }
    }

    /// The engine's consistency: buffered frames are stored under their
    /// sequences, request ids strictly increase, oldest first, and all are
    /// below the next id, and no outstanding request is complete.
    pub closed spec fn wf(&self) -> bool {
        let reqs = self.outstanding_requests@;
        &&& forall|k: u64|
            #[trigger] self.buffered_out_of_order@.contains_key(k)
                ==> self.buffered_out_of_order@[k].header.sequence == k
        &&& forall|i: int, j: int|
            0 <= i < j < reqs.len() ==> #[trigger] reqs[i].request_id < #[trigger] reqs[j].request_id
        &&& forall|i: int| 0 <= i < reqs.len() ==> #[trigger] reqs[i].request_id < self.next_request_id
        &&& requests_pending(self.model())
    }

    /// A consistent engine stores every buffered frame under its sequence.
    pub proof fn lemma_buffer_keyed(&self)
        requires
            self.wf(),
        ensures
            keyed_by_sequence(self.model().buffered),
    {
    }

    /// No outstanding request of a consistent engine has its whole range
    /// arrived.
    pub proof fn lemma_requests_pending(&self)
        requires
            self.wf(),
        ensures
            requests_pending(self.model()),
    {
    }

    /// A consistent engine's outstanding request ids strictly increase.
    pub proof fn lemma_ids_increasing(&self)
        requires
            self.wf(),
        ensures
            ids_increasing(self.model().outstanding),
    {
        let reqs = self.model().outstanding;
        assert forall|i: int, j: int| 0 <= i < j < reqs.len() implies #[trigger] reqs[i].request_id
            < #[trigger] reqs[j].request_id by {
            assert(self.outstanding_requests@[i].request_id < self.outstanding_requests@[j].request_id);
        }
    }

    /// A live engine with no requests and nothing buffered; request ids start at 1.
    pub fn new(config: RecoveryConfig) -> (r: Self)
        ensures
            r.wf(),
            r.model() == (EngineModel {
                config,
                state: RecoveryState::Live,
                next_request_id: 1,
                outstanding: Seq::empty(),
                buffered: Map::empty(),
            }),
    {
        let r = Self {
            config,
            state: RecoveryState::Live,
            next_request_id: 1,
            outstanding_requests: Vec::new(),
            buffered_out_of_order: BTreeMap::new(),
        };
        assert(r.model().outstanding =~= Seq::empty());
        assert(r.model().buffered =~= Map::empty());
        r
    }

    /// The id the next replay request will get.
    pub(crate) fn next_request_id(&self) -> (r: u64)
        ensures
            r == self.model().next_request_id,
    {
        self.next_request_id
    }

    /// Whether a frame with sequence `seq` is buffered.
    pub(crate) fn is_buffered(&self, seq: u64) -> (r: bool)
        ensures
            r == self.model().buffered.contains_key(seq),
    {
        self.buffered_out_of_order.contains_key(&seq)
    }

    /// The recovery state.
    pub fn state(&self) -> (r: RecoveryState)
        ensures
            r == self.model().state,
    {
        self.state
    }

    /// Buffers an out-of-order frame under its sequence until the gap before
    /// it is resolved.
    pub fn buffer_frame(&mut self, frame: OwnedFrame)
        requires
            old(self).wf(),
        ensures
            final(self).wf(),
            final(self).model() == (EngineModel {
                buffered: old(self).model().buffered.insert(frame.header.sequence, frame.model()),
                ..old(self).model()
            }),
            engine_moves(old(self).model(), final(self).model(), None),
    {
        let ghost fm = frame.model();
        let ghost b0 = self.buffered_out_of_order@;
        self.buffered_out_of_order.insert(frame.header.sequence, frame);
        assert(map_model(self.buffered_out_of_order@) =~= map_model(b0).insert(
            frame.header.sequence,
            fm,
        ));
    }

    /// Creates a replay request for `from_sequence..=to_sequence` stamped
    /// with `now`, as `create_request_step` says.
    pub fn create_replay_request_at(
        &mut self,
        from_sequence: u64,
        to_sequence: u64,
        now: Instant,
    ) -> (r: Result<ReplayRequestPayload, RtdpError>)
        requires
            old(self).wf(),
            create_request_allowed(old(self).model(), from_sequence, to_sequence),
        ensures
            final(self).wf(),
            final(self).model() == create_request_step(
                old(self).model(),
                from_sequence,
                to_sequence,
                now,
            ).0,
            outcome_matches(
                r,
                create_request_step(old(self).model(), from_sequence, to_sequence, now).1,
            ),
            engine_moves(old(self).model(), final(self).model(), issued_id(r)),
    {
        if from_sequence > to_sequence {
            let mut detail = String::from_str("Requested range runs backwards: from_sequence ");
            append_decimal(&mut detail, from_sequence);
            detail.append(" > to_sequence ");
            append_decimal(&mut detail, to_sequence);
            return Err(RtdpError::Protocol { code: ErrorCode::ReplayRangeInvalid, detail });
        }
        let range_len = to_sequence - from_sequence + 1;
        if range_len > self.config.max_replay_range {
            let mut detail = String::from_str("Requested range ");
            append_decimal(&mut detail, range_len);
            detail.append(" exceeds maximum allowed ");
            append_decimal(&mut detail, self.config.max_replay_range);
            return Err(RtdpError::Protocol { code: ErrorCode::ReplayRangeInvalid, detail });
        }
        if self.outstanding_requests.len() >= self.config.max_outstanding_requests {
            return Err(
                RtdpError::Protocol {
                    code: ErrorCode::Backpressure,
                    detail: String::from_str("Exceeded max outstanding replay requests"),
                },
            );
        }
        let request_id = self.next_request_id;
        self.next_request_id = self.next_request_id + 1;
        let ghost o0 = self.outstanding_requests@;
        let req = ActiveReplayRequest {
            request_id,
            from_sequence,
            to_sequence,
            created_at: now,
            last_sent_at: now,
            retries_attempted: 0,
            received_sequences: Vec::new(),
        };
        self.outstanding_requests.push(req);
        self.state = RecoveryState::Recovering;
        proof {
            let m = self.outstanding_requests@.map_values(|r: ActiveReplayRequest| r.model());
            let m0 = o0.map_values(|r: ActiveReplayRequest| r.model());
            assert(self.outstanding_requests@[o0.len() as int].received_sequences@ =~= Seq::<u64>::empty());
            assert(m =~= m0.push(
                RequestModel {
                    request_id,
                    from_sequence,
                    to_sequence,
                    created_at: now,
                    last_sent_at: now,
                    retries_attempted: 0,
                    received_sequences: Seq::empty(),
                },
            ));
            assert(self.model() == create_request_step(
                old(self).model(),
                from_sequence,
                to_sequence,
                now,
            ).0);
            lemma_engine_moves_keep_pending(old(self).model(), self.model(), Some(request_id));
        }
        Ok(ReplayRequestPayload { request_id, from_sequence, to_sequence })
    }

    /// Creates a replay request for `from_sequence..=to_sequence`, stamped
    /// with the current monotonic time.
    pub fn create_replay_request(&mut self, from_sequence: u64, to_sequence: u64) -> (r: Result<
        ReplayRequestPayload,
        RtdpError,
    >)
        requires
            old(self).wf(),
            create_request_allowed(old(self).model(), from_sequence, to_sequence),
        ensures
            final(self).wf(),
            exists|now: Instant|
                {
                    &&& final(self).model() == create_request_step(
                        old(self).model(),
                        from_sequence,
                        to_sequence,
                        now,
                    ).0
                    &&& outcome_matches(
                        r,
                        create_request_step(old(self).model(), from_sequence, to_sequence, now).1,
                    )
                },
            engine_moves(old(self).model(), final(self).model(), issued_id(r)),
    {
        let now = instant_now();
        self.create_replay_request_at(from_sequence, to_sequence, now)
    }

    /// Drops the request with the given id, marks recovery as failed and
    /// reports the unavailable range as unrecoverable.
    pub fn handle_replay_unavailable(&mut self, unavail: &ReplayUnavailablePayload) -> (r: Result<
        (),
        RtdpError,
    >)
        requires
            old(self).wf(),
        ensures
            final(self).wf(),
            final(self).model() == (EngineModel {
                outstanding: match find_request(old(self).model().outstanding, unavail.request_id) {
                    Some(i) => old(self).model().outstanding.remove(i),
                    None => old(self).model().outstanding,
                },
                state: RecoveryState::RecoveryFailed,
                ..old(self).model()
            }),
            r == Err::<(), RtdpError>(
                RtdpError::UnrecoverableGap {
                    from: unavail.first_unavailable,
                    to: unavail.last_unavailable,
                },
            ),
            engine_moves(old(self).model(), final(self).model(), None),
    {
        let ghost m0 = self.model();
        match self.position_of(unavail.request_id) {
            Some(i) => {
                let ghost o0 = self.outstanding_requests@;
                self.outstanding_requests.remove(i);
                proof {
                    lemma_remove_preserves_order(o0, i as int, self.next_request_id);
                    assert(self.outstanding_requests@.map_values(|r: ActiveReplayRequest| r.model())
                        =~= o0.map_values(|r: ActiveReplayRequest| r.model()).remove(i as int));
                }
            },
            None => {},
        }
        self.state = RecoveryState::RecoveryFailed;
        assert(self.model().buffered == m0.buffered);
        assert(self.model().outstanding == (match find_request(m0.outstanding, unavail.request_id) {
            Some(i) => m0.outstanding.remove(i),
            None => m0.outstanding,
        }));
        assert(self.model().config == m0.config);
        assert(self.model().next_request_id == m0.next_request_id);
        Err(
            RtdpError::UnrecoverableGap {
                from: unavail.first_unavailable,
                to: unavail.last_unavailable,
            },
        )
    }

    /// Drains the contiguous buffered frames: the run starting at the least
    /// buffered sequence, in sequence order, up to the first sequence not
    /// buffered; frames past that hole stay buffered.
    pub fn drain_buffered(&mut self) -> (r: Vec<OwnedFrame>)
        requires
            old(self).wf(),
        ensures
            final(self).wf(),
            final(self).model() == (EngineModel {
                buffered: final(self).model().buffered,
                ..old(self).model()
            }),
            drains_run(old(self).model().buffered, frame_models(r@), final(self).model().buffered),
            engine_moves(old(self).model(), final(self).model(), None),
    {
        let ghost b0 = self.model().buffered;
        let ghost m0 = self.buffered_out_of_order@;
        assert(map_model(m0).dom() =~= m0.dom());
        let mut least: Option<u64> = None;
        let values = self.buffered_out_of_order.values();
        let ghost ks = choose|ks: Seq<u64>|
            {
                &&& vstd::std_specs::btree::increasing_seq(ks)
                &&& ks.to_set() == m0.dom()
                &&& ks.no_duplicates()
                &&& vstd::std_specs::iter::IteratorSpec::remaining(&values) == ks.map(
                    |i: int, k| &m0[k],
                )
            };
        for f in it: values
            invariant
                it.seq() == ks.map(|i: int, k| &m0[k]),
                m0 == self.buffered_out_of_order@,
                ks.to_set() == m0.dom(),
                self.wf(),
                least == (if it.index() == 0 {
                    None::<u64>
                } else {
                    Some(ks[0])
                }),
        {
            if least.is_none() {
                assert(ks.contains(ks[0]));
                assert(m0.contains_key(ks[0]));
                least = Some(f.header.sequence);
            }
        }
        let s0 = match least {
            Some(k) => k,
            None => {
                assert(b0 =~= Map::<u64, FrameModel>::empty()) by {
                    assert forall|k: u64| !b0.contains_key(k) by {
                        if b0.contains_key(k) {
                            assert(ks.to_set().contains(k));
                        }
                    }
                }
                let empty: Vec<OwnedFrame> = Vec::new();
                assert(frame_models(empty@).len() == 0);
                return empty;
            },
        };
        proof {
            lemma_increasing_keys(ks);
            assert(ks.contains(ks[0]));
            assert forall|j: u64| #[trigger] b0.contains_key(j) implies s0 <= j by {
                assert(ks.to_set().contains(j));
                let t = choose|t: int| 0 <= t < ks.len() && ks[t] == j;
                if t > 0 {
                    assert(ks[0] < ks[t]);
                }
            }
            assert(is_least_key(b0, s0));
            assert(b0 != Map::<u64, FrameModel>::empty()) by {
                assert(b0.contains_key(s0));
            }
        }
        let mut current = s0;
        let mut res: Vec<OwnedFrame> = Vec::new();
        loop
            invariant_except_break
                res@.len() == current - s0,
            invariant
                s0 <= current,
                s0 + res@.len() <= u64::MAX + 1,
                res@.len() <= current - s0 + 1,
                forall|i: int|
                    0 <= i < res@.len() ==> b0.contains_key((s0 + i) as u64)
                        && #[trigger] res@[i].model() == b0[(s0 + i) as u64],
                self.model().buffered == b0.remove_keys(
                    Set::new(|k: u64| s0 <= k && k < s0 + res@.len()),
                ),
                self.wf(),
                self.model().config == old(self).model().config,
                self.model().state == old(self).model().state,
                self.model().next_request_id == old(self).model().next_request_id,
                self.model().outstanding == old(self).model().outstanding,
            ensures
                s0 + res@.len() > u64::MAX || !b0.contains_key((s0 + res@.len()) as u64),
            decreases u64::MAX - current,
        {
            let ghost bm = self.buffered_out_of_order@;
            match self.buffered_out_of_order.remove(&current) {
                Some(frame) => {
                    assert(bm.contains_key(current));
                    assert(map_model(bm).contains_key(current));
                    assert(frame == bm[current]);
                    assert(map_model(bm)[current] == frame.model());
                    assert(frame.model() == b0[current]);
                    let ghost r0 = res@;
                    res.push(frame);
                    assert forall|i: int| 0 <= i < res@.len() implies b0.contains_key(
                        (s0 + i) as u64,
                    ) && #[trigger] res@[i].model() == b0[(s0 + i) as u64] by {
                        if i < r0.len() {
                            assert(res@[i] == r0[i]);
                        } else {
                            assert((s0 + i) as u64 == current);
                        }
                    }
                    assert(self.buffered_out_of_order@ == bm.remove(current));
                    assert(map_model(self.buffered_out_of_order@) =~= map_model(bm).remove(current));
                    assert(map_model(self.buffered_out_of_order@) =~= b0.remove_keys(
                        Set::new(|k: u64| s0 <= k && k < s0 + res@.len()),
                    ));
                    if current == u64::MAX {
                        break;
                    }
                    current = current + 1;
                },
                None => {
                    assert(!bm.contains_key(current));
                    assert(!map_model(bm).contains_key(current));
                    break;
                },
            }
        }
        proof {
            let out = frame_models(res@);
            assert(out.len() == res@.len());
            assert forall|i: int| 0 <= i < out.len() implies s0 + i <= u64::MAX && b0.contains_key(
                (s0 + i) as u64,
            ) && #[trigger] out[i] == b0[(s0 + i) as u64] by {
                assert(out[i] == res@[i].model());
                assert(b0.contains_key((s0 + i) as u64) && res@[i].model() == b0[(s0 + i) as u64]);
            }
            assert forall|i: int| 0 <= i < out.len() implies #[trigger] b0.contains_key(
                (s0 + i) as u64,
            ) by {
                assert(b0.contains_key((s0 + i) as u64) && res@[i].model() == b0[(s0 + i) as u64]);
            }
            assert(Set::new(|j: u64| s0 <= j && j < s0 + out.len()) =~= Set::new(
                |k: u64| s0 <= k && k < s0 + res@.len(),
            ));
            assert(contiguous_run(b0, s0, out, self.model().buffered));
        }
        res
    }

    /// Takes the buffered frames `start_seq, start_seq + 1, ...` out of the
    /// buffer, up to the first sequence not buffered.
    pub fn drain_contiguous(&mut self, start_seq: u64) -> (r: Vec<OwnedFrame>)
        requires
            old(self).wf(),
            exists|k: u64| k >= start_seq && !old(self).model().buffered.contains_key(k),
        ensures
            final(self).wf(),
            ({
                let b = old(self).model().buffered;
                let n = r@.len();
                &&& forall|i: int|
                    0 <= i < n ==> b.contains_key((start_seq + i) as u64) && #[trigger] r@[i].model()
                        == b[(start_seq + i) as u64]
                &&& forall|i: int| 0 <= i < n ==> #[trigger] r@[i].header.sequence == start_seq + i
                &&& start_seq + n <= u64::MAX
                &&& !b.contains_key((start_seq + n) as u64)
                &&& final(self).model() == (EngineModel {
                    buffered: b.remove_keys(
                        Set::new(|k: u64| start_seq <= k && k < start_seq + n),
                    ),
                    ..old(self).model()
                })
            }),
            engine_moves(old(self).model(), final(self).model(), None),
    {
        let ghost b0 = self.model().buffered;
        let mut current = start_seq;
        let mut res: Vec<OwnedFrame> = Vec::new();
        loop
            invariant_except_break
                exists|k: u64| k >= current && !self.model().buffered.contains_key(k),
            invariant
                start_seq <= current,
                res@.len() == current - start_seq,
                forall|i: int|
                    0 <= i < res@.len() ==> b0.contains_key((start_seq + i) as u64)
                        && #[trigger] res@[i].model() == b0[(start_seq + i) as u64],
                self.model().buffered == b0.remove_keys(
                    Set::new(|k: u64| start_seq <= k && k < current),
                ),
                forall|i: int| 0 <= i < res@.len() ==> #[trigger] res@[i].header.sequence == start_seq + i,
                self.wf(),
                self.model().config == old(self).model().config,
                self.model().state == old(self).model().state,
                self.model().next_request_id == old(self).model().next_request_id,
                self.model().outstanding == old(self).model().outstanding,
            ensures
                !b0.contains_key(current),
            decreases u64::MAX - current,
        {
            let ghost bm = self.buffered_out_of_order@;
            match self.buffered_out_of_order.remove(&current) {
                Some(frame) => {
                    assert(bm.contains_key(current));
                    assert(map_model(bm).contains_key(current));
                    assert(b0.contains_key(current));
                    let ghost kk = choose|k: u64| k >= current && !map_model(bm).contains_key(k);
                    assert(kk != current);
                    assert(frame == bm[current]);
                    assert(frame.header.sequence == current);
                    assert(map_model(bm)[current] == frame.model());
                    assert(frame.model() == b0[current]);
                    let ghost r0 = res@;
                    res.push(frame);
                    assert forall|i: int| 0 <= i < res@.len() implies b0.contains_key(
                        (start_seq + i) as u64,
                    ) && #[trigger] res@[i].model() == b0[(start_seq + i) as u64] by {
                        if i < r0.len() {
                            assert(res@[i] == r0[i]);
                        } else {
                            assert((start_seq + i) as u64 == current);
                        }
                    }
                    assert forall|i: int| 0 <= i < res@.len() implies #[trigger] res@[i].header.sequence
                        == start_seq + i by {
                        if i < r0.len() {
                            assert(res@[i] == r0[i]);
                        }
                    }
                    current = current + 1;
                    assert(self.buffered_out_of_order@ == bm.remove((current - 1) as u64));
                    assert(map_model(self.buffered_out_of_order@) =~= map_model(bm).remove(
                        (current - 1) as u64,
                    ));
                    assert(map_model(self.buffered_out_of_order@) =~= b0.remove_keys(
                        Set::new(|k: u64| start_seq <= k && k < current),
                    ));
                    assert(!self.model().buffered.contains_key(kk));
                },
                None => {
                    assert(!bm.contains_key(current));
                    assert(!map_model(bm).contains_key(current));
                    break;
                },
            }
        }
        res
    }

    /// Takes the buffered frames `start_seq, start_seq + 1, ...` out of the
    /// buffer, up to the first sequence not buffered or `u64::MAX`,
    /// whichever comes first, as `run_before_max` says.
    pub(crate) fn take_run(&mut self, start_seq: u64) -> (r: Vec<OwnedFrame>)
        requires
            old(self).wf(),
        ensures
            final(self).wf(),
            run_before_max(
                old(self).model().buffered,
                start_seq,
                frame_models(r@),
                final(self).model().buffered,
            ),
            final(self).model() == (EngineModel {
                buffered: final(self).model().buffered,
                ..old(self).model()
            }),
            engine_moves(old(self).model(), final(self).model(), None),
    {
        let ghost b0 = self.model().buffered;
        let mut current = start_seq;
        let mut res: Vec<OwnedFrame> = Vec::new();
        loop
            invariant
                start_seq <= current,
                res@.len() == current - start_seq,
                forall|i: int|
                    0 <= i < res@.len() ==> start_seq + i < u64::MAX && b0.contains_key(
                        (start_seq + i) as u64,
                    ) && #[trigger] res@[i].model() == b0[(start_seq + i) as u64],
                self.model().buffered == b0.remove_keys(
                    Set::new(|k: u64| start_seq <= k && k < current),
                ),
                self.wf(),
                self.model().config == old(self).model().config,
                self.model().state == old(self).model().state,
                self.model().next_request_id == old(self).model().next_request_id,
                self.model().outstanding == old(self).model().outstanding,
            ensures
                current == u64::MAX || !b0.contains_key(current),
            decreases u64::MAX - current,
        {
            if current == u64::MAX {
                break;
            }
            let ghost bm = self.buffered_out_of_order@;
            match self.buffered_out_of_order.remove(&current) {
                Some(frame) => {
                    assert(bm.contains_key(current));
                    assert(map_model(bm).contains_key(current));
                    assert(frame == bm[current]);
                    assert(map_model(bm)[current] == frame.model());
                    assert(frame.model() == b0[current]);
                    let ghost r0 = res@;
                    res.push(frame);
                    assert forall|i: int| 0 <= i < res@.len() implies start_seq + i < u64::MAX
                        && b0.contains_key((start_seq + i) as u64) && #[trigger] res@[i].model()
                        == b0[(start_seq + i) as u64] by {
                        if i < r0.len() {
                            assert(res@[i] == r0[i]);
                        } else {
                            assert((start_seq + i) as u64 == current);
                        }
                    }
                    current = current + 1;
                    assert(self.buffered_out_of_order@ == bm.remove((current - 1) as u64));
                    assert(map_model(self.buffered_out_of_order@) =~= map_model(bm).remove(
                        (current - 1) as u64,
                    ));
                    assert(map_model(self.buffered_out_of_order@) =~= b0.remove_keys(
                        Set::new(|k: u64| start_seq <= k && k < current),
                    ));
                },
                None => {
                    assert(!bm.contains_key(current));
                    assert(!map_model(bm).contains_key(current));
                    break;
                },
            }
        }
        proof {
            let out = frame_models(res@);
            assert forall|i: int| 0 <= i < out.len() implies start_seq + i < u64::MAX
                && b0.contains_key((start_seq + i) as u64) && #[trigger] out[i] == b0[(start_seq
                + i) as u64] by {
                assert(out[i] == res@[i].model());
            }
            assert forall|i: int| 0 <= i < out.len() implies #[trigger] b0.contains_key(
                (start_seq + i) as u64,
            ) by {
                assert(out[i] == res@[i].model());
            }
            assert(out.len() == current - start_seq);
            assert(Set::new(|j: u64| start_seq <= j && j < start_seq + out.len()) =~= Set::new(
                |k: u64| start_seq <= k && k < current,
            ));
            assert(self.model().buffered == b0.remove_keys(
                Set::new(|j: u64| start_seq <= j && j < start_seq + out.len()),
            ));
            assert(start_seq + out.len() == current);
        }
        res
    }

    /// Back to live: no outstanding requests, nothing buffered.
    pub fn reset(&mut self)
        requires
            old(self).wf(),
        ensures
            final(self).wf(),
            final(self).model() == (EngineModel {
                state: RecoveryState::Live,
                outstanding: Seq::empty(),
                buffered: Map::empty(),
                ..old(self).model()
            }),
            engine_moves(old(self).model(), final(self).model(), None),
    {
        self.state = RecoveryState::Live;
        self.outstanding_requests.clear();
        self.buffered_out_of_order.clear();
        assert(self.model().outstanding =~= Seq::empty());
        assert(self.model().buffered =~= Map::empty());
    }

    /// Handles a replayed frame for request `request_id`. For an unknown
    /// request nothing changes and the frame is dropped. Otherwise the
    /// frame's sequence is recorded against the request when it lies in the
    /// requested range, the frame is buffered, and once every sequence of
    /// the range has arrived the request is retired (the engine goes live
    /// when none remain) and the contiguous buffered frames are drained and
    /// handed out, as `drain_buffered` does.
    pub fn handle_replay_response(&mut self, request_id: u64, frame: OwnedFrame) -> (r: Result<
        Option<Vec<OwnedFrame>>,
        RtdpError,
    >)
        requires
            old(self).wf(),
        ensures
            final(self).wf(),
            r is Ok,
            replay_response_outcome(
                old(self).model(),
                request_id,
                frame.model(),
                final(self).model(),
                match r {
                    Ok(Some(v)) => Some(frame_models(v@)),
                    _ => None,
                },
            ),
            engine_moves(old(self).model(), final(self).model(), None),
    {
        let seq = frame.header.sequence;
        let ghost m0 = self.model();
        let ghost fr = frame.model();
        let ghost o0 = self.outstanding_requests@;
        let i = match self.position_of(request_id) {
            Some(i) => i,
            None => {
                return Ok(None);
            },
        };
        assert(find_request(m0.outstanding, request_id) == Some(i as int));
        let from = self.outstanding_requests[i].from_sequence;
        let to = self.outstanding_requests[i].to_sequence;
        if seq >= from && seq <= to {
            if !contains_u64(&self.outstanding_requests[i].received_sequences, seq) {
                self.outstanding_requests[i].received_sequences.push(seq);
            }
        }
        let ghost req = record_arrival(m0.outstanding[i as int], seq);
        assert(self.outstanding_requests@[i as int].model() == req);
        assert(self.outstanding_requests@.map_values(|r: ActiveReplayRequest| r.model())
            =~= m0.outstanding.update(i as int, req));
        let ghost fm = frame.model();
        let ghost b0 = self.buffered_out_of_order@;
        self.buffered_out_of_order.insert(seq, frame);
        assert(map_model(self.buffered_out_of_order@) =~= map_model(b0).insert(seq, fm));
        let all = all_in_range(&self.outstanding_requests[i].received_sequences, from, to);
        assert(self.outstanding_requests@[i as int].model() == req);
        assert(from == req.from_sequence && to == req.to_sequence);
        assert(all == all_arrived(req)) by {
            let v = self.outstanding_requests@[i as int].received_sequences@;
            assert(v == req.received_sequences);
            if all {
                assert forall|x: u64| req.from_sequence <= x <= req.to_sequence implies #[trigger] req.received_sequences.contains(x) by {
                    assert(v.contains(x));
                }
            } else {
                let x = choose|x: u64| from <= x <= to && !#[trigger] v.contains(x);
                assert(!req.received_sequences.contains(x));
            }
        }
        if all {
            let ghost o1 = self.outstanding_requests@;
            self.outstanding_requests.remove(i);
            proof {
                lemma_remove_preserves_order(o1, i as int, self.next_request_id);
                assert(self.outstanding_requests@.map_values(|r: ActiveReplayRequest| r.model())
                    =~= m0.outstanding.remove(i as int));
            }
            if self.outstanding_requests.len() == 0 {
                self.state = RecoveryState::Live;
            }
            let drained = self.drain_buffered();
            assert(replay_response_outcome(m0, request_id, fr, self.model(), Some(frame_models(drained@))));
            return Ok(Some(drained));
        }
        assert(self.model().outstanding == m0.outstanding.update(i as int, req));
        assert(self.model().buffered == m0.buffered.insert(seq, fm));
        assert(self.model() == (EngineModel {
            outstanding: m0.outstanding.update(i as int, req),
            buffered: m0.buffered.insert(seq, fm),
            ..m0
        }));
        assert(replay_response_outcome(m0, request_id, fr, self.model(), None));
        Ok(None)
    }

    /// The timer check at `now`, as `timer_step` says: due requests with
    /// retries left are re-sent with the same id; the oldest due request
    /// without retries left is dropped and its range reported unrecoverable.
    pub fn check_timeouts_at(&mut self, now: Instant) -> (r: Result<
        Vec<ReplayRequestPayload>,
        RtdpError,
    >)
        requires
            old(self).wf(),
        ensures
            final(self).wf(),
            final(self).model() == timer_step(old(self).model(), now).0,
            match timer_step(old(self).model(), now).1 {
                Ok(ps) => r is Ok && r->Ok_0@ == ps,
                Err((from, to)) => r == Err::<Vec<ReplayRequestPayload>, RtdpError>(
                    RtdpError::UnrecoverableGap { from, to },
                ),
            },
            engine_moves(old(self).model(), final(self).model(), None),
    {
        let ghost m0 = self.model();
        let ghost o0 = self.outstanding_requests@;
        let ghost reqs = m0.outstanding;
        let ghost cfg = m0.config;
        let n = self.outstanding_requests.len();
        let mut j: usize = 0;
        while j < n
            invariant
                m0 == self.model(),
                m0 == old(self).model(),
                o0 == self.outstanding_requests@,
                self.buffered_out_of_order@ == old(self).buffered_out_of_order@,
                self.state == m0.state,
                self.next_request_id == m0.next_request_id,
                reqs == m0.outstanding,
                cfg == m0.config,
                self.config == cfg,
                self.wf(),
                n == reqs.len() == o0.len(),
                j <= n,
                first_exhausted(reqs.take(j as int), now, cfg) is None,
            decreases n - j,
        {
            assert(reqs.take(j + 1).drop_last() =~= reqs.take(j as int));
            assert(reqs.take(j + 1).last() == reqs[j as int]);
            let last = self.outstanding_requests[j].last_sent_at;
            let elapsed = elapsed_between(now, last);
            let due = duration_at_least(elapsed, self.config.retry_timeout);
            assert(due == request_due(reqs[j as int], now, cfg));
            if due && self.outstanding_requests[j].retries_attempted >= self.config.max_retries {
                proof {
                    assert(first_exhausted(reqs.take(j + 1), now, cfg) == Some(j as int));
                    lemma_first_exhausted_extend(reqs, (j + 1) as int, now, cfg);
                }
                let req = self.outstanding_requests.remove(j);
                proof {
                    lemma_remove_preserves_order(o0, j as int, self.next_request_id);
                    assert(self.outstanding_requests@.map_values(|r: ActiveReplayRequest| r.model())
                        =~= reqs.remove(j as int));
                }
                self.state = RecoveryState::RecoveryFailed;
                proof {
                    lemma_first_exhausted_in_range(reqs, now, cfg);
                    assert(self.model() == timer_step(m0, now).0);
                    lemma_engine_moves_keep_pending(m0, self.model(), None);
                }
                return Err(RtdpError::UnrecoverableGap { from: req.from_sequence, to: req.to_sequence });
            }
            j = j + 1;
        }
        assert(reqs.take(n as int) =~= reqs);
        let mut retries: Vec<ReplayRequestPayload> = Vec::new();
        let mut i: usize = 0;
        while i < n
            invariant
                m0 == old(self).model(),
                reqs == m0.outstanding,
                cfg == m0.config,
                self.config == cfg,
                self.state == m0.state,
                self.next_request_id == m0.next_request_id,
                map_model(self.buffered_out_of_order@) == m0.buffered,
                self.buffered_out_of_order@ == old(self).buffered_out_of_order@,
                n == reqs.len() == self.outstanding_requests@.len() == o0.len(),
                i <= n,
                forall|k: int|
                    0 <= k < n ==> (#[trigger] self.outstanding_requests@[k]).request_id
                        == o0[k].request_id,
                forall|k: int|
                    0 <= k < i ==> (#[trigger] self.outstanding_requests@[k]).model()
                        == after_timer_check(reqs[k], now, cfg),
                forall|k: int|
                    i <= k < n ==> (#[trigger] self.outstanding_requests@[k]).model() == reqs[k],
                retries@ == retry_payloads(reqs.take(i as int), now, cfg),
            decreases n - i,
        {
            assert(reqs.take(i + 1).drop_last() =~= reqs.take(i as int));
            assert(reqs.take(i + 1).last() == reqs[i as int]);
            let last = self.outstanding_requests[i].last_sent_at;
            let elapsed = elapsed_between(now, last);
            let due = duration_at_least(elapsed, self.config.retry_timeout);
            assert(due == request_due(reqs[i as int], now, cfg));
            if due && self.outstanding_requests[i].retries_attempted < self.config.max_retries {
                let ghost before = self.outstanding_requests@;
                self.outstanding_requests[i].retries_attempted = self.outstanding_requests[i].retries_attempted + 1;
                self.outstanding_requests[i].last_sent_at = now;
                assert(self.outstanding_requests@[i as int].model() == after_timer_check(reqs[i as int], now, cfg));
                assert forall|k: int| 0 <= k < n && k != i implies self.outstanding_requests@[k] == before[k] by {}
                retries.push(
                    ReplayRequestPayload {
                        request_id: self.outstanding_requests[i].request_id,
                        from_sequence: self.outstanding_requests[i].from_sequence,
                        to_sequence: self.outstanding_requests[i].to_sequence,
                    },
                );
            }
            i = i + 1;
        }
        assert(reqs.take(n as int) =~= reqs);
        let ghost checked = reqs.map_values(|r: RequestModel| after_timer_check(r, now, cfg));
        assert(self.outstanding_requests@.map_values(|r: ActiveReplayRequest| r.model()) =~= checked);
        proof {
            assert(self.model() == timer_step(m0, now).0);
            lemma_engine_moves_keep_pending(m0, self.model(), None);
        }
        Ok(retries)
    }

    /// The timer check at the current monotonic time.
    pub fn check_timeouts(&mut self) -> (r: Result<Vec<ReplayRequestPayload>, RtdpError>)
        requires
            old(self).wf(),
        ensures
            final(self).wf(),
            exists|now: Instant|
                {
                    &&& final(self).model() == timer_step(old(self).model(), now).0
                    &&& match timer_step(old(self).model(), now).1 {
                        Ok(ps) => r is Ok && r->Ok_0@ == ps,
                        Err((from, to)) => r == Err::<Vec<ReplayRequestPayload>, RtdpError>(
                            RtdpError::UnrecoverableGap { from, to },
                        ),
                    }
                },
            engine_moves(old(self).model(), final(self).model(), None),
    {
        let now = instant_now();
        self.check_timeouts_at(now)
    }

    /// The position of the outstanding request with id `id`.
    fn position_of(&self, id: u64) -> (r: Option<usize>)
        ensures
            match find_request(self.model().outstanding, id) {
                Some(i) => r is Some && r->Some_0 == i && 0 <= i < self.model().outstanding.len(),
                None => r is None,
            },
    {
        let ghost reqs = self.model().outstanding;
        let mut i: usize = 0;
        while i < self.outstanding_requests.len()
            invariant
                reqs == self.model().outstanding,
                i <= reqs.len(),
                find_request(reqs.take(i as int), id) is None,
            decreases reqs.len() - i,
        {
            assert(reqs.take(i + 1).drop_last() =~= reqs.take(i as int));
            if self.outstanding_requests[i].request_id == id {
                proof {
                    lemma_find_request_prefix(reqs, (i + 1) as int, id);
                }
                return Some(i);
            }
            i = i + 1;
        }
        assert(reqs.take(i as int) =~= reqs);
        None
    }
}

/// A retry re-sends an outstanding request unchanged: same id, same range,
/// and only a request that is due and has retries left.
pub proof fn lemma_retry_repeats_request(
    reqs: Seq<RequestModel>,
    now: Instant,
    cfg: RecoveryConfig,
    j: int,
)
    requires
        0 <= j < retry_payloads(reqs, now, cfg).len(),
    ensures
        exists|i: int|
            0 <= i < reqs.len() && request_due(reqs[i], now, cfg) && reqs[i].retries_attempted
                < cfg.max_retries && #[trigger] reqs[i].request_id == retry_payloads(
                reqs,
                now,
                cfg,
            )[j].request_id && reqs[i].from_sequence == retry_payloads(reqs, now, cfg)[j].from_sequence
                && reqs[i].to_sequence == retry_payloads(reqs, now, cfg)[j].to_sequence,
    decreases reqs.len(),
{
    let prev = retry_payloads(reqs.drop_last(), now, cfg);
    if j < prev.len() {
        lemma_retry_repeats_request(reqs.drop_last(), now, cfg, j);
        let i = choose|i: int|
            0 <= i < reqs.drop_last().len() && request_due(reqs.drop_last()[i], now, cfg)
                && reqs.drop_last()[i].retries_attempted < cfg.max_retries
                && #[trigger] reqs.drop_last()[i].request_id == prev[j].request_id
                && reqs.drop_last()[i].from_sequence == prev[j].from_sequence
                && reqs.drop_last()[i].to_sequence == prev[j].to_sequence;
        assert(reqs[i] == reqs.drop_last()[i]);
    } else {
        assert(reqs[reqs.len() - 1].request_id == retry_payloads(reqs, now, cfg)[j].request_id);
    }
}

/// A request is never retried more than `max_retries` times.
pub proof fn lemma_retries_bounded(r: RequestModel, now: Instant, cfg: RecoveryConfig)
    requires
        r.retries_attempted <= cfg.max_retries,
    ensures
        after_timer_check(r, now, cfg).retries_attempted <= cfg.max_retries,
{
}

/// A duplicate replay response changes nothing more: recording the same
/// arrival twice is recording it once.
pub proof fn lemma_record_arrival_idempotent(r: RequestModel, seq: u64)
    ensures
        record_arrival(record_arrival(r, seq), seq) == record_arrival(r, seq),
{
    let r1 = record_arrival(r, seq);
    if r.from_sequence <= seq <= r.to_sequence && !r.received_sequences.contains(seq) {
        assert(r1.received_sequences[r.received_sequences.len() as int] == seq);
    }
}

/// The number of outstanding requests never exceeds
/// `max_outstanding_requests` through request creation.
pub proof fn lemma_outstanding_bounded(m: EngineModel, from: u64, to: u64, now: Instant)
    requires
        m.outstanding.len() <= m.config.max_outstanding_requests,
    ensures
        create_request_step(m, from, to, now).0.outstanding.len()
            <= m.config.max_outstanding_requests,
{
}

/// The oldest exhausted request is one of the requests.
proof fn lemma_first_exhausted_in_range(reqs: Seq<RequestModel>, now: Instant, cfg: RecoveryConfig)
    ensures
        first_exhausted(reqs, now, cfg) matches Some(f) ==> 0 <= f < reqs.len(),
    decreases reqs.len(),
{
    if reqs.len() > 0 {
        lemma_first_exhausted_in_range(reqs.drop_last(), now, cfg);
    }
}

/// Extending a prefix keeps an exhausted request already found.
proof fn lemma_first_exhausted_extend(reqs: Seq<RequestModel>, n: int, now: Instant, cfg: RecoveryConfig)
    requires
        0 < n <= reqs.len(),
        first_exhausted(reqs.take(n), now, cfg) is Some,
    ensures
        first_exhausted(reqs, now, cfg) == first_exhausted(reqs.take(n), now, cfg),
    decreases reqs.len() - n,
{
    if n == reqs.len() {
        assert(reqs.take(n) =~= reqs);
    } else {
        assert(reqs.take(n + 1).drop_last() =~= reqs.take(n));
        lemma_first_exhausted_extend(reqs, n + 1, now, cfg);
    }
}

/// Removing a request keeps ids increasing and below the next id.
proof fn lemma_remove_preserves_order(reqs: Seq<ActiveReplayRequest>, i: int, next: u64)
    requires
        0 <= i < reqs.len(),
        forall|a: int, b: int|
            0 <= a < b < reqs.len() ==> #[trigger] reqs[a].request_id < #[trigger] reqs[b].request_id,
        forall|a: int| 0 <= a < reqs.len() ==> #[trigger] reqs[a].request_id < next,
    ensures
        ({
            let r2 = reqs.remove(i);
            &&& forall|a: int, b: int|
                0 <= a < b < r2.len() ==> #[trigger] r2[a].request_id < #[trigger] r2[b].request_id
            &&& forall|a: int| 0 <= a < r2.len() ==> #[trigger] r2[a].request_id < next
        }),
{
    let r2 = reqs.remove(i);
    assert forall|a: int, b: int| 0 <= a < b < r2.len() implies #[trigger] r2[a].request_id
        < #[trigger] r2[b].request_id by {
        let aa = if a < i { a } else { a + 1 };
        let bb = if b < i { b } else { b + 1 };
        assert(r2[a] == reqs[aa]);
        assert(r2[b] == reqs[bb]);
    }
    assert forall|a: int| 0 <= a < r2.len() implies #[trigger] r2[a].request_id < next by {
        let aa = if a < i { a } else { a + 1 };
        assert(r2[a] == reqs[aa]);
    }
}

/// A request found in a prefix is the one found in the whole sequence.
proof fn lemma_find_request_prefix(reqs: Seq<RequestModel>, n: int, id: u64)
    requires
        0 < n <= reqs.len(),
        find_request(reqs.take(n - 1), id) is None,
        reqs[n - 1].request_id == id,
    ensures
        find_request(reqs, id) == Some(n - 1),
    decreases reqs.len() - n,
{
    assert(reqs.take(n).drop_last() =~= reqs.take(n - 1));
    if n == reqs.len() {
        assert(reqs.take(n) =~= reqs);
    } else {
        lemma_find_request_extend(reqs, n, id);
    }
}

/// Extending a prefix keeps an index already found.
proof fn lemma_find_request_extend(reqs: Seq<RequestModel>, n: int, id: u64)
    requires
        0 < n <= reqs.len(),
        find_request(reqs.take(n), id) is Some,
    ensures
        find_request(reqs, id) == find_request(reqs.take(n), id),
    decreases reqs.len() - n,
{
    if n == reqs.len() {
        assert(reqs.take(n) =~= reqs);
    } else {
        assert(reqs.take(n + 1).drop_last() =~= reqs.take(n));
        lemma_find_request_extend(reqs, n + 1, id);
    }
}

/// `find_request` finds a request with the id, and finds none only when
/// no request has it.
proof fn lemma_find_request_meaning(reqs: Seq<RequestModel>, id: u64)
    ensures
        match find_request(reqs, id) {
            Some(i) => 0 <= i < reqs.len() && reqs[i].request_id == id,
            None => forall|j: int| 0 <= j < reqs.len() ==> #[trigger] reqs[j].request_id != id,
        },
    decreases reqs.len(),
{
    if reqs.len() > 0 {
        lemma_find_request_meaning(reqs.drop_last(), id);
        if find_request(reqs.drop_last(), id) is None {
            assert forall|j: int| 0 <= j < reqs.len() - 1 implies #[trigger] reqs[j].request_id
                != id by {
                assert(reqs.drop_last()[j] == reqs[j]);
            }
        }
    }
}

/// Ids are unique while they increase: once the request found for `id` is
/// removed, no request with that id remains.
pub proof fn lemma_removed_request_gone(reqs: Seq<RequestModel>, id: u64)
    requires
        ids_increasing(reqs),
        find_request(reqs, id) is Some,
    ensures
        find_request(reqs.remove(find_request(reqs, id)->Some_0), id) is None,
{
    lemma_find_request_meaning(reqs, id);
    let i = find_request(reqs, id)->Some_0;
    let rest = reqs.remove(i);
    lemma_find_request_meaning(rest, id);
    if find_request(rest, id) is Some {
        let k = find_request(rest, id)->Some_0;
        if k < i {
            assert(rest[k] == reqs[k]);
            assert(reqs[k].request_id < reqs[i].request_id);
        } else {
            assert(rest[k] == reqs[k + 1]);
            assert(reqs[i].request_id < reqs[k + 1].request_id);
        }
    }
}

/// Duplicate replay responses are harmless: once a response completes a
/// request, another response under the same id changes nothing and hands
/// out nothing.
pub proof fn lemma_completed_request_ignores_duplicates(
    m: EngineModel,
    request_id: u64,
    first: FrameModel,
    m2: EngineModel,
    out: Option<Seq<FrameModel>>,
    again: FrameModel,
    m3: EngineModel,
    out2: Option<Seq<FrameModel>>,
)
    requires
        ids_increasing(m.outstanding),
        replay_response_outcome(m, request_id, first, m2, out),
        out is Some,
        replay_response_outcome(m2, request_id, again, m3, out2),
    ensures
        m3 == m2,
        out2 is None,
{
    lemma_removed_request_gone(m.outstanding, request_id);
}


/// The request id a creation hands out: that of the request it returns.
pub open spec fn issued_id(r: Result<ReplayRequestPayload, RtdpError>) -> Option<u64> {
    match r {
        Ok(p) => Some(p.request_id),
        Err(_) => None,
    }
}

/// One operation of a recovery engine takes `m` to `m2`, handing out the
/// request id `issued` when it creates a replay request: creating a request
/// (for any range that cannot overflow, at any time), a replayed frame for
/// any request id, a REPLAY_UNAVAILABLE for any request id, a timer check
/// at any time, a change of the buffered frames alone (buffering, draining,
/// taking a run), or a reset.
pub open spec fn engine_moves(m: EngineModel, m2: EngineModel, issued: Option<u64>) -> bool {
    ||| exists|from: u64, to: u64, now: Instant|
        {
            &&& create_request_allowed(m, from, to)
            &&& #[trigger] create_request_step(m, from, to, now).0 == m2
            &&& issued == match create_request_step(m, from, to, now).1 {
                Ok(p) => Some(p.request_id),
                Err(_) => None::<u64>,
            }
        }
    ||| issued is None && exists|id: u64, f: FrameModel, out: Option<Seq<FrameModel>>|
        #[trigger] replay_response_outcome(m, id, f, m2, out)
    ||| issued is None && exists|id: u64|
        m2 == (EngineModel {
            outstanding: match #[trigger] find_request(m.outstanding, id) {
                Some(i) => m.outstanding.remove(i),
                None => m.outstanding,
            },
            state: RecoveryState::RecoveryFailed,
            ..m
        })
    ||| issued is None && exists|now: Instant| m2 == #[trigger] timer_step(m, now).0
    ||| issued is None && m2 == (EngineModel { buffered: m2.buffered, ..m })
    ||| issued is None && m2 == (EngineModel {
        state: RecoveryState::Live,
        outstanding: Seq::empty(),
        buffered: Map::empty(),
        ..m
    })
}

/// The ids handed out along a run of engine operations, in order.
pub open spec fn issued_ids(issued: Seq<Option<u64>>) -> Seq<u64>
    decreases issued.len(),
{
    if issued.len() == 0 {
        Seq::empty()
    } else {
        match issued.last() {
            Some(id) => issued_ids(issued.drop_last()).push(id),
            None => issued_ids(issued.drop_last()),
        }
    }
}

/// No outstanding replay request has its whole range arrived: a request is
/// retired as soon as its range is complete.
pub open spec fn requests_pending(m: EngineModel) -> bool {
    forall|i: int| 0 <= i < m.outstanding.len() ==> !all_arrived(#[trigger] m.outstanding[i])
}

/// One engine operation hands out the next request id and advances it by
/// one, or hands out none and leaves it as it is.
proof fn lemma_engine_move_ids(m: EngineModel, m2: EngineModel, issued: Option<u64>)
    requires
        engine_moves(m, m2, issued),
    ensures
        match issued {
            Some(id) => id == m.next_request_id && m2.next_request_id == m.next_request_id + 1
                && m2.state == RecoveryState::Recovering,
            None => m2.next_request_id == m.next_request_id,
        },
{
    if exists|id: u64, f: FrameModel, out: Option<Seq<FrameModel>>|
        #[trigger] replay_response_outcome(m, id, f, m2, out) {
        let (id, f, out) = choose|id: u64, f: FrameModel, out: Option<Seq<FrameModel>>|
            #[trigger] replay_response_outcome(m, id, f, m2, out);
        assert(m2.next_request_id == m.next_request_id);
    }
}

/// Replay request ids are handed out in order and never reused: along any
/// run of engine operations `ms[0] -> ms[1] -> ...` that starts where a new
/// engine does (next id 1), failed creations and resets included, the
/// requests created get the ids 1, 2, 3, ... in that order, each creation
/// leaves the engine recovering, and the next id is one past the last.
/// Every method of `RecoveryEngine` that changes it ensures `engine_moves`,
/// so any run of its calls is such a run.
pub proof fn lemma_request_ids_in_order(ms: Seq<EngineModel>, issued: Seq<Option<u64>>)
    requires
        ms.len() == issued.len() + 1,
        ms[0].next_request_id == 1,
        forall|i: int| 0 <= i < issued.len() ==> #[trigger] engine_moves(ms[i], ms[i + 1], issued[i]),
    ensures
        forall|i: int| 0 <= i < issued_ids(issued).len() ==> #[trigger] issued_ids(issued)[i] == i + 1,
        ms.last().next_request_id == issued_ids(issued).len() + 1,
        forall|i: int|
            0 <= i < issued.len() && #[trigger] issued[i] is Some ==> ms[i + 1].state
                == RecoveryState::Recovering,
    decreases issued.len(),
{
    if issued.len() > 0 {
        let k = issued.len() - 1;
        let ms1 = ms.drop_last();
        let is1 = issued.drop_last();
        assert forall|i: int| 0 <= i < is1.len() implies #[trigger] engine_moves(
            ms1[i],
            ms1[i + 1],
            is1[i],
        ) by {
            assert(engine_moves(ms[i], ms[i + 1], issued[i]));
        }
        lemma_request_ids_in_order(ms1, is1);
        assert(engine_moves(ms[k], ms[k + 1], issued[k]));
        lemma_engine_move_ids(ms[k], ms[k + 1], issued[k]);
        assert(ms1.last() == ms[k]);
        assert(issued.last() == issued[k]);
        assert forall|i: int| 0 <= i < issued.len() && #[trigger] issued[i] is Some implies ms[i
            + 1].state == RecoveryState::Recovering by {
            if i < k {
                assert(issued[i] == is1[i]);
                assert(ms[i + 1] == ms1[i + 1]);
            }
        }
    }
}

/// Every engine operation keeps the outstanding requests pending: a new
/// request's range is never empty, and a request is retired once complete.
pub proof fn lemma_engine_moves_keep_pending(m: EngineModel, m2: EngineModel, issued: Option<u64>)
    requires
        requests_pending(m),
        engine_moves(m, m2, issued),
    ensures
        requests_pending(m2),
{
    if exists|from: u64, to: u64, now: Instant|
        {
            &&& create_request_allowed(m, from, to)
            &&& #[trigger] create_request_step(m, from, to, now).0 == m2
            &&& issued == match create_request_step(m, from, to, now).1 {
                Ok(p) => Some(p.request_id),
                Err(_) => None::<u64>,
            }
        } {
        let (from, to, now) = choose|from: u64, to: u64, now: Instant|
            {
                &&& create_request_allowed(m, from, to)
                &&& #[trigger] create_request_step(m, from, to, now).0 == m2
                &&& issued == match create_request_step(m, from, to, now).1 {
                    Ok(p) => Some(p.request_id),
                    Err(_) => None::<u64>,
                }
            };
        if create_request_step(m, from, to, now).1 is Ok {
            assert forall|i: int| 0 <= i < m2.outstanding.len() implies !all_arrived(
                #[trigger] m2.outstanding[i],
            ) by {
                if i < m.outstanding.len() {
                    assert(m2.outstanding[i] == m.outstanding[i]);
                } else {
                    assert(!m2.outstanding[i].received_sequences.contains(from));
                }
            }
        }
    } else if exists|id: u64, f: FrameModel, out: Option<Seq<FrameModel>>|
        #[trigger] replay_response_outcome(m, id, f, m2, out) {
        let (id, f, out) = choose|id: u64, f: FrameModel, out: Option<Seq<FrameModel>>|
            #[trigger] replay_response_outcome(m, id, f, m2, out);
        lemma_find_request_meaning(m.outstanding, id);
        if let Some(i) = find_request(m.outstanding, id) {
            let req = record_arrival(m.outstanding[i], f.header.sequence);
            assert forall|j: int| 0 <= j < m2.outstanding.len() implies !all_arrived(
                #[trigger] m2.outstanding[j],
            ) by {
                if all_arrived(req) {
                    if j < i {
                        assert(m2.outstanding[j] == m.outstanding[j]);
                    } else {
                        assert(m2.outstanding[j] == m.outstanding[j + 1]);
                    }
                } else if j != i {
                    assert(m2.outstanding[j] == m.outstanding[j]);
                }
            }
        }
    } else if exists|id: u64|
        m2 == (EngineModel {
            outstanding: match #[trigger] find_request(m.outstanding, id) {
                Some(i) => m.outstanding.remove(i),
                None => m.outstanding,
            },
            state: RecoveryState::RecoveryFailed,
            ..m
        }) {
        let id = choose|id: u64|
            m2 == (EngineModel {
                outstanding: match #[trigger] find_request(m.outstanding, id) {
                    Some(i) => m.outstanding.remove(i),
                    None => m.outstanding,
                },
                state: RecoveryState::RecoveryFailed,
                ..m
            });
        lemma_find_request_meaning(m.outstanding, id);
        if let Some(i) = find_request(m.outstanding, id) {
            assert forall|j: int| 0 <= j < m2.outstanding.len() implies !all_arrived(
                #[trigger] m2.outstanding[j],
            ) by {
                if j < i {
                    assert(m2.outstanding[j] == m.outstanding[j]);
                } else {
                    assert(m2.outstanding[j] == m.outstanding[j + 1]);
                }
            }
        }
    } else if exists|now: Instant| m2 == #[trigger] timer_step(m, now).0 {
        let now = choose|now: Instant| m2 == #[trigger] timer_step(m, now).0;
        lemma_first_exhausted_in_range(m.outstanding, now, m.config);
        if let Some(f) = first_exhausted(m.outstanding, now, m.config) {
            assert forall|j: int| 0 <= j < m2.outstanding.len() implies !all_arrived(
                #[trigger] m2.outstanding[j],
            ) by {
                if j < f {
                    assert(m2.outstanding[j] == m.outstanding[j]);
                } else {
                    assert(m2.outstanding[j] == m.outstanding[j + 1]);
                }
            }
        } else {
            assert forall|j: int| 0 <= j < m2.outstanding.len() implies !all_arrived(
                #[trigger] m2.outstanding[j],
            ) by {
                assert(!all_arrived(m.outstanding[j]));
                let s = choose|s: u64| m.outstanding[j].from_sequence <= s <= m.outstanding[j].to_sequence
                    && !#[trigger] m.outstanding[j].received_sequences.contains(s);
                assert(!m2.outstanding[j].received_sequences.contains(s));
            }
        }
    }
}

/// A duplicated REPLAY_RESPONSE is absorbed: a replayed frame for a request
/// that is not outstanding (never issued, completed or failed), or for an
/// outstanding one that has recorded its sequence already and buffers that
/// very frame, changes nothing and hands nothing out.
pub proof fn lemma_duplicate_response_absorbed(
    m: EngineModel,
    request_id: u64,
    f: FrameModel,
    m2: EngineModel,
    out: Option<Seq<FrameModel>>,
)
    requires
        requests_pending(m),
        replay_response_outcome(m, request_id, f, m2, out),
        find_request(m.outstanding, request_id) matches Some(i) ==> {
            &&& m.outstanding[i].received_sequences.contains(f.header.sequence)
            &&& m.buffered.contains_key(f.header.sequence)
            &&& m.buffered[f.header.sequence] == f
        },
    ensures
        out is None,
        m2 == m,
{
    lemma_find_request_meaning(m.outstanding, request_id);
    if let Some(i) = find_request(m.outstanding, request_id) {
        assert(record_arrival(m.outstanding[i], f.header.sequence) == m.outstanding[i]);
        assert(!all_arrived(m.outstanding[i]));
        assert(m.outstanding.update(i, m.outstanding[i]) =~= m.outstanding);
        assert(m.buffered.insert(f.header.sequence, f) =~= m.buffered);
    }
}


/// A replay request is retired only when its whole range has arrived: a
/// replayed frame for an outstanding request hands frames out exactly when
/// every sequence from the request's `from_sequence` to its `to_sequence`
/// is either the frame's own sequence or one recorded as received before,
/// and the request is then gone. Otherwise the request stays where it was,
/// having recorded the frame's sequence if it lies in the range, and
/// nothing else.
pub proof fn lemma_retired_only_when_complete(
    m: EngineModel,
    request_id: u64,
    f: FrameModel,
    m2: EngineModel,
    out: Option<Seq<FrameModel>>,
)
    requires
        ids_increasing(m.outstanding),
        find_request(m.outstanding, request_id) is Some,
        replay_response_outcome(m, request_id, f, m2, out),
    ensures
        ({
            let i = find_request(m.outstanding, request_id)->Some_0;
            let r = m.outstanding[i];
            let s0 = f.header.sequence;
            &&& out is Some <==> forall|s: u64|
                r.from_sequence <= s <= r.to_sequence ==> s == s0
                    || r.received_sequences.contains(s)
            &&& out is Some ==> find_request(m2.outstanding, request_id) is None
            &&& out is None ==> {
                &&& m2.outstanding.len() == m.outstanding.len()
                &&& m2.outstanding[i].request_id == request_id
                &&& m2.outstanding[i].from_sequence == r.from_sequence
                &&& m2.outstanding[i].to_sequence == r.to_sequence
                &&& forall|s: u64|
                    #[trigger] m2.outstanding[i].received_sequences.contains(s) <==> (
                    r.received_sequences.contains(s) || (s == s0 && r.from_sequence <= s0
                        <= r.to_sequence))
            }
        }),
{
    lemma_find_request_meaning(m.outstanding, request_id);
    let i = find_request(m.outstanding, request_id)->Some_0;
    let r = m.outstanding[i];
    let s0 = f.header.sequence;
    let req = record_arrival(r, s0);
    assert forall|s: u64| #[trigger] req.received_sequences.contains(s) <==> (
    r.received_sequences.contains(s) || (s == s0 && r.from_sequence <= s0 <= r.to_sequence)) by {
        if r.from_sequence <= s0 <= r.to_sequence && !r.received_sequences.contains(s0) {
            assert(req.received_sequences == r.received_sequences.push(s0));
            if req.received_sequences.contains(s) && s != s0 {
                let k = choose|k: int|
                    0 <= k < req.received_sequences.len() && req.received_sequences[k] == s;
                assert(r.received_sequences[k] == s);
            }
            if r.received_sequences.contains(s) {
                let k = choose|k: int|
                    0 <= k < r.received_sequences.len() && r.received_sequences[k] == s;
                assert(req.received_sequences[k] == s);
            }
            if s == s0 {
                assert(req.received_sequences[r.received_sequences.len() as int] == s0);
            }
        }
    }
    if all_arrived(req) {
        lemma_removed_request_gone(m.outstanding, request_id);
        assert forall|s: u64| r.from_sequence <= s <= r.to_sequence implies s == s0
            || r.received_sequences.contains(s) by {
            assert(req.received_sequences.contains(s));
        }
    } else {
        let s = choose|s: u64| req.from_sequence <= s <= req.to_sequence
            && !#[trigger] req.received_sequences.contains(s);
        assert(!(s == s0 || r.received_sequences.contains(s)));
    }
}

/// `p` re-sends a request of `reqs` (its id and range) whose retry count
/// is higher in `after`, the same requests after a timer check.
pub open spec fn resent_for_retry(
    reqs: Seq<RequestModel>,
    after: Seq<RequestModel>,
    p: ReplayRequestPayload,
) -> bool {
    exists|i: int|
        0 <= i < reqs.len() && after[i].retries_attempted > reqs[i].retries_attempted && p == (
        ReplayRequestPayload {
            request_id: reqs[i].request_id,
            from_sequence: reqs[i].from_sequence,
            to_sequence: reqs[i].to_sequence,
        })
}

/// A timer check re-sends every request it counts a retry for. When no
/// request is exhausted, each request keeps its place, its id and its
/// range; the requests whose retry count goes up are exactly the due ones
/// with retries left, each by one and sent again now; and the re-sends are
/// exactly the id and range of those requests, oldest first, each once.
pub proof fn lemma_timer_resends_every_retried(m: EngineModel, now: Instant)
    requires
        ids_increasing(m.outstanding),
    ensures
        ({
            let (m2, res) = timer_step(m, now);
            let reqs = m.outstanding;
            let cfg = m.config;
            res matches Ok(ps) ==> {
                &&& m2.outstanding.len() == reqs.len()
                &&& forall|i: int|
                    0 <= i < reqs.len() ==> {
                        &&& (#[trigger] m2.outstanding[i]).request_id == reqs[i].request_id
                        &&& m2.outstanding[i].from_sequence == reqs[i].from_sequence
                        &&& m2.outstanding[i].to_sequence == reqs[i].to_sequence
                        &&& (m2.outstanding[i].retries_attempted > reqs[i].retries_attempted
                            <==> request_due(reqs[i], now, cfg) && reqs[i].retries_attempted
                            < cfg.max_retries)
                        &&& m2.outstanding[i].retries_attempted > reqs[i].retries_attempted ==> {
                            &&& m2.outstanding[i].retries_attempted == reqs[i].retries_attempted
                                + 1
                            &&& m2.outstanding[i].last_sent_at == now
                            &&& ps.contains(
                                ReplayRequestPayload {
                                    request_id: reqs[i].request_id,
                                    from_sequence: reqs[i].from_sequence,
                                    to_sequence: reqs[i].to_sequence,
                                },
                            )
                        }
                    }
                &&& forall|k: int| 0 <= k < ps.len() ==> #[trigger] resent_for_retry(reqs, m2.outstanding, ps[k])
                &&& forall|a: int, b: int|
                    0 <= a < b < ps.len() ==> (#[trigger] ps[a]).request_id
                        < (#[trigger] ps[b]).request_id
            }
        }),
{
    let (m2, res) = timer_step(m, now);
    let reqs = m.outstanding;
    let cfg = m.config;
    if first_exhausted(reqs, now, cfg) is None {
        lemma_retry_payloads_meaning(reqs, now, cfg);
        let ps = retry_payloads(reqs, now, cfg);
        assert(m2.outstanding == reqs.map_values(
            |r: RequestModel| after_timer_check(r, now, cfg),
        ));
        assert forall|i: int| 0 <= i < reqs.len() implies (#[trigger] m2.outstanding[i])
            == after_timer_check(reqs[i], now, cfg) by {}
        assert forall|k: int| 0 <= k < ps.len() implies #[trigger] resent_for_retry(reqs, m2.outstanding, ps[k]) by {
            let i = choose|i: int|
                0 <= i < reqs.len() && request_due(reqs[i], now, cfg) && reqs[i].retries_attempted
                    < cfg.max_retries && #[trigger] ps[k] == (ReplayRequestPayload {
                    request_id: reqs[i].request_id,
                    from_sequence: reqs[i].from_sequence,
                    to_sequence: reqs[i].to_sequence,
                });
            assert(m2.outstanding[i] == after_timer_check(reqs[i], now, cfg));
            assert(m2.outstanding[i].retries_attempted > reqs[i].retries_attempted);
            assert(reqs[i] == reqs[i]);
        }
        assert(res == Ok::<Seq<ReplayRequestPayload>, (u64, u64)>(ps));
        assert forall|i: int| 0 <= i < reqs.len() && m2.outstanding[i].retries_attempted
            > reqs[i].retries_attempted implies ps.contains(
            ReplayRequestPayload {
                request_id: reqs[i].request_id,
                from_sequence: reqs[i].from_sequence,
                to_sequence: reqs[i].to_sequence,
            },
        ) by {
            assert(m2.outstanding[i] == after_timer_check(reqs[i], now, cfg));
            assert(request_due(reqs[i], now, cfg));
        }
    }
}

/// The re-sends a timer check makes are exactly the id and range of the due
/// requests with retries left, in the requests' order, each once.
proof fn lemma_retry_payloads_meaning(reqs: Seq<RequestModel>, now: Instant, cfg: RecoveryConfig)
    requires
        ids_increasing(reqs),
    ensures
        ({
            let ps = retry_payloads(reqs, now, cfg);
            &&& forall|i: int|
                0 <= i < reqs.len() && request_due(#[trigger] reqs[i], now, cfg)
                    && reqs[i].retries_attempted < cfg.max_retries ==> ps.contains(
                    ReplayRequestPayload {
                        request_id: reqs[i].request_id,
                        from_sequence: reqs[i].from_sequence,
                        to_sequence: reqs[i].to_sequence,
                    },
                )
            &&& forall|k: int|
                0 <= k < ps.len() ==> exists|i: int|
                    0 <= i < reqs.len() && request_due(reqs[i], now, cfg)
                        && reqs[i].retries_attempted < cfg.max_retries && #[trigger] ps[k] == (
                    ReplayRequestPayload {
                        request_id: reqs[i].request_id,
                        from_sequence: reqs[i].from_sequence,
                        to_sequence: reqs[i].to_sequence,
                    })
            &&& forall|a: int, b: int|
                0 <= a < b < ps.len() ==> (#[trigger] ps[a]).request_id
                    < (#[trigger] ps[b]).request_id
            &&& forall|k: int|
                0 <= k < ps.len() ==> (reqs.len() > 0 ==> (#[trigger] ps[k]).request_id
                    <= reqs.last().request_id)
        }),
    decreases reqs.len(),
{
    if reqs.len() > 0 {
        let pre = reqs.drop_last();
        assert(ids_increasing(pre)) by {
            assert forall|i: int, j: int| 0 <= i < j < pre.len() implies #[trigger] pre[i].request_id
                < #[trigger] pre[j].request_id by {
                assert(pre[i] == reqs[i] && pre[j] == reqs[j]);
            }
        }
        lemma_retry_payloads_meaning(pre, now, cfg);
        let prev = retry_payloads(pre, now, cfg);
        let ps = retry_payloads(reqs, now, cfg);
        let r = reqs.last();
        let n = reqs.len();
        if pre.len() > 0 {
            assert(pre.last() == reqs[n - 2]);
            assert(reqs[n - 2].request_id < reqs[n - 1].request_id);
        }
        let pr = ReplayRequestPayload {
            request_id: r.request_id,
            from_sequence: r.from_sequence,
            to_sequence: r.to_sequence,
        };
        assert forall|i: int|
            0 <= i < reqs.len() && request_due(#[trigger] reqs[i], now, cfg)
                && reqs[i].retries_attempted < cfg.max_retries implies ps.contains(
            ReplayRequestPayload {
                request_id: reqs[i].request_id,
                from_sequence: reqs[i].from_sequence,
                to_sequence: reqs[i].to_sequence,
            },
        ) by {
            if i < n - 1 {
                assert(pre[i] == reqs[i]);
                let q = ReplayRequestPayload {
                    request_id: reqs[i].request_id,
                    from_sequence: reqs[i].from_sequence,
                    to_sequence: reqs[i].to_sequence,
                };
                assert(prev.contains(q));
                let k = choose|k: int| 0 <= k < prev.len() && prev[k] == q;
                assert(ps[k] == q);
            } else {
                assert(ps[ps.len() - 1] == pr);
            }
        }
        assert forall|k: int| 0 <= k < ps.len() implies exists|i: int|
            0 <= i < reqs.len() && request_due(reqs[i], now, cfg) && reqs[i].retries_attempted
                < cfg.max_retries && #[trigger] ps[k] == (ReplayRequestPayload {
                request_id: reqs[i].request_id,
                from_sequence: reqs[i].from_sequence,
                to_sequence: reqs[i].to_sequence,
            }) by {
            if k < prev.len() {
                assert(ps[k] == prev[k]);
                let i = choose|i: int|
                    0 <= i < pre.len() && request_due(pre[i], now, cfg) && pre[i].retries_attempted
                        < cfg.max_retries && #[trigger] prev[k] == (ReplayRequestPayload {
                        request_id: pre[i].request_id,
                        from_sequence: pre[i].from_sequence,
                        to_sequence: pre[i].to_sequence,
                    });
                assert(pre[i] == reqs[i]);
            } else {
                assert(ps[k] == pr);
                assert(reqs[n - 1] == r);
            }
        }
        assert forall|a: int, b: int| 0 <= a < b < ps.len() implies (#[trigger] ps[a]).request_id
            < (#[trigger] ps[b]).request_id by {
            if b < prev.len() {
                assert(ps[a] == prev[a] && ps[b] == prev[b]);
            } else {
                assert(ps[a] == prev[a]);
                assert(ps[b] == pr);
            }
        }
        assert forall|k: int| 0 <= k < ps.len() && reqs.len() > 0 implies (#[trigger] ps[k]).request_id
            <= reqs.last().request_id by {
            if k < prev.len() {
                assert(ps[k] == prev[k]);
            }
        }
    }
}

} // verus!
