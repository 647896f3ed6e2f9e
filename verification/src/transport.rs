//! The decisions of the UDP transport, apart from its sockets and threads:
//! how a publisher numbers, retains and encodes what it sends, how it
//! answers a replay request from its retention ring, and what a subscriber
//! does with each decoded datagram.

use std::time::Instant;
use vstd::prelude::*;
use vstd::slice::{slice_subrange, slice_to_vec};

use crate::buffers::{
    lemma_push_then_get, lemma_ring_keeps_newest, ring_lookup, ring_push, ring_push_all,
    BoundedRingBuffer, RingModel,
};
use crate::clock::instant_now;
use crate::delivery::{
    delivered_models, fresh_receiver, lemma_fresh_receiver_ordered, lemma_rebuffer, lemma_release_continues,
    lemma_reliable_ordered_receive_continues, max_seq, ordered_inv, rebuffer_from,
    receive_allowed, receive_step, release_step, step_delivered, DeliveryMode, ReceiverModel, StreamReceiver,
};
use crate::error::{fails_with, RtdpError};
use crate::protocol::frame::{data_header, FrameModel, FrameView, OwnedFrame};
use crate::protocol::header::{
    FixedHeader, FrameFlags, MessageType, FIXED_HEADER_SIZE, MAGIC_RTDP, RTDP_VERSION_1,
};
use crate::recovery::{
    contiguous_run, find_request, frame_models, ids_increasing, is_least_key, keyed_by_sequence,
    lemma_removed_request_gone,
    replay_response_outcome, spec_replay_request_decode, spec_replay_unavailable_decode, u64_triple_bytes, EngineModel,
    RecoveryConfig, RecoveryState, ReplayRequestPayload, ReplayUnavailablePayload,
};
use crate::sequence::dedup::DuplicateKey;
use crate::checksum::crc32c_of;
use crate::serialization::{
    encode_fault, frame_body, frame_wire_bytes, lemma_allowed_frames_decode, spec_frame_decode,
    with_zeroed_checksum, FrameCodec,
};
use crate::wire::{
    be32_bytes, be64, be64_bytes, lemma_be64_roundtrip, read_u64_at, splice, write_u64_at,
};

verus! {

/// Size of the buffer each replay answer is encoded into.
pub const REPLAY_SEND_BUFFER_SIZE: usize = 1500;

/// The header of a frame the transport builds itself: fixed-header length,
/// no flags, zero checksum.
pub open spec fn transport_header(
    message_type: MessageType,
    stream_id: u64,
    sequence: u64,
    timestamp_ns: u64,
    publisher_id: u64,
    payload_length: u32,
) -> FixedHeader {
    FixedHeader {
        magic: MAGIC_RTDP,
        version: RTDP_VERSION_1,
        flags: FrameFlags(0),
        message_type,
        header_length: 48,
        stream_id,
        sequence,
        timestamp_ns,
        publisher_id,
        payload_length,
        checksum: 0,
    }
}

/// The REPLAY_RESPONSE carrying `orig` back for request `request_id`: the
/// original's stream, sequence, timestamp and publisher, no extensions, and
/// a payload of the request id (8 bytes, big-endian) followed by the
/// original payload.
pub open spec fn replay_response_model(orig: FrameModel, request_id: u64) -> FrameModel {
    let payload = be64_bytes(request_id) + orig.payload;
    FrameModel {
        header: transport_header(
            MessageType::ReplayResponse,
            orig.header.stream_id,
            orig.header.sequence,
            orig.header.timestamp_ns,
            orig.header.publisher_id,
            payload.len() as u32,
        ),
        extension_bytes: Seq::empty(),
        payload,
    }
}

/// The REPLAY_UNAVAILABLE a publisher sends on `stream_id`: sequence and
/// timestamp zero, and the 24-byte payload of `p`.
pub open spec fn replay_unavailable_model(
    stream_id: u64,
    publisher_id: u64,
    p: ReplayUnavailablePayload,
) -> FrameModel {
    FrameModel {
        header: transport_header(MessageType::ReplayUnavailable, stream_id, 0, 0, publisher_id, 24),
        extension_bytes: Seq::empty(),
        payload: u64_triple_bytes(p.request_id, p.first_unavailable, p.last_unavailable),
    }
}

/// The REPLAY_REQUEST a subscriber sends on `stream_id`: sequence,
/// timestamp and publisher zero, and the 24-byte payload of `p`.
pub open spec fn replay_request_model(stream_id: u64, p: ReplayRequestPayload) -> FrameModel {
    FrameModel {
        header: transport_header(MessageType::ReplayRequest, stream_id, 0, 0, 0, 24),
        extension_bytes: Seq::empty(),
        payload: u64_triple_bytes(p.request_id, p.from_sequence, p.to_sequence),
    }
}

/// The REPLAY_RESPONSE for `original` answering request `request_id`.
pub fn replay_response_frame(original: &OwnedFrame, request_id: u64) -> (r: OwnedFrame)
    ensures
        r.model() == replay_response_model(original.model(), request_id),
{
    let mut payload: Vec<u8> = vec![0u8; 8];
    write_u64_at(payload.as_mut_slice(), 0, request_id);
    assert(payload@ =~= be64_bytes(request_id));
    payload.extend_from_slice(original.payload.as_slice());
    assert(payload@ =~= be64_bytes(request_id) + original.payload@);
    let header = FixedHeader {
        magic: MAGIC_RTDP,
        version: RTDP_VERSION_1,
        flags: FrameFlags(0),
        message_type: MessageType::ReplayResponse,
        header_length: FIXED_HEADER_SIZE as u16,
        stream_id: original.header.stream_id,
        sequence: original.header.sequence,
        timestamp_ns: original.header.timestamp_ns,
        publisher_id: original.header.publisher_id,
        payload_length: payload.len() as u32,
        checksum: 0,
    };
    let r = OwnedFrame { header, extension_bytes: Vec::new(), payload };
    assert(r.model().extension_bytes =~= Seq::<u8>::empty());
    r
}

/// The 24 payload bytes of three big-endian `u64`s.
fn triple_payload(a: u64, b: u64, c: u64) -> (r: Vec<u8>)
    ensures
        r@ == u64_triple_bytes(a, b, c),
{
    let mut payload: Vec<u8> = vec![0u8; 24];
    write_u64_at(payload.as_mut_slice(), 0, a);
    write_u64_at(payload.as_mut_slice(), 8, b);
    write_u64_at(payload.as_mut_slice(), 16, c);
    assert(payload@ =~= u64_triple_bytes(a, b, c));
    payload
}

/// The REPLAY_UNAVAILABLE a publisher sends for `p` on `stream_id`.
pub fn replay_unavailable_frame(stream_id: u64, publisher_id: u64, p: ReplayUnavailablePayload) -> (r:
    OwnedFrame)
    ensures
        r.model() == replay_unavailable_model(stream_id, publisher_id, p),
{
    let payload = triple_payload(p.request_id, p.first_unavailable, p.last_unavailable);
    let header = FixedHeader {
        magic: MAGIC_RTDP,
        version: RTDP_VERSION_1,
        flags: FrameFlags(0),
        message_type: MessageType::ReplayUnavailable,
        header_length: FIXED_HEADER_SIZE as u16,
        stream_id,
        sequence: 0,
        timestamp_ns: 0,
        publisher_id,
        payload_length: 24,
        checksum: 0,
    };
    let r = OwnedFrame { header, extension_bytes: Vec::new(), payload };
    assert(r.model().extension_bytes =~= Seq::<u8>::empty());
    r
}

/// The REPLAY_REQUEST a subscriber sends for `p` on `stream_id`.
pub fn replay_request_frame(stream_id: u64, p: ReplayRequestPayload) -> (r: OwnedFrame)
    ensures
        r.model() == replay_request_model(stream_id, p),
{
    let payload = triple_payload(p.request_id, p.from_sequence, p.to_sequence);
    let header = FixedHeader {
        magic: MAGIC_RTDP,
        version: RTDP_VERSION_1,
        flags: FrameFlags(0),
        message_type: MessageType::ReplayRequest,
        header_length: FIXED_HEADER_SIZE as u16,
        stream_id,
        sequence: 0,
        timestamp_ns: 0,
        publisher_id: 0,
        payload_length: 24,
        checksum: 0,
    };
    let r = OwnedFrame { header, extension_bytes: Vec::new(), payload };
    assert(r.model().extension_bytes =~= Seq::<u8>::empty());
    r
}

/// The frame bytes as sent are as long as the frame.
proof fn lemma_wire_len(f: FrameModel)
    ensures
        frame_wire_bytes(f).len() == 48 + f.extension_bytes.len() + f.payload.len(),
{
    let body = frame_body(f);
    assert(body.len() == 48 + f.extension_bytes.len() + f.payload.len());
    assert(be32_bytes(0u32).len() == 4);
    assert(splice(body, 44, be32_bytes(0u32)).len() == body.len());
}

/// Encodes `frame` through `codec` into a buffer of `buffer_size` bytes and
/// returns the encoded bytes, or the codec's error.
pub fn encode_datagram(codec: &FrameCodec, frame: &OwnedFrame, buffer_size: usize) -> (r: Result<
    Vec<u8>,
    RtdpError,
>)
    ensures
        match encode_fault(codec.max_frame_size(), frame.model(), buffer_size as int) {
            Some(f) => fails_with(r, f),
            None => r is Ok && r->Ok_0@ == frame_wire_bytes(frame.model()),
        },
{
    let mut buf: Vec<u8> = vec![0u8; buffer_size];
    let len = match codec.encode(frame, buf.as_mut_slice()) {
        Ok(n) => n,
        Err(e) => {
            return Err(e);
        },
    };
    proof {
        lemma_wire_len(frame.model());
    }
    buf.truncate(len);
    assert(buf@ =~= frame_wire_bytes(frame.model()));
    Ok(buf)
}

/// The oldest and newest retained sequence of a ring, zero when empty.
pub open spec fn retained_bounds(m: RingModel) -> (u64, u64) {
    (
        match m.min_sequence {
            Some(v) => v,
            None => 0u64,
        },
        match m.max_sequence {
            Some(v) => v,
            None => 0u64,
        },
    )
}

/// Every sequence of `from..=to` is still retained.
pub open spec fn all_retained(m: RingModel, from: u64, to: u64) -> bool {
    forall|s: u64| from <= s <= to ==> #[trigger] ring_lookup(m, s) is Some
}

/// `s` is the first sequence of `from..=to` that is no longer retained.
pub open spec fn first_missing(m: RingModel, from: u64, to: u64, s: u64) -> bool {
    &&& from <= s <= to
    &&& ring_lookup(m, s) is None
    &&& forall|t: u64| from <= t < s ==> #[trigger] ring_lookup(m, t) is Some
}

/// The requests a ring can answer without an arithmetic overflow: one that
/// lies inside the retained range runs forwards and is shorter than
/// `u64::MAX` sequences.
pub open spec fn answer_allowed(m: RingModel, req: ReplayRequestPayload) -> bool {
    let (min_s, max_s) = retained_bounds(m);
    req.from_sequence >= min_s && req.to_sequence <= max_s ==> req.from_sequence
        <= req.to_sequence && req.to_sequence - req.from_sequence < u64::MAX
}

/// The answer to replay request `req` from a ring: a part of the range
/// before the oldest retained sequence is unavailable from the request's
/// start to the sequence before the oldest; a part after the newest is
/// unavailable from the sequence after the newest to the request's end;
/// inside the retained range, one REPLAY_RESPONSE per sequence when all are
/// still held, else the first sequence no longer held is unavailable.
pub open spec fn answers_request(
    m: RingModel,
    stream_id: u64,
    publisher_id: u64,
    req: ReplayRequestPayload,
    out: Seq<FrameModel>,
) -> bool {
    let (min_s, max_s) = retained_bounds(m);
    let id = req.request_id;
    let from = req.from_sequence;
    let to = req.to_sequence;
    let unavailable = |first: u64, last: u64|
        replay_unavailable_model(
            stream_id,
            publisher_id,
            ReplayUnavailablePayload { request_id: id, first_unavailable: first, last_unavailable: last },
        );
    if from < min_s {
        out == seq![unavailable(from, if min_s > 0 { (min_s - 1) as u64 } else { 0u64 })]
    } else if to > max_s {
        out == seq![unavailable((max_s + 1) as u64, to)]
    } else if all_retained(m, from, to) {
        out == Seq::new(
            (to - from + 1) as nat,
            |i: int| replay_response_model(ring_lookup(m, (from + i) as u64)->Some_0, id),
        )
    } else {
        exists|s: u64| first_missing(m, from, to, s) && out == seq![unavailable(s, s)]
    }
}

/// The frames a publisher sends back for replay request `req`, as
/// `answers_request` says.
pub fn answer_replay_request(
    ring: &BoundedRingBuffer,
    stream_id: u64,
    publisher_id: u64,
    req: ReplayRequestPayload,
) -> (r: Vec<OwnedFrame>)
    requires
        ring.wf(),
        answer_allowed(ring.model(), req),
    ensures
        answers_request(ring.model(), stream_id, publisher_id, req, frame_models(r@)),
{
    let ghost m = ring.model();
    match ring.get_range(req.from_sequence, req.to_sequence) {
        Ok(frames) => {
            let mut out: Vec<OwnedFrame> = Vec::new();
            let n = frames.len();
            let mut i: usize = 0;
            while i < n
                invariant
                    n == frames@.len(),
                    i <= n,
                    out@.len() == i,
                    forall|k: int|
                        0 <= k < i ==> #[trigger] out@[k].model() == replay_response_model(
                            frames@[k].model(),
                            req.request_id,
                        ),
                decreases n - i,
            {
                out.push(replay_response_frame(&frames[i], req.request_id));
                i = i + 1;
            }
            proof {
                let (min_s, max_s) = retained_bounds(m);
                if req.from_sequence >= min_s && req.to_sequence <= max_s {
                    let from = req.from_sequence;
                    let to = req.to_sequence;
                    assert forall|s: u64| from <= s <= to implies #[trigger] ring_lookup(m, s) is Some by {
                        let k = s - from;
                        assert(ring_lookup(m, (from + k) as u64) == Some(frames@[k].model()));
                    }
                    assert(frame_models(out@) =~= Seq::new(
                        (to - from + 1) as nat,
                        |i: int| replay_response_model(ring_lookup(m, (from + i) as u64)->Some_0, req.request_id),
                    )) by {
                        assert forall|k: int| 0 <= k < n implies ring_lookup(m, (from + k) as u64)->Some_0
                            == #[trigger] frames@[k].model() by {
                            assert(ring_lookup(m, (from + k) as u64) == Some(frames@[k].model()));
                        }
                    }
                }
            }
            out
        },
        Err((_, first, last)) => {
            let p = ReplayUnavailablePayload {
                request_id: req.request_id,
                first_unavailable: first,
                last_unavailable: last,
            };
            let mut out: Vec<OwnedFrame> = Vec::new();
            out.push(replay_unavailable_frame(stream_id, publisher_id, p));
            proof {
                assert(frame_models(out@) =~= seq![replay_unavailable_model(stream_id, publisher_id, p)]);
                let (min_s, max_s) = retained_bounds(m);
                if req.from_sequence >= min_s && req.to_sequence <= max_s {
                    assert(first_missing(m, req.from_sequence, req.to_sequence, first));
                    assert(!all_retained(m, req.from_sequence, req.to_sequence)) by {
                        assert(ring_lookup(m, first) is None);
                    }
                }
            }
            out
        },
    }
}

/// The DATA frame a publisher sends: its stream, sequence, timestamp and
/// identity, no extensions, and the payload.
pub open spec fn published_model(
    stream_id: u64,
    sequence: u64,
    timestamp_ns: u64,
    publisher_id: u64,
    payload: Seq<u8>,
) -> FrameModel {
    FrameModel {
        header: data_header(stream_id, sequence, timestamp_ns, publisher_id, payload.len()),
        extension_bytes: Seq::empty(),
        payload,
    }
}

/// What a publish of `payload` stamped `timestamp_ns` does to publisher
/// `p`, under frame limit `max_frame` and into a buffer of `buffer_size`
/// bytes: the DATA frame with the next sequence is accepted when it
/// encodes, and the sequence advances; otherwise nothing changes.
pub open spec fn publish_step(
    p: PublisherState,
    max_frame: usize,
    payload: Seq<u8>,
    timestamp_ns: u64,
    buffer_size: int,
) -> (PublisherState, Option<FrameModel>) {
    let f = published_model(p.stream_id, p.sequence_counter, timestamp_ns, p.publisher_id, payload);
    if encode_fault(max_frame, f, buffer_size) is Some {
        (p, None)
    } else {
        (PublisherState { sequence_counter: (p.sequence_counter + 1) as u64, ..p }, Some(f))
    }
}

/// The numbering state of a publisher: its stream, its identity and the
/// sequence its next DATA frame gets.
pub struct PublisherState {
    pub stream_id: u64,
    pub publisher_id: u64,
    pub sequence_counter: u64,
}

impl PublisherState {
    /// A publisher whose first DATA frame gets sequence 1.
    pub fn new(stream_id: u64, publisher_id: u64) -> (r: Self)
        ensures
            r == (PublisherState { stream_id, publisher_id, sequence_counter: 1 }),
    {
        PublisherState { stream_id, publisher_id, sequence_counter: 1 }
    }

    /// Publishes `payload` stamped `timestamp_ns`: the DATA frame with the
    /// next sequence is encoded into a buffer of `buffer_size` bytes; once
    /// it is accepted the sequence advances and the frame is stored in
    /// `ring` for replay. Returns the sequence and the bytes to send; an
    /// encoding error uses no sequence and stores nothing.
    pub fn publish(
        &mut self,
        ring: &mut BoundedRingBuffer,
        codec: &FrameCodec,
        payload: Vec<u8>,
        timestamp_ns: u64,
        buffer_size: usize,
    ) -> (r: Result<(u64, Vec<u8>), RtdpError>)
        requires
            old(self).sequence_counter < u64::MAX,
            old(ring).wf(),
        ensures
            final(ring).wf(),
            ({
                let seq = old(self).sequence_counter;
                let f = published_model(
                    old(self).stream_id,
                    seq,
                    timestamp_ns,
                    old(self).publisher_id,
                    payload@,
                );
                match encode_fault(codec.max_frame_size(), f, buffer_size as int) {
                    Some(e) => {
                        &&& fails_with(r, e)
                        &&& *final(self) == *old(self)
                        &&& final(ring).model() == old(ring).model()
                    },
                    None => {
                        &&& r is Ok && r->Ok_0.0 == seq && r->Ok_0.1@ == frame_wire_bytes(f)
                        &&& *final(self) == (PublisherState {
                            sequence_counter: (seq + 1) as u64,
                            ..*old(self)
                        })
                        &&& final(ring).model() == ring_push(old(ring).model(), f)
                    },
                }
            }),
            (*final(self), match r {
                Ok((seq, _)) => Some(
                    published_model(
                        old(self).stream_id,
                        seq,
                        timestamp_ns,
                        old(self).publisher_id,
                        payload@,
                    ),
                ),
                Err(_) => None::<FrameModel>,
            }) == publish_step(
                *old(self),
                codec.max_frame_size(),
                payload@,
                timestamp_ns,
                buffer_size as int,
            ),
    {
        let seq = self.sequence_counter;
        let frame = OwnedFrame::new_data(
            self.stream_id,
            seq,
            timestamp_ns,
            self.publisher_id,
            payload,
        );
        assert(frame.model() == published_model(
            self.stream_id,
            seq,
            timestamp_ns,
            self.publisher_id,
            frame.payload@,
        ));
        let bytes = match encode_datagram(codec, &frame, buffer_size) {
            Ok(b) => b,
            Err(e) => {
                return Err(e);
            },
        };
        self.sequence_counter = seq + 1;
        ring.push(frame);
        Ok((seq, bytes))
    }

    /// Restarts under a new identity: sequences start over at 1 and the
    /// ring forgets everything it retained.
    pub fn restart_with_new_publisher_id(&mut self, ring: &mut BoundedRingBuffer, new_publisher_id: u64)
        requires
            old(ring).wf(),
        ensures
            *final(self) == (PublisherState {
                publisher_id: new_publisher_id,
                sequence_counter: 1,
                ..*old(self)
            }),
            final(ring).wf(),
            final(ring).model() == (RingModel {
                slots: Seq::new(old(ring).model().capacity, |i: int| None::<FrameModel>),
                min_sequence: None,
                max_sequence: None,
                ..old(ring).model()
            }),
    {
        self.publisher_id = new_publisher_id;
        self.sequence_counter = 1;
        ring.clear();
    }
}

/// Sends a prepared frame: it is stored in `ring` first when asked, then
/// encoded into a buffer of `buffer_size` bytes.
pub fn publish_frame(
    ring: &mut BoundedRingBuffer,
    codec: &FrameCodec,
    frame: &OwnedFrame,
    store_in_ring: bool,
    buffer_size: usize,
) -> (r: Result<Vec<u8>, RtdpError>)
    requires
        old(ring).wf(),
    ensures
        final(ring).wf(),
        final(ring).model() == (if store_in_ring {
            ring_push(old(ring).model(), frame.model())
        } else {
            old(ring).model()
        }),
        match encode_fault(codec.max_frame_size(), frame.model(), buffer_size as int) {
            Some(f) => fails_with(r, f),
            None => r is Ok && r->Ok_0@ == frame_wire_bytes(frame.model()),
        },
{
    if store_in_ring {
        ring.push(frame.clone());
    }
    encode_datagram(codec, frame, buffer_size)
}

/// The frame a datagram with header `h`, extension bytes `ext` and payload
/// `payload` carries.
pub open spec fn datagram_frame(h: FixedHeader, ext: Seq<u8>, payload: Seq<u8>) -> FrameModel {
    FrameModel { header: h, extension_bytes: ext, payload }
}

/// The DATA frame a REPLAY_RESPONSE restores: its header marked DATA, its
/// extension bytes, and its payload after the 8-byte request id.
pub open spec fn recovered_frame(h: FixedHeader, ext: Seq<u8>, payload: Seq<u8>) -> FrameModel {
    FrameModel {
        header: FixedHeader { message_type: MessageType::Data, ..h },
        extension_bytes: ext,
        payload: payload.skip(8),
    }
}

/// The highest delivered sequence after delivering `fs` in order, starting
/// from `highest`.
pub open spec fn highest_after(highest: u64, fs: Seq<FrameModel>) -> u64
    decreases fs.len(),
{
    if fs.len() == 0 {
        highest
    } else {
        max_seq(highest_after(highest, fs.drop_last()), fs.last().header.sequence)
    }
}

/// A subscriber takes a datagram of its own stream, and a REPLAY_UNAVAILABLE
/// of any stream; it ignores the rest.
pub open spec fn datagram_relevant(stream_id: u64, h: FixedHeader) -> bool {
    h.stream_id == stream_id || h.message_type == MessageType::ReplayUnavailable
}

/// The datagrams a receiver can take without an arithmetic overflow: a DATA
/// frame it takes must meet `receive_allowed`.
pub open spec fn datagram_allowed(r: ReceiverModel, h: FixedHeader, ext: Seq<u8>, payload: Seq<u8>) -> bool {
    datagram_relevant(r.stream_id, h) && h.message_type == MessageType::Data ==> receive_allowed(
        r,
        datagram_frame(h, ext, payload),
    )
}

/// The replay request a publisher reads from packet `p`: the packet must
/// decode (under a codec with frame limit `max_frame` that validates
/// checksums when `validate` says so), be a REPLAY_REQUEST, and carry a
/// payload that decodes; anything else asks for nothing.
pub open spec fn requested_replay(max_frame: usize, validate: bool, p: Seq<u8>) -> Option<
    ReplayRequestPayload,
> {
    match spec_frame_decode(max_frame, validate, p, crc32c_of(with_zeroed_checksum(p))) {
        Ok(h) => if h.message_type == MessageType::ReplayRequest {
            match spec_replay_request_decode(p.subrange(h.header_length as int, p.len() as int)) {
                Ok(req) => Some(req),
                Err(_) => None,
            }
        } else {
            None
        },
        Err(_) => None,
    }
}

/// Reads the replay request a datagram received by a publisher carries, as
/// `requested_replay` says; the packet ends as it began.
pub fn replay_request_in(codec: &FrameCodec, packet: &mut [u8]) -> (r: Option<ReplayRequestPayload>)
    ensures
        final(packet)@ == old(packet)@,
        r == requested_replay(codec.max_frame_size(), codec.validates_checksum(), old(packet)@),
{
    match codec.decode(packet) {
        Ok(view) => {
            if view.header.message_type == MessageType::ReplayRequest {
                match ReplayRequestPayload::decode(view.payload) {
                    Ok(req) => Some(req),
                    Err(_) => None,
                }
            } else {
                None
            }
        },
        Err(_) => None,
    }
}

/// What a subscriber does with a decoded datagram arriving at `now`, going
/// from `r0` to `r1`, delivering `delivered` and sending `request` back to
/// the sender. A datagram it ignores changes nothing. DATA goes through the
/// receiver's delivery mode (`receive_step`; a failed step delivers and
/// sends nothing). A REPLAY_RESPONSE of at least 8 payload bytes hands the
/// restored frame to recovery under the request id in those bytes. What
/// recovery hands out is, in RELIABLE_ORDERED, released through the
/// duplicate filter and the tracker (`release_step`); in the other modes it
/// is delivered as it comes, raising the highest delivered sequence. A
/// REPLAY_UNAVAILABLE that decodes drops its request and fails
/// recovery. Anything else changes nothing.
pub open spec fn handles_datagram(
    r0: ReceiverModel,
    h: FixedHeader,
    ext: Seq<u8>,
    payload: Seq<u8>,
    now: Instant,
    r1: ReceiverModel,
    delivered: Seq<FrameModel>,
    request: Option<ReplayRequestPayload>,
) -> bool {
    if !datagram_relevant(r0.stream_id, h) {
        r1 == r0 && delivered.len() == 0 && request is None
    } else {
        match h.message_type {
            MessageType::Data => {
                let step = receive_step(r0, datagram_frame(h, ext, payload), now);
                &&& r1 == step.0
                &&& match step.1 {
                    Ok((fs, p)) => delivered == fs && request == p,
                    Err(_) => delivered.len() == 0 && request is None,
                }
            },
            MessageType::ReplayResponse => {
                &&& request is None
                &&& if payload.len() < 8 {
                    r1 == r0 && delivered.len() == 0
                } else {
                    exists|e1: EngineModel, out: Option<Seq<FrameModel>>|
                        {
                            &&& replay_response_outcome(
                                r0.recovery,
                                be64(payload, 0),
                                recovered_frame(h, ext, payload),
                                e1,
                                out,
                            )
                            &&& match out {
                                None => r1 == (ReceiverModel { recovery: e1, ..r0 })
                                    && delivered.len() == 0,
                                Some(fs) => if r0.mode is ReliableOrdered {
                                    (r1, delivered) == release_step(
                                        ReceiverModel { recovery: e1, ..r0 },
                                        fs,
                                    )
                                } else {
                                    &&& delivered == fs
                                    &&& r1 == (ReceiverModel {
                                        recovery: e1,
                                        highest_delivered_sequence: highest_after(
                                            r0.highest_delivered_sequence,
                                            fs,
                                        ),
                                        ..r0
                                    })
                                },
                            }
                        }
                }
            },
            MessageType::ReplayUnavailable => {
                &&& request is None
                &&& delivered.len() == 0
                &&& match spec_replay_unavailable_decode(payload) {
                    Ok(u) => r1 == (ReceiverModel {
                        recovery: EngineModel {
                            outstanding: match find_request(r0.recovery.outstanding, u.request_id) {
                                Some(i) => r0.recovery.outstanding.remove(i),
                                None => r0.recovery.outstanding,
                            },
                            state: RecoveryState::RecoveryFailed,
                            ..r0.recovery
                        },
                        ..r0
                    }),
                    Err(_) => r1 == r0,
                }
            },
            _ => r1 == r0 && delivered.len() == 0 && request is None,
        }
    }
}

/// What a subscriber delivers and sends back for one datagram.
pub struct DatagramOutcome {
    pub deliver: Vec<OwnedFrame>,
    pub replay_request: Option<ReplayRequestPayload>,
}

/// Nothing to deliver, nothing to send.
fn no_outcome() -> (r: DatagramOutcome)
    ensures
        r.deliver@.len() == 0,
        r.replay_request is None,
{
    DatagramOutcome { deliver: Vec::new(), replay_request: None }
}

/// Whether `rx` can take the datagram without an arithmetic overflow, as
/// `datagram_allowed` says.
pub fn datagram_acceptable(rx: &StreamReceiver, view: &FrameView) -> (r: bool)
    requires
        rx.wf(),
    ensures
        r == datagram_allowed(rx.model(), view.header, view.extension_bytes@, view.payload@),
{
    let h = view.header;
    if (h.stream_id == rx.stream_id || h.message_type == MessageType::ReplayUnavailable)
        && h.message_type == MessageType::Data {
        let frame = OwnedFrame {
            header: h,
            extension_bytes: slice_to_vec(view.extension_bytes),
            payload: slice_to_vec(view.payload),
        };
        rx.can_receive(&frame)
    } else {
        true
    }
}

/// Handles one decoded datagram arriving at `now`, as `handles_datagram`
/// says.
pub fn handle_datagram_at(rx: &mut StreamReceiver, view: &FrameView, now: Instant) -> (r:
    DatagramOutcome)
    requires
        old(rx).wf(),
        datagram_allowed(old(rx).model(), view.header, view.extension_bytes@, view.payload@),
    ensures
        final(rx).wf(),
        handles_datagram(
            old(rx).model(),
            view.header,
            view.extension_bytes@,
            view.payload@,
            now,
            final(rx).model(),
            delivered_models(r.deliver@),
            r.replay_request,
        ),
{
    let ghost r0 = rx.model();
    let h = view.header;
    if h.stream_id != rx.stream_id && h.message_type != MessageType::ReplayUnavailable {
        let r = no_outcome();
        assert(delivered_models(r.deliver@).len() == 0);
        return r;
    }
    match h.message_type {
        MessageType::Data => {
            let frame = OwnedFrame {
                header: h,
                extension_bytes: slice_to_vec(view.extension_bytes),
                payload: slice_to_vec(view.payload),
            };
            assert(frame.model() == datagram_frame(h, view.extension_bytes@, view.payload@));
            match rx.process_data_frame_at(frame, now) {
                Ok((deliver, replay_request)) => DatagramOutcome { deliver, replay_request },
                Err(_) => {
                    let r = no_outcome();
                    assert(delivered_models(r.deliver@).len() == 0);
                    r
                },
            }
        },
        MessageType::ReplayResponse => {
            if view.payload.len() < 8 {
                let r = no_outcome();
                assert(delivered_models(r.deliver@).len() == 0);
                return r;
            }
            let request_id = read_u64_at(view.payload, 0);
            let original_payload = slice_to_vec(slice_subrange(view.payload, 8, view.payload.len()));
            let recovered = OwnedFrame {
                header: FixedHeader { message_type: MessageType::Data, ..h },
                extension_bytes: slice_to_vec(view.extension_bytes),
                payload: original_payload,
            };
            assert(recovered.model() == recovered_frame(h, view.extension_bytes@, view.payload@));
            let ghost fr = recovered.model();
            match rx.recovery.handle_replay_response(request_id, recovered) {
                Ok(Some(drained)) => {
                    let ghost fs = frame_models(drained@);
                    let ghost e1 = rx.model().recovery;
                    if rx.mode == DeliveryMode::ReliableOrdered {
                        assert(delivered_models(drained@) == fs);
                        let deliver = rx.release_replayed(drained);
                        assert(replay_response_outcome(
                            r0.recovery,
                            be64(view.payload@, 0),
                            fr,
                            e1,
                            Some(fs),
                        ));
                        return DatagramOutcome { deliver, replay_request: None };
                    }
                    let ghost r_mid = rx.model();
                    let n = drained.len();
                    let mut i: usize = 0;
                    while i < n
                        invariant
                            rx.wf(),
                            rx.model() == (ReceiverModel {
                                highest_delivered_sequence: rx.highest_delivered_sequence,
                                ..r_mid
                            }),
                            n == drained@.len(),
                            i <= n,
                            fs == frame_models(drained@),
                            rx.highest_delivered_sequence == highest_after(
                                r0.highest_delivered_sequence,
                                fs.take(i as int),
                            ),
                        decreases n - i,
                    {
                        let seq = drained[i].header.sequence;
                        if seq > rx.highest_delivered_sequence {
                            rx.highest_delivered_sequence = seq;
                        }
                        assert(fs.take(i + 1).drop_last() =~= fs.take(i as int));
                        i = i + 1;
                    }
                    assert(fs.take(n as int) =~= fs);
                    assert(delivered_models(drained@) == fs);
                    assert(replay_response_outcome(
                        r0.recovery,
                        be64(view.payload@, 0),
                        recovered_frame(h, view.extension_bytes@, view.payload@),
                        rx.model().recovery,
                        Some(fs),
                    ));
                    DatagramOutcome { deliver: drained, replay_request: None }
                },
                _ => {
                    let r = no_outcome();
                    assert(delivered_models(r.deliver@) =~= Seq::<FrameModel>::empty());
                    assert(replay_response_outcome(
                        r0.recovery,
                        be64(view.payload@, 0),
                        fr,
                        rx.model().recovery,
                        None,
                    ));
                    r
                },
            }
        },
        MessageType::ReplayUnavailable => {
            match ReplayUnavailablePayload::decode(view.payload) {
                Ok(unavail) => {
                    let _ = rx.recovery.handle_replay_unavailable(&unavail);
                },
                Err(_) => {},
            }
            let r = no_outcome();
            assert(delivered_models(r.deliver@).len() == 0);
            r
        },
        _ => {
            let r = no_outcome();
            assert(delivered_models(r.deliver@).len() == 0);
            r
        },
    }
}

/// Handles one decoded datagram; a replay request it creates is stamped
/// with the current monotonic time.
pub fn handle_datagram(rx: &mut StreamReceiver, view: &FrameView) -> (r: DatagramOutcome)
    requires
        old(rx).wf(),
        datagram_allowed(old(rx).model(), view.header, view.extension_bytes@, view.payload@),
    ensures
        final(rx).wf(),
        exists|now: Instant|
            handles_datagram(
                old(rx).model(),
                view.header,
                view.extension_bytes@,
                view.payload@,
                now,
                final(rx).model(),
                delivered_models(r.deliver@),
                r.replay_request,
            ),
{
    let now = instant_now();
    handle_datagram_at(rx, view, now)
}

/// RELIABLE_ORDERED delivers in order whatever datagram comes: for a
/// receiver in the delivery invariant of publisher `p` whose DATA comes
/// from `p`, the invariant holds after the datagram, and the frames it
/// delivers carry the sequences right after the highest delivered one, in
/// order, the last of them becoming the highest delivered. A frame restored
/// by a REPLAY_RESPONSE is delivered only in its turn and is then
/// remembered, so no later copy of it is delivered again.
pub proof fn lemma_reliable_ordered_datagram_continues(
    r0: ReceiverModel,
    p: u64,
    h: FixedHeader,
    ext: Seq<u8>,
    payload: Seq<u8>,
    now: Instant,
    r1: ReceiverModel,
    delivered: Seq<FrameModel>,
    request: Option<ReplayRequestPayload>,
)
    requires
        ordered_inv(r0, p),
        datagram_allowed(r0, h, ext, payload),
        h.message_type == MessageType::Data ==> h.publisher_id == p && h.sequence < u64::MAX,
        handles_datagram(r0, h, ext, payload, now, r1, delivered, request),
    ensures
        ordered_inv(r1, p),
        r1.highest_delivered_sequence == r0.highest_delivered_sequence + delivered.len(),
        forall|i: int|
            0 <= i < delivered.len() ==> (#[trigger] delivered[i]).header.sequence
                == r0.highest_delivered_sequence + 1 + i,
{
    if datagram_relevant(r0.stream_id, h) {
        if h.message_type == MessageType::Data {
            let f = datagram_frame(h, ext, payload);
            lemma_reliable_ordered_receive_continues(r0, p, f, now);
            if let Ok((fs, _)) = receive_step(r0, f, now).1 {
                assert(delivered == fs);
                let fs2 = step_delivered(receive_step(r0, f, now).1);
                assert(fs2 == delivered);
                assert forall|i: int| 0 <= i < delivered.len() implies (#[trigger] delivered[i]).header.sequence
                    == r0.highest_delivered_sequence + 1 + i by {
                    assert(fs2[i] == delivered[i]);
                }
            }
        } else if h.message_type == MessageType::ReplayResponse && payload.len() >= 8 {
            let fr = recovered_frame(h, ext, payload);
            let id = be64(payload, 0);
            let (e1, out) = choose|e1: EngineModel, out: Option<Seq<FrameModel>>|
                {
                    &&& replay_response_outcome(r0.recovery, id, fr, e1, out)
                    &&& match out {
                        None => r1 == (ReceiverModel { recovery: e1, ..r0 }) && delivered.len() == 0,
                        Some(fs) => if r0.mode is ReliableOrdered {
                            (r1, delivered) == release_step(ReceiverModel { recovery: e1, ..r0 }, fs)
                        } else {
                            &&& delivered == fs
                            &&& r1 == (ReceiverModel {
                                recovery: e1,
                                highest_delivered_sequence: highest_after(
                                    r0.highest_delivered_sequence,
                                    fs,
                                ),
                                ..r0
                            })
                        },
                    }
                };
            let buf = r0.recovery.buffered.insert(fr.header.sequence, fr);
            match out {
                None => {
                    assert forall|k: DuplicateKey|
                        #[trigger] r1.dedup.history.contains(k) && k.stream_id == r1.stream_id
                            && k.publisher_id == p implies k.sequence
                        < r1.tracker.expected_sequence || (r1.tracker.expected_sequence < k.sequence
                        < u64::MAX && r1.recovery.buffered.contains_key(k.sequence)) by {
                        if k.sequence >= r0.tracker.expected_sequence {
                            assert(r0.recovery.buffered.contains_key(k.sequence));
                        }
                    }
                },
                Some(fs) => {
                    let x = r0.tracker.expected_sequence;
                    let k0 = choose|k: u64| is_least_key(buf, k) && contiguous_run(buf, k, fs, e1.buffered);
                    assert(buf.contains_key(fr.header.sequence));
                    assert(keyed_by_sequence(e1.buffered));
                    lemma_rebuffer(e1.buffered, x, fs);
                    let rb = rebuffer_from(e1.buffered, x, fs);
                    assert forall|j: u64|
                        r0.recovery.buffered.contains_key(j) && j >= x implies #[trigger] rb.contains_key(
                        j,
                    ) by {
                        if k0 <= j && j < k0 + fs.len() {
                            let i = j - k0;
                            assert(fs[i] == buf[(k0 + i) as u64]);
                            assert(fs[i].header.sequence == j);
                        } else {
                            assert(e1.buffered.contains_key(j));
                        }
                    }
                    let rm = ReceiverModel {
                        recovery: EngineModel { buffered: rb, ..e1 },
                        ..r0
                    };
                    assert forall|k: DuplicateKey|
                        #[trigger] rm.dedup.history.contains(k) && k.stream_id == rm.stream_id
                            && k.publisher_id == p implies k.sequence
                        < rm.tracker.expected_sequence || (rm.tracker.expected_sequence < k.sequence
                        < u64::MAX && rm.recovery.buffered.contains_key(k.sequence)) by {
                        if k.sequence >= x {
                            assert(r0.recovery.buffered.contains_key(k.sequence));
                        }
                    }
                    assert(r0.recovery.outstanding.len() > 0);
                    lemma_release_continues(ReceiverModel { recovery: e1, ..r0 }, p, fs);
                    let out2 = release_step(ReceiverModel { recovery: e1, ..r0 }, fs).1;
                    assert(delivered == out2);
                    assert forall|i: int| 0 <= i < delivered.len() implies (#[trigger] delivered[i]).header.sequence
                        == r0.highest_delivered_sequence + 1 + i by {
                        assert(out2[i] == delivered[i]);
                    }
                },
            }
        }
    }
}

/// In order over any run of datagrams: `rs[i + 1]` is the subscriber state
/// datagram `ds[i]` (header, extension bytes, payload), arriving at
/// `nows[i]`, leaves behind state `rs[i]`, having delivered `outs[i]`. When
/// the first state is in the delivery invariant of publisher `p`, all DATA
/// comes from `p`, and each datagram can be taken without an overflow, the
/// delivered frames of the whole run carry the sequences right after the
/// highest delivered one at the start, in order.
proof fn lemma_datagram_run_continues(
    rs: Seq<ReceiverModel>,
    p: u64,
    ds: Seq<(FixedHeader, Seq<u8>, Seq<u8>)>,
    nows: Seq<Instant>,
    outs: Seq<Seq<FrameModel>>,
    reqs: Seq<Option<ReplayRequestPayload>>,
)
    requires
        ordered_inv(rs[0], p),
        rs.len() == ds.len() + 1,
        nows.len() == ds.len(),
        outs.len() == ds.len(),
        reqs.len() == ds.len(),
        forall|i: int|
            0 <= i < ds.len() ==> #[trigger] handles_datagram(
                rs[i],
                ds[i].0,
                ds[i].1,
                ds[i].2,
                nows[i],
                rs[i + 1],
                outs[i],
                reqs[i],
            ),
        forall|i: int|
            0 <= i < ds.len() ==> #[trigger] datagram_allowed(rs[i], ds[i].0, ds[i].1, ds[i].2),
        forall|i: int|
            0 <= i < ds.len() ==> (#[trigger] ds[i]).0.message_type == MessageType::Data
                ==> ds[i].0.publisher_id == p && ds[i].0.sequence < u64::MAX,
    ensures
        ordered_inv(rs.last(), p),
        rs.last().highest_delivered_sequence == rs[0].highest_delivered_sequence
            + outs.flatten_alt().len(),
        forall|i: int|
            0 <= i < outs.flatten_alt().len() ==> (#[trigger] outs.flatten_alt()[i]).header.sequence
                == rs[0].highest_delivered_sequence + 1 + i,
    decreases ds.len(),
{
    let n = ds.len();
    if n > 0 {
        let rs1 = rs.drop_last();
        let ds1 = ds.drop_last();
        let nows1 = nows.drop_last();
        let outs1 = outs.drop_last();
        let reqs1 = reqs.drop_last();
        assert forall|i: int| 0 <= i < ds1.len() implies #[trigger] handles_datagram(
            rs1[i],
            ds1[i].0,
            ds1[i].1,
            ds1[i].2,
            nows1[i],
            rs1[i + 1],
            outs1[i],
            reqs1[i],
        ) by {
            assert(handles_datagram(rs[i], ds[i].0, ds[i].1, ds[i].2, nows[i], rs[i + 1], outs[i], reqs[i]));
        }
        assert forall|i: int| 0 <= i < ds1.len() implies #[trigger] datagram_allowed(
            rs1[i],
            ds1[i].0,
            ds1[i].1,
            ds1[i].2,
        ) by {
            assert(datagram_allowed(rs[i], ds[i].0, ds[i].1, ds[i].2));
        }
        assert forall|i: int| 0 <= i < ds1.len() && (#[trigger] ds1[i]).0.message_type
            == MessageType::Data implies ds1[i].0.publisher_id == p && ds1[i].0.sequence < u64::MAX by {
            assert(ds1[i] == ds[i]);
        }
        lemma_datagram_run_continues(rs1, p, ds1, nows1, outs1, reqs1);
        let k = n - 1;
        assert(handles_datagram(rs[k], ds[k].0, ds[k].1, ds[k].2, nows[k], rs[k + 1], outs[k], reqs[k]));
        assert(datagram_allowed(rs[k], ds[k].0, ds[k].1, ds[k].2));
        assert(ds[k].0.message_type == MessageType::Data ==> ds[k].0.publisher_id == p
            && ds[k].0.sequence < u64::MAX);
        assert(rs1.last() == rs[k]);
        lemma_reliable_ordered_datagram_continues(
            rs[k],
            p,
            ds[k].0,
            ds[k].1,
            ds[k].2,
            nows[k],
            rs[k + 1],
            outs[k],
            reqs[k],
        );
        let f1 = outs1.flatten_alt();
        let f = outs.flatten_alt();
        assert(f == f1 + outs[k]);
        assert forall|i: int| 0 <= i < f.len() implies (#[trigger] f[i]).header.sequence
            == rs[0].highest_delivered_sequence + 1 + i by {
            if i < f1.len() {
                assert(f[i] == f1[i]);
            } else {
                assert(f[i] == outs[k][i - f1.len()]);
            }
        }
    }
}

/// RELIABLE_ORDERED delivery over a subscriber's life: a fresh subscriber
/// going through the states `rs` as it takes the datagrams `ds` (DATA of
/// one publisher, lost, reordered or repeated, and the replies to its
/// replay requests, in any order), delivering `outs[i]` for the `i`-th,
/// hands out the sequences 1, 2, 3, ... in that order, each once.
pub proof fn lemma_reliable_ordered_subscriber_order(
    stream_id: u64,
    cfg: RecoveryConfig,
    p: u64,
    rs: Seq<ReceiverModel>,
    ds: Seq<(FixedHeader, Seq<u8>, Seq<u8>)>,
    nows: Seq<Instant>,
    outs: Seq<Seq<FrameModel>>,
    reqs: Seq<Option<ReplayRequestPayload>>,
)
    requires
        rs.len() == ds.len() + 1,
        rs[0] == fresh_receiver(stream_id, DeliveryMode::ReliableOrdered, cfg),
        nows.len() == ds.len(),
        outs.len() == ds.len(),
        reqs.len() == ds.len(),
        forall|i: int|
            0 <= i < ds.len() ==> #[trigger] handles_datagram(
                rs[i],
                ds[i].0,
                ds[i].1,
                ds[i].2,
                nows[i],
                rs[i + 1],
                outs[i],
                reqs[i],
            ),
        forall|i: int|
            0 <= i < ds.len() ==> #[trigger] datagram_allowed(rs[i], ds[i].0, ds[i].1, ds[i].2),
        forall|i: int|
            0 <= i < ds.len() ==> (#[trigger] ds[i]).0.message_type == MessageType::Data
                ==> ds[i].0.publisher_id == p && ds[i].0.sequence < u64::MAX,
    ensures
        forall|i: int|
            0 <= i < outs.flatten().len() ==> (#[trigger] outs.flatten()[i]).header.sequence == i
                + 1,
        rs.last().highest_delivered_sequence == outs.flatten().len(),
{
    lemma_fresh_receiver_ordered(stream_id, cfg, p);
    lemma_datagram_run_continues(rs, p, ds, nows, outs, reqs);
    outs.lemma_flatten_and_flatten_alt_are_equivalent();
}

/// A REPLAY_RESPONSE gives back what it replays: the request id in its
/// first 8 payload bytes, the original's stream, sequence, timestamp and
/// publisher, and, restored as DATA, the original payload.
pub proof fn lemma_replay_response_restores(orig: FrameModel, request_id: u64)
    ensures
        ({
            let resp = replay_response_model(orig, request_id);
            let back = recovered_frame(resp.header, resp.extension_bytes, resp.payload);
            &&& resp.payload.len() >= 8
            &&& be64(resp.payload, 0) == request_id
            &&& back.header.message_type == MessageType::Data
            &&& back.header.stream_id == orig.header.stream_id
            &&& back.header.sequence == orig.header.sequence
            &&& back.header.timestamp_ns == orig.header.timestamp_ns
            &&& back.header.publisher_id == orig.header.publisher_id
            &&& back.payload == orig.payload
        }),
{
    lemma_be64_roundtrip(request_id);
    let resp = replay_response_model(orig, request_id);
    let b = be64_bytes(request_id);
    assert(resp.payload[0] == b[0] && resp.payload[1] == b[1] && resp.payload[2] == b[2]
        && resp.payload[3] == b[3] && resp.payload[4] == b[4] && resp.payload[5] == b[5]
        && resp.payload[6] == b[6] && resp.payload[7] == b[7]);
    assert(resp.payload.skip(8) =~= orig.payload);
}

/// At most one sequence of a range is the first one no longer retained.
proof fn lemma_first_missing_unique(m: RingModel, from: u64, to: u64)
    ensures
        forall|s1: u64, s2: u64|
            #[trigger] first_missing(m, from, to, s1) && #[trigger] first_missing(m, from, to, s2)
                ==> s1 == s2,
{
    assert forall|s1: u64, s2: u64|
        #[trigger] first_missing(m, from, to, s1) && #[trigger] first_missing(m, from, to, s2)
            implies s1 == s2 by {
        if s1 < s2 {
            assert(ring_lookup(m, s1) is Some);
        } else if s2 < s1 {
            assert(ring_lookup(m, s2) is Some);
        }
    }
}

/// Replay answers are idempotent: the answer depends on the ring and the
/// request alone, so a repeated request is answered identically.
pub proof fn lemma_answer_deterministic(
    m: RingModel,
    stream_id: u64,
    publisher_id: u64,
    req: ReplayRequestPayload,
    out1: Seq<FrameModel>,
    out2: Seq<FrameModel>,
)
    requires
        answers_request(m, stream_id, publisher_id, req, out1),
        answers_request(m, stream_id, publisher_id, req, out2),
    ensures
        out1 == out2,
{
    lemma_first_missing_unique(m, req.from_sequence, req.to_sequence);
}

/// A request for a range the ring still holds in full is answered with one
/// REPLAY_RESPONSE per sequence, in order, each replaying the retained
/// frame of that sequence; a request with any sequence no longer held is
/// answered with a single REPLAY_UNAVAILABLE.
pub proof fn lemma_answer_by_retention(
    m: RingModel,
    stream_id: u64,
    publisher_id: u64,
    req: ReplayRequestPayload,
    out: Seq<FrameModel>,
)
    requires
        answers_request(m, stream_id, publisher_id, req, out),
        req.from_sequence <= req.to_sequence,
    ensures
        all_retained(m, req.from_sequence, req.to_sequence) ==> {
            &&& out.len() == req.to_sequence - req.from_sequence + 1
            &&& forall|i: int|
                0 <= i < out.len() ==> {
                    let s = (req.from_sequence + i) as u64;
                    &&& ring_lookup(m, s) is Some
                    &&& #[trigger] out[i] == replay_response_model(
                        ring_lookup(m, s)->Some_0,
                        req.request_id,
                    )
                    &&& out[i].header.sequence == s
                }
        },
        !all_retained(m, req.from_sequence, req.to_sequence) ==> out.len() == 1
            && out[0].header.message_type == MessageType::ReplayUnavailable,
{
    let from = req.from_sequence;
    let to = req.to_sequence;
    if all_retained(m, from, to) {
        assert(ring_lookup(m, from) is Some);
        assert(ring_lookup(m, to) is Some);
        assert forall|i: int| 0 <= i < out.len() implies {
            let s = (from + i) as u64;
            &&& ring_lookup(m, s) is Some
            &&& #[trigger] out[i] == replay_response_model(ring_lookup(m, s)->Some_0, req.request_id)
            &&& out[i].header.sequence == s
        } by {
            let s = (from + i) as u64;
            assert(from <= s <= to);
            assert(ring_lookup(m, s) is Some);
        }
    }
}

/// A REPLAY_UNAVAILABLE halts the replay it answers: recovery has failed,
/// nothing is delivered or requested, and no outstanding request with its
/// id remains to be re-sent.
pub proof fn lemma_unavailable_halts_replay(
    r0: ReceiverModel,
    h: FixedHeader,
    ext: Seq<u8>,
    payload: Seq<u8>,
    now: Instant,
    r1: ReceiverModel,
    delivered: Seq<FrameModel>,
    request: Option<ReplayRequestPayload>,
)
    requires
        handles_datagram(r0, h, ext, payload, now, r1, delivered, request),
        h.message_type == MessageType::ReplayUnavailable,
        payload.len() >= 24,
        ids_increasing(r0.recovery.outstanding),
    ensures
        r1.recovery.state == RecoveryState::RecoveryFailed,
        delivered.len() == 0,
        request is None,
        find_request(r1.recovery.outstanding, be64(payload, 0)) is None,
{
    if find_request(r0.recovery.outstanding, be64(payload, 0)) is Some {
        lemma_removed_request_gone(r0.recovery.outstanding, be64(payload, 0));
    }
}

/// What a publisher retains it can replay: right after a frame is stored,
/// a request for its sequence is answered with exactly one REPLAY_RESPONSE,
/// the one that replays that frame, and restoring it gives back the frame's
/// sequence, publisher and payload.
pub proof fn lemma_stored_frame_replayed(
    m: RingModel,
    f: FrameModel,
    stream_id: u64,
    publisher_id: u64,
    request_id: u64,
    out: Seq<FrameModel>,
)
    requires
        m.capacity > 0,
        m.slots.len() == m.capacity,
        m.capacity <= usize::MAX,
        m.min_sequence is Some ==> m.min_sequence->Some_0 <= f.header.sequence,
        answers_request(
            ring_push(m, f),
            stream_id,
            publisher_id,
            ReplayRequestPayload {
                request_id,
                from_sequence: f.header.sequence,
                to_sequence: f.header.sequence,
            },
            out,
        ),
    ensures
        out == seq![replay_response_model(f, request_id)],
        ({
            let back = recovered_frame(out[0].header, out[0].extension_bytes, out[0].payload);
            &&& be64(out[0].payload, 0) == request_id
            &&& back.header.sequence == f.header.sequence
            &&& back.header.publisher_id == f.header.publisher_id
            &&& back.payload == f.payload
        }),
{
    let s = f.header.sequence;
    let m2 = ring_push(m, f);
    lemma_push_then_get(m, f);
    assert(all_retained(m2, s, s));
    assert(out =~= seq![replay_response_model(f, request_id)]) by {
        assert(ring_lookup(m2, (s + 0) as u64) == Some(f));
    }
    lemma_replay_response_restores(f, request_id);
}


/// The frames accepted along a run of publishes, in order.
pub open spec fn accepted_frames(acc: Seq<Option<FrameModel>>) -> Seq<FrameModel>
    decreases acc.len(),
{
    if acc.len() == 0 {
        Seq::empty()
    } else {
        match acc.last() {
            Some(f) => accepted_frames(acc.drop_last()).push(f),
            None => accepted_frames(acc.drop_last()),
        }
    }
}

/// Publisher `p` becomes `p2` by one publish, of any payload, at any time,
/// under any frame limit and buffer, accepting `acc`.
pub open spec fn publish_moves(p: PublisherState, p2: PublisherState, acc: Option<FrameModel>) -> bool {
    exists|max_frame: usize, payload: Seq<u8>, timestamp_ns: u64, buffer_size: int|
        (p2, acc) == #[trigger] publish_step(p, max_frame, payload, timestamp_ns, buffer_size)
}

/// Publish numbering: along any run of publishes `ps[0] -> ps[1] -> ...`
/// from a publisher whose next sequence is 1 (new, or just restarted under
/// a new identity), the accepted DATA frames carry the sequences 1, 2, 3,
/// ... in order, on the publisher's stream and under its identity; a
/// publish whose frame does not encode uses no sequence. When the frames go
/// into a ring that started empty (`rings[i + 1]` is `rings[i]` with the
/// accepted frame stored), the ring hands out each of the newest
/// `capacity` accepted frames by its sequence, and nothing else.
pub proof fn lemma_publish_numbering(
    ps: Seq<PublisherState>,
    acc: Seq<Option<FrameModel>>,
    rings: Seq<RingModel>,
)
    requires
        ps.len() == acc.len() + 1,
        rings.len() == acc.len() + 1,
        ps[0].sequence_counter == 1,
        forall|i: int| 0 <= i < acc.len() ==> #[trigger] publish_moves(ps[i], ps[i + 1], acc[i]),
        forall|i: int| 0 <= i < acc.len() ==> (#[trigger] ps[i]).sequence_counter < u64::MAX,
        forall|i: int|
            0 <= i < acc.len() ==> #[trigger] rings[i + 1] == match acc[i] {
                Some(f) => ring_push(rings[i], f),
                None => rings[i],
            },
        rings[0].capacity > 0,
        rings[0].slots.len() == rings[0].capacity,
        rings[0].min_sequence is None,
        rings[0].max_sequence is None,
        accepted_frames(acc).len() <= usize::MAX,
    ensures
        ({
            let fs = accepted_frames(acc);
            &&& forall|i: int|
                0 <= i < fs.len() ==> (#[trigger] fs[i]).header.sequence == i + 1
                    && fs[i].header.stream_id == ps[0].stream_id && fs[i].header.publisher_id
                    == ps[0].publisher_id
            &&& ps.last().sequence_counter == fs.len() + 1
            &&& rings.last() == ring_push_all(rings[0], fs)
            &&& forall|s: u64|
                #[trigger] ring_lookup(rings.last(), s) == if 1 <= s <= fs.len() && s
                    + rings[0].capacity > fs.len() {
                    Some(fs[s - 1])
                } else {
                    None
                }
        }),
{
    lemma_publish_run(ps, acc, rings);
    let fs = accepted_frames(acc);
    lemma_ring_keeps_newest(rings[0], fs, 1);
}

/// The induction behind `lemma_publish_numbering`.
proof fn lemma_publish_run(
    ps: Seq<PublisherState>,
    acc: Seq<Option<FrameModel>>,
    rings: Seq<RingModel>,
)
    requires
        ps.len() == acc.len() + 1,
        rings.len() == acc.len() + 1,
        ps[0].sequence_counter == 1,
        forall|i: int| 0 <= i < acc.len() ==> #[trigger] publish_moves(ps[i], ps[i + 1], acc[i]),
        forall|i: int| 0 <= i < acc.len() ==> (#[trigger] ps[i]).sequence_counter < u64::MAX,
        forall|i: int|
            0 <= i < acc.len() ==> #[trigger] rings[i + 1] == match acc[i] {
                Some(f) => ring_push(rings[i], f),
                None => rings[i],
            },
    ensures
        ({
            let fs = accepted_frames(acc);
            &&& forall|i: int|
                0 <= i < fs.len() ==> (#[trigger] fs[i]).header.sequence == i + 1
                    && fs[i].header.stream_id == ps[0].stream_id && fs[i].header.publisher_id
                    == ps[0].publisher_id
            &&& ps.last().sequence_counter == fs.len() + 1
            &&& ps.last().stream_id == ps[0].stream_id
            &&& ps.last().publisher_id == ps[0].publisher_id
            &&& rings.last() == ring_push_all(rings[0], fs)
        }),
    decreases acc.len(),
{
    if acc.len() > 0 {
        let k = acc.len() - 1;
        let ps1 = ps.drop_last();
        let acc1 = acc.drop_last();
        let rings1 = rings.drop_last();
        assert forall|i: int| 0 <= i < acc1.len() implies #[trigger] publish_moves(
            ps1[i],
            ps1[i + 1],
            acc1[i],
        ) by {
            assert(publish_moves(ps[i], ps[i + 1], acc[i]));
        }
        assert forall|i: int| 0 <= i < acc1.len() implies (#[trigger] ps1[i]).sequence_counter
            < u64::MAX by {
            assert(ps1[i] == ps[i]);
        }
        assert forall|i: int| 0 <= i < acc1.len() implies #[trigger] rings1[i + 1] == match acc1[i] {
            Some(f) => ring_push(rings1[i], f),
            None => rings1[i],
        } by {
            assert(rings[i + 1] == match acc[i] {
                Some(f) => ring_push(rings[i], f),
                None => rings[i],
            });
        }
        lemma_publish_run(ps1, acc1, rings1);
        assert(publish_moves(ps[k], ps[k + 1], acc[k]));
        assert(ps[k].sequence_counter < u64::MAX);
        assert(rings[k + 1] == match acc[k] {
            Some(f) => ring_push(rings[k], f),
            None => rings[k],
        });
        let (mf, pl, ts, buf) = choose|max_frame: usize, payload: Seq<u8>, timestamp_ns: u64, buffer_size: int|
            (ps[k + 1], acc[k]) == #[trigger] publish_step(ps[k], max_frame, payload, timestamp_ns, buffer_size);
        assert((ps[k + 1], acc[k]) == publish_step(ps[k], mf, pl, ts, buf));
        assert(ps1.last() == ps[k]);
        assert(rings1.last() == rings[k]);
        assert(acc.last() == acc[k]);
        let fs1 = accepted_frames(acc1);
        let fs = accepted_frames(acc);
        assert(ps1[0] == ps[0] && rings1[0] == rings[0]);
        if let Some(f) = acc[k] {
            assert(fs == fs1.push(f));
            assert(fs.drop_last() =~= fs1);
            assert(fs.last() == f);
            assert forall|i: int| 0 <= i < fs.len() implies (#[trigger] fs[i]).header.sequence == i + 1
                && fs[i].header.stream_id == ps[0].stream_id && fs[i].header.publisher_id
                == ps[0].publisher_id by {
                if i < fs1.len() {
                    assert(fs[i] == fs1[i]);
                }
            }
        } else {
            assert(fs == fs1);
        }
    }
}


/// A publish stamps what it is given: an accepted frame is a DATA frame on
/// the publisher's stream, under its identity, with its next sequence, the
/// timestamp handed to the publish, no extensions and the payload; and the
/// bytes it sends decode, under the same frame limit, to that header.
pub proof fn lemma_publish_stamps(
    p: PublisherState,
    max_frame: usize,
    payload: Seq<u8>,
    timestamp_ns: u64,
    buffer_size: int,
    validate_checksum: bool,
)
    requires
        payload.len() <= 0xFFFF_FFFF,
    ensures
        publish_step(p, max_frame, payload, timestamp_ns, buffer_size).1 matches Some(f) ==> {
            &&& f.header.message_type == MessageType::Data
            &&& f.header.stream_id == p.stream_id
            &&& f.header.publisher_id == p.publisher_id
            &&& f.header.sequence == p.sequence_counter
            &&& f.header.timestamp_ns == timestamp_ns
            &&& f.extension_bytes.len() == 0
            &&& f.payload == payload
            &&& spec_frame_decode(
                max_frame,
                validate_checksum,
                frame_wire_bytes(f),
                crc32c_of(with_zeroed_checksum(frame_wire_bytes(f))),
            ) matches Ok(h) && h.message_type == MessageType::Data && h.stream_id == p.stream_id
                && h.publisher_id == p.publisher_id && h.sequence == p.sequence_counter
                && h.timestamp_ns == timestamp_ns && h.payload_length == payload.len()
        },
{
    if let Some(f) = publish_step(p, max_frame, payload, timestamp_ns, buffer_size).1 {
        lemma_allowed_frames_decode(max_frame, validate_checksum, f, buffer_size);
    }
}

/// A subscriber takes only its own stream: a datagram of another stream,
/// other than a REPLAY_UNAVAILABLE, leaves the receiver as it was,
/// delivers nothing and asks for nothing, whatever its type.
pub proof fn lemma_foreign_stream_ignored(
    r0: ReceiverModel,
    h: FixedHeader,
    ext: Seq<u8>,
    payload: Seq<u8>,
    now: Instant,
    r1: ReceiverModel,
    delivered: Seq<FrameModel>,
    request: Option<ReplayRequestPayload>,
)
    requires
        handles_datagram(r0, h, ext, payload, now, r1, delivered, request),
        h.stream_id != r0.stream_id,
        h.message_type != MessageType::ReplayUnavailable,
    ensures
        r1 == r0,
        delivered.len() == 0,
        request is None,
{
}

} // verus!
