//! The records and status codes of the C interface: the flat header record
//! a C caller reads and writes, the codec handle, and the mapping of
//! outcomes to `0` or a negated protocol error code.

use vstd::prelude::*;
use vstd::slice::slice_to_vec;

use crate::checksum::crc32c_of;
use crate::error::{error_code_value, ErrorCode, RtdpError};
use crate::protocol::frame::{FrameModel, OwnedFrame};
use crate::protocol::header::{message_type_from_value, FixedHeader, FrameFlags, MessageType};
use crate::serialization::{
    encode_fault, frame_wire_bytes, spec_frame_decode, with_zeroed_checksum, CodecConfig,
    FrameCodec,
};

verus! {

/// The fixed header as a flat record of integers.
#[allow(non_camel_case_types)]
#[derive(Debug, Clone, Copy)]
pub struct rtdp_header_t {
    pub magic: u16,
    pub version: u8,
    pub flags: u8,
    pub message_type: u16,
    pub header_length: u16,
    pub stream_id: u64,
    pub sequence: u64,
    pub timestamp_ns: u64,
    pub publisher_id: u64,
    pub payload_length: u32,
    pub checksum: u32,
}

/// A codec handle for C callers.
#[allow(non_camel_case_types)]
pub struct rtdp_codec_t {
    inner: FrameCodec,
}

/// The status reported for a failed protocol check with code `c`: the
/// negated registry value.
pub open spec fn code_status(c: ErrorCode) -> i32 {
    (-(error_code_value(c) as int)) as i32
}

/// The status reported for error `e`: the negated code of a protocol error,
/// `fallback` for any other error.
pub open spec fn error_status_spec(e: RtdpError, fallback: i32) -> i32 {
    match e {
        RtdpError::Protocol { code, .. } => code_status(code),
        _ => fallback,
    }
}

/// The status reported for error `e`, as `error_status_spec` says.
pub fn error_status(e: &RtdpError, fallback: i32) -> (r: i32)
    ensures
        r == error_status_spec(*e, fallback),
{
    match e.code() {
        Some(c) => -(c.as_u16() as i32),
        None => fallback,
    }
}

/// The flat record of header `h`, the message type by its wire value.
pub open spec fn header_record(h: FixedHeader) -> rtdp_header_t {
    rtdp_header_t {
        magic: h.magic,
        version: h.version,
        flags: h.flags.0,
        message_type: crate::protocol::header::message_type_value(h.message_type),
        header_length: h.header_length,
        stream_id: h.stream_id,
        sequence: h.sequence,
        timestamp_ns: h.timestamp_ns,
        publisher_id: h.publisher_id,
        payload_length: h.payload_length,
        checksum: h.checksum,
    }
}

/// The header a record describes, with message type `m` and the payload
/// length taken from the payload actually supplied (truncated to 32 bits).
pub open spec fn record_header(h: rtdp_header_t, m: MessageType, payload_len: nat) -> FixedHeader {
    FixedHeader {
        magic: h.magic,
        version: h.version,
        flags: FrameFlags(h.flags),
        message_type: m,
        header_length: h.header_length,
        stream_id: h.stream_id,
        sequence: h.sequence,
        timestamp_ns: h.timestamp_ns,
        publisher_id: h.publisher_id,
        payload_length: payload_len as u32,
        checksum: h.checksum,
    }
}

impl rtdp_header_t {
    /// The flat record of `h`.
    pub fn from_header(h: &FixedHeader) -> (r: Self)
        ensures
            r == header_record(*h),
    {
        rtdp_header_t {
            magic: h.magic,
            version: h.version,
            flags: h.flags.0,
            message_type: h.message_type.as_u16(),
            header_length: h.header_length,
            stream_id: h.stream_id,
            sequence: h.sequence,
            timestamp_ns: h.timestamp_ns,
            publisher_id: h.publisher_id,
            payload_length: h.payload_length,
            checksum: h.checksum,
        }
    }
}

impl rtdp_codec_t {
    /// The codec behind the handle.
    pub closed spec fn codec(&self) -> FrameCodec {
        self.inner
    }

    /// A handle on a codec with the given limit and checksum setting.
    pub fn create(max_frame_size: usize, validate_checksum: bool) -> (r: Self)
        ensures
            r.codec().max_frame_size() == max_frame_size,
            r.codec().validates_checksum() == validate_checksum,
    {
        rtdp_codec_t { inner: FrameCodec::new(CodecConfig { max_frame_size, validate_checksum }) }
    }

    /// Decodes `buf` in place: the header record and the payload, or the
    /// negated code of the first check that fails. The buffer ends as it
    /// began.
    pub fn decode_packet<'a>(&self, buf: &'a mut [u8]) -> (r: Result<(rtdp_header_t, &'a [u8]), i32>)
        ensures
            final(buf)@ == old(buf)@,
            match spec_frame_decode(
                self.codec().max_frame_size(),
                self.codec().validates_checksum(),
                old(buf)@,
                crc32c_of(with_zeroed_checksum(old(buf)@)),
            ) {
                Ok(h) => r is Ok && r->Ok_0.0 == header_record(h) && r->Ok_0.1@ == old(
                    buf,
                )@.subrange(h.header_length as int, old(buf)@.len() as int),
                Err(f) => r == Err::<(rtdp_header_t, &[u8]), i32>(code_status(f.code)),
            },
    {
        match self.inner.decode(buf) {
            Ok(view) => Ok((rtdp_header_t::from_header(&view.header), view.payload)),
            Err(e) => Err(error_status(&e, -0x0002)),
        }
    }

    /// Encodes a frame with header record `h`, no extensions and `payload`
    /// into the front of `out`: the frame length, or the negated code of an
    /// unknown message type or of the codec's refusal (`out` is then left
    /// as it was).
    pub fn encode_record(&self, h: &rtdp_header_t, payload: &[u8], out: &mut [u8]) -> (r: Result<
        usize,
        i32,
    >)
        ensures
            match message_type_from_value(h.message_type) {
                None => r == Err::<usize, i32>(code_status(ErrorCode::UnsupportedMessageType))
                    && final(out)@ == old(out)@,
                Some(m) => {
                    let f = FrameModel {
                        header: record_header(*h, m, payload@.len()),
                        extension_bytes: Seq::empty(),
                        payload: payload@,
                    };
                    match encode_fault(self.codec().max_frame_size(), f, old(out)@.len() as int) {
                        Some(f) => r == Err::<usize, i32>(code_status(f.code)) && final(out)@ == old(
                            out,
                        )@,
                        None => {
                            let total = 48 + payload@.len();
                            &&& r == Ok::<usize, i32>(total as usize)
                            &&& final(out)@ == frame_wire_bytes(f) + old(out)@.skip(total as int)
                        },
                    }
                },
            },
    {
        let msg_type = match MessageType::from_u16(h.message_type) {
            Ok(m) => m,
            Err(e) => {
                return Err(error_status(&e, -0x0004));
            },
        };
        let header = FixedHeader {
            magic: h.magic,
            version: h.version,
            flags: FrameFlags(h.flags),
            message_type: msg_type,
            header_length: h.header_length,
            stream_id: h.stream_id,
            sequence: h.sequence,
            timestamp_ns: h.timestamp_ns,
            publisher_id: h.publisher_id,
            payload_length: payload.len() as u32,
            checksum: h.checksum,
        };
        let frame = OwnedFrame { header, extension_bytes: Vec::new(), payload: slice_to_vec(payload) };
        assert(frame.model().extension_bytes =~= Seq::<u8>::empty());
        match self.inner.encode(&frame, out) {
            Ok(len) => Ok(len),
            Err(e) => Err(error_status(&e, -0x0002)),
        }
    }
}

} // verus!
