//! The normative 48-byte fixed header.

use vstd::prelude::*;
use vstd::string::StringExecFns;

use crate::error::{
    append_decimal, append_hex, decimal_text, fails_with, fault, hex_text, malformed_fault,
    outcome_matches, ErrorCode, Fault, RtdpError,
};
use crate::wire::{
    be16, be16_bytes, be32, be32_bytes, be64, be64_bytes, lemma_be16_bytes_of, lemma_be16_roundtrip,
    lemma_be32_bytes_of, lemma_be32_roundtrip, lemma_be64_bytes_of, lemma_be64_roundtrip, read_u16_at, read_u32_at, read_u64_at,
    write_u16_at, write_u32_at, write_u64_at,
};

verus! {

/// `"RT"`: the first two bytes of every frame.
pub const MAGIC_RTDP: u16 = 0x5254;

/// The protocol version this library speaks.
pub const RTDP_VERSION_1: u8 = 0x01;

/// Size of the fixed header in bytes.
pub const FIXED_HEADER_SIZE: usize = 48;

/// Default frame-size limit: MTU-safe for Ethernet UDP.
pub const DEFAULT_MAX_FRAME_SIZE: usize = 1472;

/// Frame message types.
#[derive(Debug, Clone, Copy, PartialEq, Eq, Hash, Structural)]
pub enum MessageType {
    Data,
    Heartbeat,
    ReplayRequest,
    ReplayResponse,
    ReplayUnavailable,
    SnapshotRequest,
    SnapshotResponse,
    Error,
    Experimental(u16),
}

/// The wire value of a message type.
pub open spec fn message_type_value(m: MessageType) -> u16 {
    match m {
        MessageType::Data => 0x0001,
        MessageType::Heartbeat => 0x0002,
        MessageType::ReplayRequest => 0x0003,
        MessageType::ReplayResponse => 0x0004,
        MessageType::ReplayUnavailable => 0x0005,
        MessageType::SnapshotRequest => 0x0006,
        MessageType::SnapshotResponse => 0x0007,
        MessageType::Error => 0x0008,
        MessageType::Experimental(v) => v,
    }
}

/// The message type a wire value denotes: one of the eight registered
/// values, or an experimental value in `0xFF00..=0xFFFF`.
pub open spec fn message_type_from_value(v: u16) -> Option<MessageType> {
    if v == 0x0001 {
        Some(MessageType::Data)
    } else if v == 0x0002 {
        Some(MessageType::Heartbeat)
    } else if v == 0x0003 {
        Some(MessageType::ReplayRequest)
    } else if v == 0x0004 {
        Some(MessageType::ReplayResponse)
    } else if v == 0x0005 {
        Some(MessageType::ReplayUnavailable)
    } else if v == 0x0006 {
        Some(MessageType::SnapshotRequest)
    } else if v == 0x0007 {
        Some(MessageType::SnapshotResponse)
    } else if v == 0x0008 {
        Some(MessageType::Error)
    } else if v >= 0xFF00 {
        Some(MessageType::Experimental(v))
    } else {
        None
    }
}

/// A message type that the wire can carry: every type but an experimental
/// one outside the experimental range.
pub open spec fn is_wire_message_type(m: MessageType) -> bool {
    m matches MessageType::Experimental(v) ==> v >= 0xFF00
}

/// What parsing wire value `v` gives: its message type, or
/// `UNSUPPORTED_MESSAGE_TYPE` naming the value in hexadecimal.
pub open spec fn message_type_outcome(v: u16) -> Result<MessageType, Fault> {
    match message_type_from_value(v) {
        Some(m) => Ok(m),
        None => Err(
            fault(ErrorCode::UnsupportedMessageType, "Unknown message type: "@ + hex_text(v as u64, 4)),
        ),
    }
}

/// Reading back the wire value of a message type gives the type, for every
/// type the wire can carry.
pub proof fn lemma_message_type_roundtrip(m: MessageType)
    requires
        is_wire_message_type(m),
    ensures
        message_type_from_value(message_type_value(m)) == Some(m),
{
}

impl MessageType {
    /// Parses a wire value; unknown values are `UNSUPPORTED_MESSAGE_TYPE`.
    pub fn from_u16(val: u16) -> (r: Result<Self, RtdpError>)
        ensures
            outcome_matches(r, message_type_outcome(val)),
    {
        match val {
            0x0001 => Ok(Self::Data),
            0x0002 => Ok(Self::Heartbeat),
            0x0003 => Ok(Self::ReplayRequest),
            0x0004 => Ok(Self::ReplayResponse),
            0x0005 => Ok(Self::ReplayUnavailable),
            0x0006 => Ok(Self::SnapshotRequest),
            0x0007 => Ok(Self::SnapshotResponse),
            0x0008 => Ok(Self::Error),
            0xFF00..=0xFFFF => Ok(Self::Experimental(val)),
            _ => {
                let mut detail = String::from_str("Unknown message type: ");
                append_hex(&mut detail, val as u64, 4);
                Err(RtdpError::Protocol { code: ErrorCode::UnsupportedMessageType, detail })
            },
        }
    }

    /// The wire value of this message type.
    pub fn as_u16(&self) -> (r: u16)
        ensures
            r == message_type_value(*self),
    {
        match self {
            Self::Data => 0x0001,
            Self::Heartbeat => 0x0002,
            Self::ReplayRequest => 0x0003,
            Self::ReplayResponse => 0x0004,
            Self::ReplayUnavailable => 0x0005,
            Self::SnapshotRequest => 0x0006,
            Self::SnapshotResponse => 0x0007,
            Self::Error => 0x0008,
            Self::Experimental(v) => *v,
        }
    }
}

/// The flags byte of the fixed header.
#[derive(Debug, Clone, Copy, PartialEq, Eq, Default, Structural)]
pub struct FrameFlags(pub u8);

impl FrameFlags {
    pub const FRAGMENTED: u8 = 1;
    pub const LAST_FRAGMENT: u8 = 2;
    pub const COMPRESSED: u8 = 4;

    /// Bit 0: the frame is a fragment.
    pub fn is_fragmented(&self) -> (r: bool)
        ensures
            r == (self.0 & 1u8 != 0),
    {
        (self.0 & Self::FRAGMENTED) != 0
    }

    /// Bit 1: the frame is the last fragment.
    pub fn is_last_fragment(&self) -> (r: bool)
        ensures
            r == (self.0 & 2u8 != 0),
    {
        (self.0 & Self::LAST_FRAGMENT) != 0
    }

    /// Bit 2: the payload is compressed.
    pub fn is_compressed(&self) -> (r: bool)
        ensures
            r == (self.0 & 4u8 != 0),
    {
        (self.0 & Self::COMPRESSED) != 0
    }
}

/// The normative 48-byte fixed header.
#[derive(Debug, Clone, Copy, PartialEq, Eq, Structural)]
pub struct FixedHeader {
    pub magic: u16,
    pub version: u8,
    pub flags: FrameFlags,
    pub message_type: MessageType,
    pub header_length: u16,
    pub stream_id: u64,
    pub sequence: u64,
    pub timestamp_ns: u64,
    pub publisher_id: u64,
    pub payload_length: u32,
    pub checksum: u32,
}

/// The 48 wire bytes of a header, in field order, big-endian.
pub open spec fn header_bytes(h: FixedHeader) -> Seq<u8> {
    be16_bytes(h.magic) + seq![h.version] + seq![h.flags.0] + be16_bytes(
        message_type_value(h.message_type),
    ) + be16_bytes(h.header_length) + be64_bytes(h.stream_id) + be64_bytes(h.sequence)
        + be64_bytes(h.timestamp_ns) + be64_bytes(h.publisher_id) + be32_bytes(h.payload_length)
        + be32_bytes(h.checksum)
}

/// The header whose fields the first 48 bytes of `s` hold, with the
/// message type already parsed.
pub open spec fn header_fields(s: Seq<u8>, message_type: MessageType) -> FixedHeader {
    FixedHeader {
        magic: be16(s, 0),
        version: s[2],
        flags: FrameFlags(s[3]),
        message_type,
        header_length: be16(s, 6),
        stream_id: be64(s, 8),
        sequence: be64(s, 16),
        timestamp_ns: be64(s, 24),
        publisher_id: be64(s, 32),
        payload_length: be32(s, 40),
        checksum: be32(s, 44),
    }
}

/// What decoding a fixed header from `s` gives: too short or a wrong magic
/// is `MALFORMED_FRAME`, a wrong version `VERSION_MISMATCH`, an unknown
/// message type `UNSUPPORTED_MESSAGE_TYPE`; each names the offending value.
pub open spec fn spec_header_decode(s: Seq<u8>) -> Result<FixedHeader, Fault> {
    if s.len() < 48 {
        Err(
            malformed_fault(
                "Packet length "@ + decimal_text(s.len() as u64)
                    + " is less than 48-byte fixed header"@,
            ),
        )
    } else if be16(s, 0) != MAGIC_RTDP {
        Err(
            malformed_fault(
                "Invalid magic "@ + hex_text(be16(s, 0) as u64, 4) + ", expected 0x5254"@,
            ),
        )
    } else if s[2] != RTDP_VERSION_1 {
        Err(
            fault(
                ErrorCode::VersionMismatch,
                "Unsupported protocol version "@ + hex_text(s[2] as u64, 2) + ", expected 0x01"@,
            ),
        )
    } else {
        match message_type_outcome(be16(s, 4)) {
            Ok(m) => Ok(header_fields(s, m)),
            Err(f) => Err(f),
        }
    }
}

/// A header that decodes: right magic and version, and a message type the
/// wire can carry.
pub open spec fn is_well_formed_header(h: FixedHeader) -> bool {
    &&& h.magic == MAGIC_RTDP
    &&& h.version == RTDP_VERSION_1
    &&& is_wire_message_type(h.message_type)
}

impl FixedHeader {
    /// A DATA header with zero flags and a zero checksum.
    pub fn new_data(
        stream_id: u64,
        sequence: u64,
        timestamp_ns: u64,
        publisher_id: u64,
        payload_length: u32,
        header_length: u16,
    ) -> (r: Self)
        ensures
            r == (FixedHeader {
                magic: MAGIC_RTDP,
                version: RTDP_VERSION_1,
                flags: FrameFlags(0),
                message_type: MessageType::Data,
                header_length,
                stream_id,
                sequence,
                timestamp_ns,
                publisher_id,
                payload_length,
                checksum: 0,
            }),
    {
        Self {
            magic: MAGIC_RTDP,
            version: RTDP_VERSION_1,
            flags: FrameFlags(0),
            message_type: MessageType::Data,
            header_length,
            stream_id,
            sequence,
            timestamp_ns,
            publisher_id,
            payload_length,
            checksum: 0,
        }
    }

    /// Writes the 48 header bytes to the front of `dst`; a shorter `dst` is
    /// `MALFORMED_FRAME` and is left as it was.
    #[verifier::rlimit(30)]
    pub fn encode(&self, dst: &mut [u8]) -> (r: Result<(), RtdpError>)
        ensures
            old(dst)@.len() < 48 ==> fails_with(
                r,
                malformed_fault("Destination buffer too short for fixed header"@),
            ) && final(dst)@ == old(dst)@,
            old(dst)@.len() >= 48 ==> r is Ok && final(dst)@ == header_bytes(*self) + old(
                dst,
            )@.skip(48),
    {
        if dst.len() < FIXED_HEADER_SIZE {
            return Err(
                RtdpError::malformed(
                    String::from_str("Destination buffer too short for fixed header"),
                ),
            );
        }
        let ghost d0 = dst@;
        write_u16_at(dst, 0, self.magic);
        dst[2] = self.version;
        dst[3] = self.flags.0;
        write_u16_at(dst, 4, self.message_type.as_u16());
        write_u16_at(dst, 6, self.header_length);
        write_u64_at(dst, 8, self.stream_id);
        write_u64_at(dst, 16, self.sequence);
        write_u64_at(dst, 24, self.timestamp_ns);
        write_u64_at(dst, 32, self.publisher_id);
        write_u32_at(dst, 40, self.payload_length);
        write_u32_at(dst, 44, self.checksum);
        assert(dst@ =~= header_bytes(*self) + d0.skip(48));
        Ok(())
    }

    /// Decodes a fixed header from the first 48 bytes of `src`, as
    /// `spec_header_decode` says.
    pub fn decode(src: &[u8]) -> (r: Result<Self, RtdpError>)
        ensures
            outcome_matches(r, spec_header_decode(src@)),
    {
        if src.len() < FIXED_HEADER_SIZE {
            let mut detail = String::from_str("Packet length ");
            append_decimal(&mut detail, src.len() as u64);
            detail.append(" is less than 48-byte fixed header");
            return Err(RtdpError::malformed(detail));
        }
        let magic = read_u16_at(src, 0);
        let version = src[2];
        let flags = FrameFlags(src[3]);
        let raw_msg_type = read_u16_at(src, 4);
        let header_length = read_u16_at(src, 6);
        let stream_id = read_u64_at(src, 8);
        let sequence = read_u64_at(src, 16);
        let timestamp_ns = read_u64_at(src, 24);
        let publisher_id = read_u64_at(src, 32);
        let payload_length = read_u32_at(src, 40);
        let checksum = read_u32_at(src, 44);

        if magic != MAGIC_RTDP {
            let mut detail = String::from_str("Invalid magic ");
            append_hex(&mut detail, magic as u64, 4);
            detail.append(", expected 0x5254");
            return Err(RtdpError::malformed(detail));
        }
        if version != RTDP_VERSION_1 {
            let mut detail = String::from_str("Unsupported protocol version ");
            append_hex(&mut detail, version as u64, 2);
            detail.append(", expected 0x01");
            return Err(RtdpError::version_mismatch(detail));
        }
        let message_type = MessageType::from_u16(raw_msg_type)?;
        Ok(Self {
            magic,
            version,
            flags,
            message_type,
            header_length,
            stream_id,
            sequence,
            timestamp_ns,
            publisher_id,
            payload_length,
            checksum,
        })
    }
}


/// Decoding the bytes of a well-formed header gives the header back, whatever
/// bytes follow it.
pub proof fn lemma_header_decode_encode(h: FixedHeader, rest: Seq<u8>)
    requires
        is_well_formed_header(h),
    ensures
        spec_header_decode(header_bytes(h) + rest) == Ok::<FixedHeader, Fault>(h),
{
    let s = header_bytes(h) + rest;
    let mv = message_type_value(h.message_type);
    lemma_be16_roundtrip(h.magic);
    lemma_be16_roundtrip(mv);
    lemma_be16_roundtrip(h.header_length);
    lemma_be64_roundtrip(h.stream_id);
    lemma_be64_roundtrip(h.sequence);
    lemma_be64_roundtrip(h.timestamp_ns);
    lemma_be64_roundtrip(h.publisher_id);
    lemma_be32_roundtrip(h.payload_length);
    lemma_be32_roundtrip(h.checksum);
    lemma_message_type_roundtrip(h.message_type);
    assert(s.subrange(0, 2) =~= be16_bytes(h.magic));
    assert(s.subrange(4, 6) =~= be16_bytes(mv));
    assert(s.subrange(6, 8) =~= be16_bytes(h.header_length));
    assert(s.subrange(8, 16) =~= be64_bytes(h.stream_id));
    assert(s.subrange(16, 24) =~= be64_bytes(h.sequence));
    assert(s.subrange(24, 32) =~= be64_bytes(h.timestamp_ns));
    assert(s.subrange(32, 40) =~= be64_bytes(h.publisher_id));
    assert(s.subrange(40, 44) =~= be32_bytes(h.payload_length));
    assert(s.subrange(44, 48) =~= be32_bytes(h.checksum));
    assert(be16(s, 0) == be16(s.subrange(0, 2), 0));
    assert(be16(s, 4) == be16(s.subrange(4, 6), 0));
    assert(be16(s, 6) == be16(s.subrange(6, 8), 0));
    assert(be64(s, 8) == be64(s.subrange(8, 16), 0));
    assert(be64(s, 16) == be64(s.subrange(16, 24), 0));
    assert(be64(s, 24) == be64(s.subrange(24, 32), 0));
    assert(be64(s, 32) == be64(s.subrange(32, 40), 0));
    assert(be32(s, 40) == be32(s.subrange(40, 44), 0));
    assert(be32(s, 44) == be32(s.subrange(44, 48), 0));
    assert(s[2] == h.version);
    assert(s[3] == h.flags.0);
    assert(header_fields(s, h.message_type) == h);
}

/// A header that decodes from some bytes encodes back to exactly those bytes.
pub proof fn lemma_header_encode_decode(s: Seq<u8>)
    requires
        spec_header_decode(s) is Ok,
    ensures
        header_bytes(spec_header_decode(s)->Ok_0) == s.take(48),
{
    let h = spec_header_decode(s)->Ok_0;
    lemma_be16_bytes_of(s, 0);
    lemma_be16_bytes_of(s, 4);
    lemma_be16_bytes_of(s, 6);
    lemma_be64_bytes_of(s, 8);
    lemma_be64_bytes_of(s, 16);
    lemma_be64_bytes_of(s, 24);
    lemma_be64_bytes_of(s, 32);
    lemma_be32_bytes_of(s, 40);
    lemma_be32_bytes_of(s, 44);
    let v = be16(s, 4);
    assert(message_type_value(h.message_type) == v);
    assert(header_bytes(h) =~= s.take(48));
}

} // verus!
