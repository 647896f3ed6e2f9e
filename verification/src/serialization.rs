//! The frame codec: strict validation on decode, CRC-32C on encode.

use vstd::prelude::*;
use vstd::string::StringExecFns;

use crate::checksum::{crc32c, crc32c_of};
use crate::error::{
    append_decimal, append_hex, checksum_fault, decimal_text, fails_with, fault,
    frame_too_large_fault, hex_text, malformed_fault, ErrorCode, Fault, RtdpError,
};
use crate::protocol::extensions::{extension_scan, is_known_extension, ExtensionIterator};
use crate::protocol::frame::{FrameModel, FrameView, OwnedFrame};
use crate::protocol::header::{
    header_bytes, header_fields, is_well_formed_header, lemma_header_decode_encode,
    lemma_header_encode_decode,
    message_type_from_value, message_type_outcome, message_type_value, spec_header_decode,
    FixedHeader,
    MessageType, DEFAULT_MAX_FRAME_SIZE, FIXED_HEADER_SIZE, MAGIC_RTDP, RTDP_VERSION_1,
};
use crate::wire::{
    be16, be32, be32_bytes, be64, lemma_be32_bytes_of, read_u16_at, read_u32_at, read_u64_at,
    splice, write_u32_at,
};

verus! {

/// Codec limits.
pub struct CodecConfig {
    pub max_frame_size: usize,
    pub validate_checksum: bool,
}

impl Default for CodecConfig {
    fn default() -> (r: Self)
        ensures
            r.max_frame_size == DEFAULT_MAX_FRAME_SIZE,
            r.validate_checksum,
    {
        Self { max_frame_size: DEFAULT_MAX_FRAME_SIZE, validate_checksum: true }
    }
}

/// `p` with its checksum field (bytes 44..48) zeroed.
pub open spec fn with_zeroed_checksum(p: Seq<u8>) -> Seq<u8> {
    splice(p, 44, seq![0u8, 0u8, 0u8, 0u8])
}

/// The first structural fault of a received packet, in the order the
/// protocol checks them: length below 48 (`MALFORMED_FRAME`), length above
/// the limit (`FRAME_TOO_LARGE`), magic (`MALFORMED_FRAME`), version
/// (`VERSION_MISMATCH`), header length below 48, unaligned or beyond the
/// packet (`MALFORMED_FRAME`), header plus payload length not the packet
/// length (`MALFORMED_FRAME`), then the extension area. Each names the
/// offending values.
pub open spec fn frame_structure_fault(max_frame_size: usize, p: Seq<u8>) -> Option<Fault> {
    let n = p.len() as u64;
    if p.len() < 48 {
        Some(
            malformed_fault(
                "Frame length "@ + decimal_text(n) + " is less than minimum 48-byte header"@,
            ),
        )
    } else if p.len() > max_frame_size {
        Some(frame_too_large_fault(p.len() as usize, max_frame_size))
    } else if be16(p, 0) != MAGIC_RTDP {
        Some(
            malformed_fault(
                "Invalid magic "@ + hex_text(be16(p, 0) as u64, 4) + ", expected 0x5254"@,
            ),
        )
    } else if p[2] != RTDP_VERSION_1 {
        Some(
            fault(
                ErrorCode::VersionMismatch,
                "Unsupported protocol version "@ + hex_text(p[2] as u64, 2) + ", expected 0x01"@,
            ),
        )
    } else {
        let hl = be16(p, 6);
        let pl = be32(p, 40);
        if hl < 48 {
            Some(malformed_fault("header_length "@ + decimal_text(hl as u64) + " is below minimum 48"@))
        } else if hl % 4 != 0 {
            Some(
                malformed_fault(
                    "header_length "@ + decimal_text(hl as u64) + " is not 4-byte aligned"@,
                ),
            )
        } else if hl > p.len() {
            Some(
                malformed_fault(
                    "header_length "@ + decimal_text(hl as u64) + " exceeds total packet length "@
                        + decimal_text(n),
                ),
            )
        } else if hl + pl != p.len() {
            Some(
                malformed_fault(
                    "Frame size mismatch: header ("@ + decimal_text(hl as u64) + ") + payload ("@
                        + decimal_text(pl as u64) + ") != received packet ("@ + decimal_text(n)
                        + ")"@,
                ),
            )
        } else if hl > 48 {
            extension_scan(p.subrange(48, hl as int), 0)
        } else {
            None
        }
    }
}

/// The message rule of each message type: HEARTBEAT carries nothing,
/// REPLAY_REQUEST and REPLAY_UNAVAILABLE exactly 24 bytes (a request's
/// range must not run backwards: `REPLAY_RANGE_INVALID`), REPLAY_RESPONSE
/// at least the 8-byte request id; the snapshot messages are reserved and
/// refused (`UNSUPPORTED_MESSAGE_TYPE`). Each fault names the offending
/// values.
pub open spec fn payload_fault(m: MessageType, p: Seq<u8>, hl: int, pl: int) -> Option<Fault> {
    let got = decimal_text(pl as u64);
    match m {
        MessageType::Heartbeat => if pl != 0 {
            Some(malformed_fault("HEARTBEAT must have 0-length payload, got "@ + got))
        } else {
            None
        },
        MessageType::ReplayRequest => if pl != 24 {
            Some(malformed_fault("REPLAY_REQUEST payload must be exactly 24 bytes, got "@ + got))
        } else if be64(p, hl + 8) > be64(p, hl + 16) {
            Some(
                fault(
                    ErrorCode::ReplayRangeInvalid,
                    "REPLAY_REQUEST from_seq ("@ + decimal_text(be64(p, hl + 8)) + ") > to_seq ("@
                        + decimal_text(be64(p, hl + 16)) + ")"@,
                ),
            )
        } else {
            None
        },
        MessageType::ReplayUnavailable => if pl != 24 {
            Some(
                malformed_fault("REPLAY_UNAVAILABLE payload must be exactly 24 bytes, got "@ + got),
            )
        } else {
            None
        },
        MessageType::ReplayResponse => if pl < 8 {
            Some(
                malformed_fault(
                    "REPLAY_RESPONSE payload must be at least 8 bytes (request_id), got "@ + got,
                ),
            )
        } else {
            None
        },
        MessageType::SnapshotRequest | MessageType::SnapshotResponse => Some(
            fault(
                ErrorCode::UnsupportedMessageType,
                "Message type "@ + hex_text(message_type_value(m) as u64, 4)
                    + " is reserved and not supported in v0.1"@,
            ),
        ),
        _ => None,
    }
}

/// What decoding packet `p` gives, when `calculated_checksum` is the CRC-32C
/// of `p` with its checksum field zeroed: the structural checks, then the
/// checksum (`CHECKSUM_FAILED`, when checking is on), then the message type
/// (`UNSUPPORTED_MESSAGE_TYPE`), then the payload rule; success gives the
/// header.
pub open spec fn spec_frame_decode(
    max_frame_size: usize,
    validate_checksum: bool,
    p: Seq<u8>,
    calculated_checksum: u32,
) -> Result<FixedHeader, Fault> {
    match frame_structure_fault(max_frame_size, p) {
        Some(f) => Err(f),
        None => if validate_checksum && calculated_checksum != be32(p, 44) {
            Err(checksum_fault(be32(p, 44), calculated_checksum))
        } else {
            match message_type_outcome(be16(p, 4)) {
                Err(f) => Err(f),
                Ok(m) => match payload_fault(m, p, be16(p, 6) as int, be32(p, 40) as int) {
                    Some(f) => Err(f),
                    None => Ok(header_fields(p, m)),
                },
            }
        },
    }
}

/// A decode result agrees with the modelled outcome on packet `p`: the
/// header, the extension area `p[48..header_length]` and the payload
/// `p[header_length..]`, or the modelled error code.
pub open spec fn decoded_as(
    r: Result<FrameView, RtdpError>,
    m: Result<FixedHeader, Fault>,
    p: Seq<u8>,
) -> bool {
    match m {
        Ok(h) => r is Ok && {
            let v = r->Ok_0;
            &&& v.header == h
            &&& v.extension_bytes@ == p.subrange(48, h.header_length as int)
            &&& v.payload@ == p.subrange(h.header_length as int, p.len() as int)
        },
        Err(f) => fails_with(r, f),
    }
}

/// The header an encoded frame carries: the frame's header with the header
/// length, payload length (each truncated to its field width) and a zero
/// checksum filled in.
pub open spec fn encoded_header(f: FrameModel) -> FixedHeader {
    FixedHeader {
        header_length: (48 + f.extension_bytes.len()) as u16,
        payload_length: f.payload.len() as u32,
        checksum: 0,
        ..f.header
    }
}

/// The frame bytes with a zero checksum field.
pub open spec fn frame_body(f: FrameModel) -> Seq<u8> {
    header_bytes(encoded_header(f)) + f.extension_bytes + f.payload
}

/// The frame bytes as sent: the body with its CRC-32C in the checksum field.
pub open spec fn frame_wire_bytes(f: FrameModel) -> Seq<u8> {
    splice(frame_body(f), 44, be32_bytes(crc32c_of(frame_body(f))))
}

/// Why a frame cannot be encoded into `dst_len` bytes, if it cannot: an
/// extension area that leaves the header unaligned (`MALFORMED_FRAME`), a
/// frame above the limit (`FRAME_TOO_LARGE`, its size shown capped at
/// `usize::MAX`), a destination too short (`MALFORMED_FRAME`, naming both
/// sizes).
pub open spec fn encode_fault(max_frame_size: usize, f: FrameModel, dst_len: int) -> Option<Fault> {
    let total = 48 + f.extension_bytes.len() + f.payload.len();
    if (48 + f.extension_bytes.len()) % 4 != 0 {
        Some(malformed_fault("Extensions length makes header unaligned to 4 bytes"@))
    } else if total > max_frame_size {
        Some(
            frame_too_large_fault(
                if total <= usize::MAX {
                    total as usize
                } else {
                    usize::MAX
                },
                max_frame_size,
            ),
        )
    } else if dst_len < total {
        Some(
            malformed_fault(
                "Destination buffer size "@ + decimal_text(dst_len as u64) + " < required "@
                    + decimal_text(total as u64),
            ),
        )
    } else {
        None
    }
}

/// The payload rule of message type `m` holds of `payload`.
pub open spec fn payload_rule_holds(m: MessageType, payload: Seq<u8>) -> bool {
    payload_fault(m, payload, 0, payload.len() as int) is None
}

/// A frame the codec can encode decodes back: the encoded bytes pass every
/// check (the checksum among them) and give the frame's header with its
/// lengths and checksum filled in, its extension bytes and its payload.
/// The frame's header must be well formed, its lengths must fit their
/// header fields, its extension area must be valid and its payload must
/// obey its message type's rule.
pub proof fn lemma_codec_roundtrip(
    max_frame_size: usize,
    validate_checksum: bool,
    f: FrameModel,
    dst_len: int,
)
    requires
        is_well_formed_header(f.header),
        encode_fault(max_frame_size, f, dst_len) is None,
        48 + f.extension_bytes.len() <= 0xFFFF,
        f.payload.len() <= 0xFFFF_FFFF,
        f.extension_bytes.len() > 0 ==> extension_scan(f.extension_bytes, 0) is None,
        payload_rule_holds(f.header.message_type, f.payload),
    ensures
        ({
            let w = frame_wire_bytes(f);
            let hl = 48 + f.extension_bytes.len() as int;
            &&& spec_frame_decode(
                max_frame_size,
                validate_checksum,
                w,
                crc32c_of(with_zeroed_checksum(w)),
            ) == Ok::<FixedHeader, Fault>(
                FixedHeader { checksum: crc32c_of(frame_body(f)), ..encoded_header(f) },
            )
            &&& w.subrange(48, hl) == f.extension_bytes
            &&& w.subrange(hl, w.len() as int) == f.payload
        }),
{
    let w = frame_wire_bytes(f);
    let hl = 48 + f.extension_bytes.len() as int;
    lemma_wire_facts(f);
    lemma_zeroed_wire_is_body(f);
    assert(extension_scan(w.subrange(48, hl), 0) == extension_scan(f.extension_bytes, 0));
}

/// The wire format is canonical: a packet that decodes with checksums
/// checked is the encoding of the frame it carries. That frame encodes,
/// into a buffer of the packet's size, back to exactly the packet.
pub proof fn lemma_decoded_packet_reencodes(max_frame_size: usize, p: Seq<u8>)
    requires
        spec_frame_decode(max_frame_size, true, p, crc32c_of(with_zeroed_checksum(p))) is Ok,
    ensures
        ({
            let h = spec_frame_decode(
                max_frame_size,
                true,
                p,
                crc32c_of(with_zeroed_checksum(p)),
            )->Ok_0;
            let f = FrameModel {
                header: h,
                extension_bytes: p.subrange(48, h.header_length as int),
                payload: p.subrange(h.header_length as int, p.len() as int),
            };
            &&& encode_fault(max_frame_size, f, p.len() as int) is None
            &&& frame_wire_bytes(f) == p
        }),
{
    let crc = crc32c_of(with_zeroed_checksum(p));
    let h = spec_frame_decode(max_frame_size, true, p, crc)->Ok_0;
    let m = h.message_type;
    assert(message_type_from_value(be16(p, 4)) == Some(m));
    assert(h == header_fields(p, m));
    let hl = h.header_length as int;
    let f = FrameModel {
        header: h,
        extension_bytes: p.subrange(48, hl),
        payload: p.subrange(hl, p.len() as int),
    };
    assert(spec_header_decode(p) == Ok::<FixedHeader, Fault>(h));
    lemma_header_encode_decode(p);
    let h0 = encoded_header(f);
    assert(h0 == FixedHeader { checksum: 0, ..h });
    assert(be32_bytes(0u32) =~= seq![0u8, 0u8, 0u8, 0u8]) by {
        assert((0u32 >> 24u32) & 0xffu32 == 0u32 && (0u32 >> 16u32) & 0xffu32 == 0u32 && (0u32
            >> 8u32) & 0xffu32 == 0u32 && 0u32 & 0xffu32 == 0u32) by (bit_vector);
    }
    assert(header_bytes(h).take(44) =~= p.take(44));
    assert(header_bytes(h0) =~= header_bytes(h).take(44) + be32_bytes(0u32));
    let body = frame_body(f);
    assert(body =~= with_zeroed_checksum(p));
    lemma_be32_bytes_of(p, 44);
    assert(frame_wire_bytes(f) =~= p);
}

/// The fields a decoder reads from an encoded frame.
#[verifier::rlimit(30)]
proof fn lemma_wire_facts(f: FrameModel)
    requires
        is_well_formed_header(f.header),
        48 + f.extension_bytes.len() <= 0xFFFF,
        f.payload.len() <= 0xFFFF_FFFF,
    ensures
        ({
            let w = frame_wire_bytes(f);
            let hl = 48 + f.extension_bytes.len() as int;
            let m = f.header.message_type;
            let hf = FixedHeader { checksum: crc32c_of(frame_body(f)), ..encoded_header(f) };
            &&& w.len() == hl + f.payload.len()
            &&& be16(w, 0) == MAGIC_RTDP
            &&& w[2] == RTDP_VERSION_1
            &&& message_type_from_value(be16(w, 4)) == Some(m)
            &&& be16(w, 6) == hl
            &&& be32(w, 40) == f.payload.len()
            &&& be32(w, 44) == crc32c_of(frame_body(f))
            &&& header_fields(w, m) == hf
            &&& w.subrange(48, hl) == f.extension_bytes
            &&& w.subrange(hl, w.len() as int) == f.payload
            &&& f.payload.len() >= 24 ==> be64(w, hl + 8) == be64(f.payload, 8) && be64(w, hl + 16)
                == be64(f.payload, 16)
        }),
{
    let hf = FixedHeader { checksum: crc32c_of(frame_body(f)), ..encoded_header(f) };
    let w = frame_wire_bytes(f);
    let ext = f.extension_bytes;
    let pay = f.payload;
    let hl = 48 + ext.len() as int;
    lemma_wire_layout(f);
    lemma_header_decode_encode(hf, ext + pay);
    assert(w.subrange(48, hl) =~= ext);
    assert(w.subrange(hl, w.len() as int) =~= pay);
    if pay.len() >= 24 {
        assert(be64(w, hl + 8) == be64(pay, 8));
        assert(be64(w, hl + 16) == be64(pay, 16));
    }
}

/// The bytes of an encoded frame: its final header, then extension bytes
/// and payload.
proof fn lemma_wire_layout(f: FrameModel)
    ensures
        frame_wire_bytes(f) == header_bytes(
            FixedHeader { checksum: crc32c_of(frame_body(f)), ..encoded_header(f) },
        ) + f.extension_bytes + f.payload,
{
    let hf = FixedHeader { checksum: crc32c_of(frame_body(f)), ..encoded_header(f) };
    let he = encoded_header(f);
    assert(header_bytes(he).subrange(0, 44) =~= header_bytes(hf).subrange(0, 44));
    assert(frame_wire_bytes(f) =~= header_bytes(hf) + f.extension_bytes + f.payload);
}

/// Zeroing the checksum field of an encoded frame gives back the body the
/// checksum was computed over.
proof fn lemma_zeroed_wire_is_body(f: FrameModel)
    ensures
        with_zeroed_checksum(frame_wire_bytes(f)) == frame_body(f),
{
    assert(be32_bytes(0u32) =~= seq![0u8, 0u8, 0u8, 0u8]) by {
        assert((0u32 >> 24u32) & 0xffu32 == 0u32 && (0u32 >> 16u32) & 0xffu32 == 0u32 && (0u32
            >> 8u32) & 0xffu32 == 0u32 && 0u32 & 0xffu32 == 0u32) by (bit_vector);
    }
    let body = frame_body(f);
    assert(body.subrange(44, 48) =~= be32_bytes(0u32));
    assert(with_zeroed_checksum(frame_wire_bytes(f)) =~= body);
}

/// Decodes and encodes RTDP/1 frames under a configuration.
pub struct FrameCodec {
    config: CodecConfig,
}

impl FrameCodec {
    /// The codec's frame-size limit.
    pub closed spec fn max_frame_size(&self) -> usize {
        self.config.max_frame_size
    }

    /// Whether the codec verifies checksums on decode.
    pub closed spec fn validates_checksum(&self) -> bool {
        self.config.validate_checksum
    }

    /// A codec with the given configuration.
    pub fn new(config: CodecConfig) -> (r: Self)
        ensures
            r.max_frame_size() == config.max_frame_size,
            r.validates_checksum() == config.validate_checksum,
    {
        Self { config }
    }

    /// A codec with the default configuration (1472-byte limit, checksums on).
    pub fn with_default_config() -> (r: Self)
        ensures
            r.max_frame_size() == DEFAULT_MAX_FRAME_SIZE,
            r.validates_checksum(),
    {
        Self::new(CodecConfig::default())
    }

    /// The structural checks, in protocol order, up to and including the
    /// extension area.
    #[verifier::loop_isolation(false)]
    fn check_structure(&self, packet: &[u8]) -> (r: Result<(), RtdpError>)
        ensures
            match frame_structure_fault(self.config.max_frame_size, packet@) {
                Some(f) => fails_with(r, f),
                None => r is Ok,
            },
    {
        if packet.len() < FIXED_HEADER_SIZE {
            let mut detail = String::from_str("Frame length ");
            append_decimal(&mut detail, packet.len() as u64);
            detail.append(" is less than minimum 48-byte header");
            return Err(RtdpError::malformed(detail));
        }
        if packet.len() > self.config.max_frame_size {
            return Err(RtdpError::frame_too_large(packet.len(), self.config.max_frame_size));
        }
        let magic = read_u16_at(packet, 0);
        if magic != MAGIC_RTDP {
            let mut detail = String::from_str("Invalid magic ");
            append_hex(&mut detail, magic as u64, 4);
            detail.append(", expected 0x5254");
            return Err(RtdpError::malformed(detail));
        }
        let version = packet[2];
        if version != RTDP_VERSION_1 {
            let mut detail = String::from_str("Unsupported protocol version ");
            append_hex(&mut detail, version as u64, 2);
            detail.append(", expected 0x01");
            return Err(RtdpError::version_mismatch(detail));
        }
        let header_length = read_u16_at(packet, 6) as usize;
        if header_length < FIXED_HEADER_SIZE {
            let mut detail = String::from_str("header_length ");
            append_decimal(&mut detail, header_length as u64);
            detail.append(" is below minimum 48");
            return Err(RtdpError::malformed(detail));
        }
        if header_length % 4 != 0 {
            let mut detail = String::from_str("header_length ");
            append_decimal(&mut detail, header_length as u64);
            detail.append(" is not 4-byte aligned");
            return Err(RtdpError::malformed(detail));
        }
        if header_length > packet.len() {
            let mut detail = String::from_str("header_length ");
            append_decimal(&mut detail, header_length as u64);
            detail.append(" exceeds total packet length ");
            append_decimal(&mut detail, packet.len() as u64);
            return Err(RtdpError::malformed(detail));
        }
        let payload_length = read_u32_at(packet, 40);
        if header_length as u64 + payload_length as u64 != packet.len() as u64 {
            let mut detail = String::from_str("Frame size mismatch: header (");
            append_decimal(&mut detail, header_length as u64);
            detail.append(") + payload (");
            append_decimal(&mut detail, payload_length as u64);
            detail.append(") != received packet (");
            append_decimal(&mut detail, packet.len() as u64);
            detail.append(")");
            return Err(RtdpError::malformed(detail));
        }
        if header_length > FIXED_HEADER_SIZE {
            let ext_slice = &packet[FIXED_HEADER_SIZE..header_length];
            let mut iter = ExtensionIterator::new(ext_slice);
            loop
                invariant
                    iter.data() == ext_slice@,
                    0 <= iter.offset(),
                    extension_scan(ext_slice@, 0) == extension_scan(ext_slice@, iter.offset()),
                decreases ext_slice@.len() - iter.offset(),
            {
                let ghost off = iter.offset();
                match iter.next() {
                    None => {
                        break;
                    },
                    Some(Err(e)) => {
                        return Err(e);
                    },
                    Some(Ok(ext)) => {
                        if ext.is_critical && !is_known_extension(ext.ext_type) {
                            return Err(RtdpError::unsupported_extension(ext.ext_type));
                        }
                    },
                }
            }
        }
        Ok(())
    }

    /// The checks after the checksum: message type and payload rule.
    fn finish_decode<'a>(&self, packet: &'a [u8], calculated_checksum: u32) -> (r: Result<
        FrameView<'a>,
        RtdpError,
    >)
        requires
            frame_structure_fault(self.config.max_frame_size, packet@) is None,
        ensures
            decoded_as(
                r,
                spec_frame_decode(
                    self.config.max_frame_size,
                    self.config.validate_checksum,
                    packet@,
                    calculated_checksum,
                ),
                packet@,
            ),
    {
        let header_length = read_u16_at(packet, 6) as usize;
        let payload_length = read_u32_at(packet, 40) as usize;
        let wire_checksum = read_u32_at(packet, 44);
        if self.config.validate_checksum && calculated_checksum != wire_checksum {
            return Err(RtdpError::checksum_failed(wire_checksum, calculated_checksum));
        }
        let header = FixedHeader::decode(&packet[0..FIXED_HEADER_SIZE])?;
        assert(header == header_fields(packet@, header.message_type));
        match header.message_type {
            MessageType::Heartbeat => {
                if payload_length != 0 {
                    let mut detail = String::from_str("HEARTBEAT must have 0-length payload, got ");
                    append_decimal(&mut detail, payload_length as u64);
                    return Err(RtdpError::malformed(detail));
                }
            },
            MessageType::ReplayRequest => {
                if payload_length != 24 {
                    let mut detail = String::from_str(
                        "REPLAY_REQUEST payload must be exactly 24 bytes, got ",
                    );
                    append_decimal(&mut detail, payload_length as u64);
                    return Err(RtdpError::malformed(detail));
                }
                let from_seq = read_u64_at(packet, header_length + 8);
                let to_seq = read_u64_at(packet, header_length + 16);
                if from_seq > to_seq {
                    let mut detail = String::from_str("REPLAY_REQUEST from_seq (");
                    append_decimal(&mut detail, from_seq);
                    detail.append(") > to_seq (");
                    append_decimal(&mut detail, to_seq);
                    detail.append(")");
                    return Err(RtdpError::Protocol { code: ErrorCode::ReplayRangeInvalid, detail });
                }
            },
            MessageType::ReplayUnavailable => {
                if payload_length != 24 {
                    let mut detail = String::from_str(
                        "REPLAY_UNAVAILABLE payload must be exactly 24 bytes, got ",
                    );
                    append_decimal(&mut detail, payload_length as u64);
                    return Err(RtdpError::malformed(detail));
                }
            },
            MessageType::SnapshotRequest | MessageType::SnapshotResponse => {
                let mut detail = String::from_str("Message type ");
                append_hex(&mut detail, header.message_type.as_u16() as u64, 4);
                detail.append(" is reserved and not supported in v0.1");
                return Err(RtdpError::Protocol { code: ErrorCode::UnsupportedMessageType, detail });
            },
            MessageType::ReplayResponse => {
                if payload_length < 8 {
                    let mut detail = String::from_str(
                        "REPLAY_RESPONSE payload must be at least 8 bytes (request_id), got ",
                    );
                    append_decimal(&mut detail, payload_length as u64);
                    return Err(RtdpError::malformed(detail));
                }
            },
            _ => {},
        }
        let extension_bytes = &packet[FIXED_HEADER_SIZE..header_length];
        let payload = &packet[header_length..packet.len()];
        Ok(FrameView { header, extension_bytes, payload })
    }

    /// Decodes `packet` given the CRC-32C of the packet with its checksum
    /// field zeroed: exactly the outcome `spec_frame_decode` describes.
    pub fn decode_with_checksum<'a>(&self, packet: &'a [u8], calculated_checksum: u32) -> (r:
        Result<FrameView<'a>, RtdpError>)
        ensures
            decoded_as(
                r,
                spec_frame_decode(
                    self.max_frame_size(),
                    self.validates_checksum(),
                    packet@,
                    calculated_checksum,
                ),
                packet@,
            ),
    {
        self.check_structure(packet)?;
        self.finish_decode(packet, calculated_checksum)
    }

    /// Strict receive-side validation of a packet, in the order the protocol
    /// prescribes. The checksum field is zeroed while the CRC-32C is
    /// computed and restored afterwards, so the packet ends as it began.
    pub fn decode<'a>(&self, packet: &'a mut [u8]) -> (r: Result<FrameView<'a>, RtdpError>)
        ensures
            final(packet)@ == old(packet)@,
            decoded_as(
                r,
                spec_frame_decode(
                    self.max_frame_size(),
                    self.validates_checksum(),
                    old(packet)@,
                    crc32c_of(with_zeroed_checksum(old(packet)@)),
                ),
                old(packet)@,
            ),
    {
        let ghost p0 = packet@;
        self.check_structure(packet)?;
        let mut calculated_checksum: u32 = 0;
        if self.config.validate_checksum {
            let wire_checksum = read_u32_at(packet, 44);
            write_u32_at(packet, 44, 0);
            proof {
                assert(be32_bytes(0u32) =~= seq![0u8, 0u8, 0u8, 0u8]) by {
                    assert((0u32 >> 24u32) & 0xffu32 == 0u32 && (0u32 >> 16u32) & 0xffu32 == 0u32
                        && (0u32 >> 8u32) & 0xffu32 == 0u32 && 0u32 & 0xffu32 == 0u32)
                        by (bit_vector);
                }
                assert(packet@ =~= with_zeroed_checksum(p0));
            }
            calculated_checksum = crc32c(packet);
            write_u32_at(packet, 44, wire_checksum);
            proof {
                lemma_be32_bytes_of(p0, 44);
                assert(packet@ =~= p0);
            }
        }
        let frozen: &'a [u8] = packet;
        self.finish_decode(frozen, calculated_checksum)
    }
    /// Encodes `frame` into the front of `dst`: header (with header length,
    /// payload length and checksum filled in), extension bytes, payload, and
    /// the CRC-32C of the whole frame in the checksum field. Returns the
    /// frame length; on any fault `dst` is left as it was.
    pub fn encode(&self, frame: &OwnedFrame, dst: &mut [u8]) -> (r: Result<usize, RtdpError>)
        ensures
            match encode_fault(self.max_frame_size(), frame.model(), old(dst)@.len() as int) {
                Some(f) => fails_with(r, f) && final(dst)@ == old(
                    dst,
                )@,
                None => {
                    let total = 48 + frame.extension_bytes@.len() + frame.payload@.len();
                    &&& r == Ok::<usize, RtdpError>(total as usize)
                    &&& final(dst)@ == frame_wire_bytes(frame.model()) + old(dst)@.skip(total as int)
                },
            },
    {
        let ghost d0 = dst@;
        let ghost f = frame.model();
        let ext_len = frame.extension_bytes.len();
        if ext_len % 4 != 0 {
            return Err(
                RtdpError::malformed(
                    String::from_str("Extensions length makes header unaligned to 4 bytes"),
                ),
            );
        }
        let payload_len = frame.payload.len();
        let wide_total: u128 = 48 + ext_len as u128 + payload_len as u128;
        if wide_total > self.config.max_frame_size as u128 {
            let shown: usize = if wide_total <= usize::MAX as u128 {
                wide_total as usize
            } else {
                usize::MAX
            };
            return Err(RtdpError::frame_too_large(shown, self.config.max_frame_size));
        }
        let total_hl: usize = 48 + ext_len;
        let total_frame_len: usize = total_hl + payload_len;
        if dst.len() < total_frame_len {
            let mut detail = String::from_str("Destination buffer size ");
            append_decimal(&mut detail, dst.len() as u64);
            detail.append(" < required ");
            append_decimal(&mut detail, total_frame_len as u64);
            return Err(RtdpError::malformed(detail));
        }
        let mut header = frame.header;
        header.header_length = total_hl as u16;
        header.payload_length = payload_len as u32;
        header.checksum = 0;
        assert(header == encoded_header(f));
        header.encode(dst)?;
        let ghost d1 = dst@;
        let mut i: usize = 0;
        while i < ext_len
            invariant
                ext_len == frame.extension_bytes@.len(),
                total_hl == 48 + ext_len,
                total_hl <= total_frame_len <= d0.len() == dst@.len(),
                d1 == header_bytes(header) + d0.skip(48),
                i <= ext_len,
                forall|k: int| 0 <= k < 48 ==> dst@[k] == d1[k],
                forall|k: int| 48 <= k < 48 + i ==> dst@[k] == frame.extension_bytes@[k - 48],
                forall|k: int| 48 + i <= k < d0.len() ==> dst@[k] == d0[k],
            decreases ext_len - i,
        {
            dst[48 + i] = frame.extension_bytes[i];
            i = i + 1;
        }
        let mut j: usize = 0;
        while j < payload_len
            invariant
                ext_len == frame.extension_bytes@.len(),
                payload_len == frame.payload@.len(),
                total_hl == 48 + ext_len,
                total_frame_len == total_hl + payload_len,
                total_frame_len <= d0.len() == dst@.len(),
                d1 == header_bytes(header) + d0.skip(48),
                j <= payload_len,
                forall|k: int| 0 <= k < 48 ==> dst@[k] == d1[k],
                forall|k: int| 48 <= k < total_hl ==> dst@[k] == frame.extension_bytes@[k - 48],
                forall|k: int| total_hl <= k < total_hl + j ==> dst@[k] == frame.payload@[k - total_hl],
                forall|k: int| total_hl + j <= k < d0.len() ==> dst@[k] == d0[k],
            decreases payload_len - j,
        {
            dst[total_hl + j] = frame.payload[j];
            j = j + 1;
        }
        assert(header_bytes(header).len() == 48);
        proof {
            let body = frame_body(f);
            let hb = header_bytes(header);
            let target = body + d0.skip(total_frame_len as int);
            assert(body == hb + frame.extension_bytes@ + frame.payload@);
            assert forall|k: int| 0 <= k < d0.len() implies dst@[k] == target[k] by {
                if k < 48 {
                    assert(d1[k] == hb[k]);
                    assert(body[k] == hb[k]);
                } else if k < total_hl {
                    assert(body[k] == frame.extension_bytes@[k - 48]);
                } else if k < total_frame_len {
                    assert(body[k] == frame.payload@[k - total_hl]);
                } else {
                    assert(target[k] == d0[k]);
                }
            }
            assert(dst@ =~= target);
        }
        assert(dst@.subrange(0, total_frame_len as int) =~= frame_body(f));
        let calculated_crc = crc32c(&dst[0..total_frame_len]);
        write_u32_at(dst, 44, calculated_crc);
        assert(dst@ =~= frame_wire_bytes(f) + d0.skip(total_frame_len as int));
        Ok(total_frame_len)
    }
}


/// The payloads the protocol allows each message type: any for DATA, ERROR
/// and experimental types, none for HEARTBEAT, exactly 24 bytes for
/// REPLAY_REQUEST (whose range does not run backwards) and
/// REPLAY_UNAVAILABLE, at least the 8-byte request id for REPLAY_RESPONSE;
/// the SNAPSHOT types are not supported.
pub open spec fn protocol_allows_payload(m: MessageType, payload: Seq<u8>) -> bool {
    match m {
        MessageType::Heartbeat => payload.len() == 0,
        MessageType::ReplayRequest => payload.len() == 24 && be64(payload, 8) <= be64(payload, 16),
        MessageType::ReplayUnavailable => payload.len() == 24,
        MessageType::ReplayResponse => payload.len() >= 8,
        MessageType::SnapshotRequest | MessageType::SnapshotResponse => false,
        _ => true,
    }
}

/// Every frame the protocol allows gets through decoding: a frame with a
/// well-formed header, no extensions and a payload its message type allows
/// (an empty HEARTBEAT among them), once encoded, decodes to its header.
pub proof fn lemma_allowed_frames_decode(
    max_frame_size: usize,
    validate_checksum: bool,
    f: FrameModel,
    dst_len: int,
)
    requires
        is_well_formed_header(f.header),
        encode_fault(max_frame_size, f, dst_len) is None,
        f.extension_bytes.len() == 0,
        f.payload.len() <= 0xFFFF_FFFF,
        protocol_allows_payload(f.header.message_type, f.payload),
    ensures
        spec_frame_decode(
            max_frame_size,
            validate_checksum,
            frame_wire_bytes(f),
            crc32c_of(with_zeroed_checksum(frame_wire_bytes(f))),
        ) == Ok::<FixedHeader, Fault>(
            FixedHeader { checksum: crc32c_of(frame_body(f)), ..encoded_header(f) },
        ),
{
    assert(payload_rule_holds(f.header.message_type, f.payload));
    lemma_codec_roundtrip(max_frame_size, validate_checksum, f, dst_len);
}

} // verus!
