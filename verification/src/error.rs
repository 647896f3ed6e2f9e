//! Protocol error codes (the normative registry) and the library's error type.

use vstd::prelude::*;
use vstd::string::StringExecFns;

verus! {

/// RTDP/1 normative protocol error codes.
#[derive(Debug, Clone, Copy, PartialEq, Eq, Hash, Structural)]
pub enum ErrorCode {
    VersionMismatch,
    MalformedFrame,
    ChecksumFailed,
    UnsupportedMessageType,
    UnsupportedExtension,
    ReplayUnavailable,
    ReplayRangeInvalid,
    StreamNotFound,
    PublisherNotAuthorized,
    FrameTooLarge,
    RateLimited,
    Backpressure,
}

/// The registry value of an error code.
pub open spec fn error_code_value(c: ErrorCode) -> u16 {
    match c {
        ErrorCode::VersionMismatch => 0x0001,
        ErrorCode::MalformedFrame => 0x0002,
        ErrorCode::ChecksumFailed => 0x0003,
        ErrorCode::UnsupportedMessageType => 0x0004,
        ErrorCode::UnsupportedExtension => 0x0005,
        ErrorCode::ReplayUnavailable => 0x0006,
        ErrorCode::ReplayRangeInvalid => 0x0007,
        ErrorCode::StreamNotFound => 0x0008,
        ErrorCode::PublisherNotAuthorized => 0x0009,
        ErrorCode::FrameTooLarge => 0x000A,
        ErrorCode::RateLimited => 0x000B,
        ErrorCode::Backpressure => 0x000C,
    }
}

/// The error code a registry value names, if any.
pub open spec fn error_code_from_value(v: u16) -> Option<ErrorCode> {
    if v == 0x0001 {
        Some(ErrorCode::VersionMismatch)
    } else if v == 0x0002 {
        Some(ErrorCode::MalformedFrame)
    } else if v == 0x0003 {
        Some(ErrorCode::ChecksumFailed)
    } else if v == 0x0004 {
        Some(ErrorCode::UnsupportedMessageType)
    } else if v == 0x0005 {
        Some(ErrorCode::UnsupportedExtension)
    } else if v == 0x0006 {
        Some(ErrorCode::ReplayUnavailable)
    } else if v == 0x0007 {
        Some(ErrorCode::ReplayRangeInvalid)
    } else if v == 0x0008 {
        Some(ErrorCode::StreamNotFound)
    } else if v == 0x0009 {
        Some(ErrorCode::PublisherNotAuthorized)
    } else if v == 0x000A {
        Some(ErrorCode::FrameTooLarge)
    } else if v == 0x000B {
        Some(ErrorCode::RateLimited)
    } else if v == 0x000C {
        Some(ErrorCode::Backpressure)
    } else {
        None
    }
}

/// The human-readable rendering of an error code: its registry name and value.
pub open spec fn error_code_text(c: ErrorCode) -> Seq<char> {
    match c {
        ErrorCode::VersionMismatch => "VERSION_MISMATCH (0x0001)"@,
        ErrorCode::MalformedFrame => "MALFORMED_FRAME (0x0002)"@,
        ErrorCode::ChecksumFailed => "CHECKSUM_FAILED (0x0003)"@,
        ErrorCode::UnsupportedMessageType => "UNSUPPORTED_MESSAGE_TYPE (0x0004)"@,
        ErrorCode::UnsupportedExtension => "UNSUPPORTED_EXTENSION (0x0005)"@,
        ErrorCode::ReplayUnavailable => "REPLAY_UNAVAILABLE (0x0006)"@,
        ErrorCode::ReplayRangeInvalid => "REPLAY_RANGE_INVALID (0x0007)"@,
        ErrorCode::StreamNotFound => "STREAM_NOT_FOUND (0x0008)"@,
        ErrorCode::PublisherNotAuthorized => "PUBLISHER_NOT_AUTHORIZED (0x0009)"@,
        ErrorCode::FrameTooLarge => "FRAME_TOO_LARGE (0x000A)"@,
        ErrorCode::RateLimited => "RATE_LIMITED (0x000B)"@,
        ErrorCode::Backpressure => "BACKPRESSURE (0x000C)"@,
    }
}

impl ErrorCode {
    /// Looks up the error code with the given registry value.
    pub fn from_u16(val: u16) -> (r: Option<Self>)
        ensures
            r == error_code_from_value(val),
    {
        match val {
            0x0001 => Some(Self::VersionMismatch),
            0x0002 => Some(Self::MalformedFrame),
            0x0003 => Some(Self::ChecksumFailed),
            0x0004 => Some(Self::UnsupportedMessageType),
            0x0005 => Some(Self::UnsupportedExtension),
            0x0006 => Some(Self::ReplayUnavailable),
            0x0007 => Some(Self::ReplayRangeInvalid),
            0x0008 => Some(Self::StreamNotFound),
            0x0009 => Some(Self::PublisherNotAuthorized),
            0x000A => Some(Self::FrameTooLarge),
            0x000B => Some(Self::RateLimited),
            0x000C => Some(Self::Backpressure),
            _ => None,
        }
    }

    /// The registry value of this code.
    pub fn as_u16(&self) -> (r: u16)
        ensures
            r == error_code_value(*self),
    {
        match self {
            Self::VersionMismatch => 0x0001,
            Self::MalformedFrame => 0x0002,
            Self::ChecksumFailed => 0x0003,
            Self::UnsupportedMessageType => 0x0004,
            Self::UnsupportedExtension => 0x0005,
            Self::ReplayUnavailable => 0x0006,
            Self::ReplayRangeInvalid => 0x0007,
            Self::StreamNotFound => 0x0008,
            Self::PublisherNotAuthorized => 0x0009,
            Self::FrameTooLarge => 0x000A,
            Self::RateLimited => 0x000B,
            Self::Backpressure => 0x000C,
        }
    }

    /// The display text of this code, e.g. `MALFORMED_FRAME (0x0002)`.
    pub fn to_text(&self) -> (s: String)
        ensures
            s@ == error_code_text(*self),
    {
        match self {
            Self::VersionMismatch => String::from_str("VERSION_MISMATCH (0x0001)"),
            Self::MalformedFrame => String::from_str("MALFORMED_FRAME (0x0002)"),
            Self::ChecksumFailed => String::from_str("CHECKSUM_FAILED (0x0003)"),
            Self::UnsupportedMessageType => String::from_str("UNSUPPORTED_MESSAGE_TYPE (0x0004)"),
            Self::UnsupportedExtension => String::from_str("UNSUPPORTED_EXTENSION (0x0005)"),
            Self::ReplayUnavailable => String::from_str("REPLAY_UNAVAILABLE (0x0006)"),
            Self::ReplayRangeInvalid => String::from_str("REPLAY_RANGE_INVALID (0x0007)"),
            Self::StreamNotFound => String::from_str("STREAM_NOT_FOUND (0x0008)"),
            Self::PublisherNotAuthorized => String::from_str("PUBLISHER_NOT_AUTHORIZED (0x0009)"),
            Self::FrameTooLarge => String::from_str("FRAME_TOO_LARGE (0x000A)"),
            Self::RateLimited => String::from_str("RATE_LIMITED (0x000B)"),
            Self::Backpressure => String::from_str("BACKPRESSURE (0x000C)"),
        }
    }
}

/// Every registry value names the code whose value it is.
pub proof fn lemma_error_code_value_roundtrip(c: ErrorCode)
    ensures
        error_code_from_value(error_code_value(c)) == Some(c),
{
}

/// Errors of the RTDP library.
#[derive(Debug, Clone, PartialEq, Eq)]
pub enum RtdpError {
    /// A protocol-level error, with its registry code and a diagnostic text.
    Protocol { code: ErrorCode, detail: String },
    /// An I/O failure, with its description.
    Io(String),
    /// A buffer overflowed or its capacity was exhausted.
    BufferExhausted,
    /// A sequence gap that replay cannot fill: `from..=to`.
    UnrecoverableGap { from: u64, to: u64 },
}

/// A protocol failure as the specifications describe it: its code and its
/// detail text.
pub ghost struct Fault {
    pub code: ErrorCode,
    pub detail: Seq<char>,
}

/// The failure with code `code` and detail text `detail`.
pub open spec fn fault(code: ErrorCode, detail: Seq<char>) -> Fault {
    Fault { code, detail }
}

/// `e` is the protocol error `f`: the same code and the same detail text.
pub open spec fn is_fault(e: RtdpError, f: Fault) -> bool {
    e matches RtdpError::Protocol { code, detail } && code == f.code && detail@ == f.detail
}

/// `r` failed with the protocol error `f`.
pub open spec fn fails_with<T>(r: Result<T, RtdpError>, f: Fault) -> bool {
    r is Err && is_fault(r->Err_0, f)
}

/// A result agrees with a modelled outcome: success with the same value, or
/// the modelled protocol error.
pub open spec fn outcome_matches<T>(r: Result<T, RtdpError>, m: Result<T, Fault>) -> bool {
    match m {
        Ok(v) => r == Ok::<T, RtdpError>(v),
        Err(f) => fails_with(r, f),
    }
}

/// The `MALFORMED_FRAME` failure with detail text `detail`.
pub open spec fn malformed_fault(detail: Seq<char>) -> Fault {
    fault(ErrorCode::MalformedFrame, detail)
}

/// The character of digit `n` (below 16), upper-case hexadecimal.
pub open spec fn digit_char(n: u64) -> char {
    if n == 0 {
        '0'
    } else if n == 1 {
        '1'
    } else if n == 2 {
        '2'
    } else if n == 3 {
        '3'
    } else if n == 4 {
        '4'
    } else if n == 5 {
        '5'
    } else if n == 6 {
        '6'
    } else if n == 7 {
        '7'
    } else if n == 8 {
        '8'
    } else if n == 9 {
        '9'
    } else if n == 10 {
        'A'
    } else if n == 11 {
        'B'
    } else if n == 12 {
        'C'
    } else if n == 13 {
        'D'
    } else if n == 14 {
        'E'
    } else {
        'F'
    }
}

/// The `digits` low hexadecimal digits of `value`, most significant first.
pub open spec fn hex_digits(value: u64, digits: nat) -> Seq<char>
    decreases digits,
{
    if digits == 0 {
        Seq::empty()
    } else {
        let i = (digits - 1) as nat;
        seq![digit_char((value >> ((4 * i) as u64)) & 0xfu64)] + hex_digits(value, i)
    }
}

/// `0x` and the `digits` low hexadecimal digits of `value`.
pub open spec fn hex_text(value: u64, digits: nat) -> Seq<char> {
    seq!['0', 'x'] + hex_digits(value, digits)
}

/// The decimal rendering of `value`, without leading zeros.
pub open spec fn decimal_text(value: u64) -> Seq<char>
    decreases value,
{
    if value < 10 {
        seq![digit_char(value)]
    } else {
        decimal_text(value / 10) + seq![digit_char(value % 10)]
    }
}

/// One digit (below 16), upper-case hexadecimal.
fn digit_str(n: u64) -> (r: &'static str)
    requires
        n < 16,
    ensures
        r@ == seq![digit_char(n)],
{
    proof {
        reveal_strlit("0");
        reveal_strlit("1");
        reveal_strlit("2");
        reveal_strlit("3");
        reveal_strlit("4");
        reveal_strlit("5");
        reveal_strlit("6");
        reveal_strlit("7");
        reveal_strlit("8");
        reveal_strlit("9");
        reveal_strlit("A");
        reveal_strlit("B");
        reveal_strlit("C");
        reveal_strlit("D");
        reveal_strlit("E");
        reveal_strlit("F");
    }
    match n {
        0 => "0",
        1 => "1",
        2 => "2",
        3 => "3",
        4 => "4",
        5 => "5",
        6 => "6",
        7 => "7",
        8 => "8",
        9 => "9",
        10 => "A",
        11 => "B",
        12 => "C",
        13 => "D",
        14 => "E",
        _ => "F",
    }
}

/// Appends the `digits` low hexadecimal digits of `value`.
fn append_hex_digits(s: &mut String, value: u64, digits: u64)
    requires
        digits <= 16,
    ensures
        final(s)@ == old(s)@ + hex_digits(value, digits as nat),
    decreases digits,
{
    if digits == 0 {
        assert(old(s)@ + hex_digits(value, 0) =~= old(s)@);
        return;
    }
    let i = digits - 1;
    let shift: u64 = 4 * i;
    let nibble: u64 = (value >> shift) & 0xf;
    assert(nibble < 16) by (bit_vector)
        requires
            nibble == (value >> shift) & 0xf,
    ;
    s.append(digit_str(nibble));
    append_hex_digits(s, value, i);
    assert(hex_digits(value, digits as nat) == seq![digit_char(nibble)] + hex_digits(value, i as nat));
}

/// Appends `0x` and the `digits` low hexadecimal digits of `value`.
pub(crate) fn append_hex(s: &mut String, value: u64, digits: u64)
    requires
        digits <= 16,
    ensures
        final(s)@ == old(s)@ + hex_text(value, digits as nat),
{
    proof {
        reveal_strlit("0x");
    }
    s.append("0x");
    append_hex_digits(s, value, digits);
    assert(s@ =~= old(s)@ + hex_text(value, digits as nat)) by {
        assert("0x"@ =~= seq!['0', 'x']);
    }
}

/// Appends the decimal rendering of `value`.
pub(crate) fn append_decimal(s: &mut String, value: u64)
    ensures
        final(s)@ == old(s)@ + decimal_text(value),
    decreases value,
{
    if value >= 10 {
        append_decimal(s, value / 10);
    }
    s.append(digit_str(value % 10));
    assert(s@ =~= old(s)@ + decimal_text(value));
}

/// `CHECKSUM_FAILED`, naming the wire and the computed checksum as eight
/// hexadecimal digits each.
pub open spec fn checksum_fault(expected: u32, calculated: u32) -> Fault {
    fault(
        ErrorCode::ChecksumFailed,
        "Wire checksum "@ + hex_text(expected as u64, 8) + " != calculated "@ + hex_text(
            calculated as u64,
            8,
        ),
    )
}

/// `UNSUPPORTED_EXTENSION`, naming the extension type as four hexadecimal
/// digits.
pub open spec fn unsupported_extension_fault(ext_type: u16) -> Fault {
    fault(
        ErrorCode::UnsupportedExtension,
        "Critical extension type "@ + hex_text(ext_type as u64, 4) + " is not supported"@,
    )
}

/// `FRAME_TOO_LARGE`, naming the size and the limit in decimal.
pub open spec fn frame_too_large_fault(size: usize, max: usize) -> Fault {
    fault(
        ErrorCode::FrameTooLarge,
        "Frame length "@ + decimal_text(size as u64) + " exceeds configured maximum "@
            + decimal_text(max as u64),
    )
}

impl RtdpError {
    /// A `MALFORMED_FRAME` protocol error with the given detail.
    pub fn malformed(detail: String) -> (r: Self)
        ensures
            r == (RtdpError::Protocol { code: ErrorCode::MalformedFrame, detail }),
    {
        Self::Protocol { code: ErrorCode::MalformedFrame, detail }
    }

    /// A `VERSION_MISMATCH` protocol error with the given detail.
    pub fn version_mismatch(detail: String) -> (r: Self)
        ensures
            r == (RtdpError::Protocol { code: ErrorCode::VersionMismatch, detail }),
    {
        Self::Protocol { code: ErrorCode::VersionMismatch, detail }
    }

    /// A `CHECKSUM_FAILED` protocol error naming the wire and the computed
    /// checksum, each as eight hexadecimal digits.
    pub fn checksum_failed(expected: u32, calculated: u32) -> (r: Self)
        ensures
            is_fault(r, checksum_fault(expected, calculated)),
    {
        let mut detail = String::from_str("Wire checksum ");
        append_hex(&mut detail, expected as u64, 8);
        detail.append(" != calculated ");
        append_hex(&mut detail, calculated as u64, 8);
        Self::Protocol { code: ErrorCode::ChecksumFailed, detail }
    }

    /// An `UNSUPPORTED_EXTENSION` protocol error naming the extension type
    /// as four hexadecimal digits.
    pub fn unsupported_extension(ext_type: u16) -> (r: Self)
        ensures
            is_fault(r, unsupported_extension_fault(ext_type)),
    {
        let mut detail = String::from_str("Critical extension type ");
        append_hex(&mut detail, ext_type as u64, 4);
        detail.append(" is not supported");
        Self::Protocol { code: ErrorCode::UnsupportedExtension, detail }
    }

    /// A `FRAME_TOO_LARGE` protocol error naming the size and the limit in
    /// decimal.
    pub fn frame_too_large(size: usize, max: usize) -> (r: Self)
        ensures
            is_fault(r, frame_too_large_fault(size, max)),
    {
        let mut detail = String::from_str("Frame length ");
        append_decimal(&mut detail, size as u64);
        detail.append(" exceeds configured maximum ");
        append_decimal(&mut detail, max as u64);
        Self::Protocol { code: ErrorCode::FrameTooLarge, detail }
    }

    /// The protocol error code of this error, if it is a protocol error.
    pub fn code(&self) -> (r: Option<ErrorCode>)
        ensures
            r == (match *self {
                RtdpError::Protocol { code, .. } => Some(code),
                _ => None,
            }),
    {
        match self {
            Self::Protocol { code, .. } => Some(*code),
            _ => None,
        }
    }
}

} // verus!
