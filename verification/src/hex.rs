//! Hexadecimal text, as the conformance vectors write frames: two
//! characters per byte.

use vstd::prelude::*;
use vstd::string::StrSliceExecFns;

verus! {

/// The value of an ASCII hexadecimal digit, either case.
pub open spec fn hex_digit_value(b: u8) -> Option<u8> {
    if 48 <= b <= 57 {
        Some((b - 48) as u8)
    } else if 97 <= b <= 102 {
        Some((b - 87) as u8)
    } else if 65 <= b <= 70 {
        Some((b - 55) as u8)
    } else {
        None
    }
}

/// The byte a two-character group denotes when read as a base-16 `u8`:
/// two digits, or a `+` sign and one digit.
pub open spec fn hex_pair_value(b0: u8, b1: u8) -> Option<u8> {
    match (hex_digit_value(b0), hex_digit_value(b1)) {
        (Some(h), Some(l)) => Some((h * 16 + l) as u8),
        (None, Some(l)) => if b0 == 43 {
            Some(l)
        } else {
            None
        },
        _ => None,
    }
}

/// The character codes of an ASCII text.
pub open spec fn ascii_codes(s: Seq<char>) -> Seq<u8> {
    s.map_values(|c: char| c as u8)
}

/// A text of whole two-character groups, each denoting a byte.
pub open spec fn hex_text_valid(t: Seq<u8>) -> bool {
    &&& t.len() % 2 == 0
    &&& forall|i: int| 0 <= i < t.len() / 2 ==> #[trigger] hex_pair_value(t[2 * i], t[2 * i + 1]) is Some
}

/// The bytes a valid hexadecimal text denotes, one per group.
pub open spec fn hex_text_bytes(t: Seq<u8>) -> Seq<u8> {
    Seq::new(t.len() / 2, |i: int| hex_pair_value(t[2 * i], t[2 * i + 1])->Some_0)
}

/// The value of one digit, as `hex_digit_value` says.
fn digit_value(b: u8) -> (r: Option<u8>)
    ensures
        r == hex_digit_value(b),
{
    if 48 <= b && b <= 57 {
        Some(b - 48)
    } else if 97 <= b && b <= 102 {
        Some(b - 87)
    } else if 65 <= b && b <= 70 {
        Some(b - 55)
    } else {
        None
    }
}

/// The byte of one group, as `hex_pair_value` says.
fn pair_value(b0: u8, b1: u8) -> (r: Option<u8>)
    ensures
        r == hex_pair_value(b0, b1),
{
    match (digit_value(b0), digit_value(b1)) {
        (Some(h), Some(l)) => Some(h * 16 + l),
        (None, Some(l)) => if b0 == 43 {
            Some(l)
        } else {
            None
        },
        _ => None,
    }
}

/// Whether `s` is ASCII hexadecimal text that `hex_to_bytes` can read.
pub fn is_hex_text(s: &str) -> (r: bool)
    ensures
        r == (s.is_ascii() && hex_text_valid(ascii_codes(s@))),
{
    broadcast use vstd::string::is_ascii_spec_bytes;

    if !s.is_ascii() {
        return false;
    }
    let t = s.as_bytes_vec();
    assert(t@ =~= ascii_codes(s@));
    let n = t.len();
    if n % 2 != 0 {
        return false;
    }
    let mut i: usize = 0;
    while i < n / 2
        invariant
            n == t@.len(),
            t@ == ascii_codes(s@),
            n % 2 == 0,
            i <= n / 2,
            forall|k: int| 0 <= k < i ==> #[trigger] hex_pair_value(t@[2 * k], t@[2 * k + 1]) is Some,
        decreases n / 2 - i,
    {
        if pair_value(t[2 * i], t[2 * i + 1]).is_none() {
            return false;
        }
        i = i + 1;
    }
    true
}

/// The bytes that hexadecimal text `s` denotes, two characters per byte.
pub fn hex_to_bytes(s: &str) -> (r: Vec<u8>)
    requires
        s.is_ascii(),
        hex_text_valid(ascii_codes(s@)),
    ensures
        r@ == hex_text_bytes(ascii_codes(s@)),
{
    broadcast use vstd::string::is_ascii_spec_bytes;

    let t = s.as_bytes_vec();
    assert(t@ =~= ascii_codes(s@));
    let n = t.len();
    let mut out: Vec<u8> = Vec::new();
    let mut i: usize = 0;
    while i < n / 2
        invariant
            n == t@.len(),
            n % 2 == 0,
            hex_text_valid(t@),
            i <= n / 2,
            out@.len() == i,
            forall|k: int|
                0 <= k < i ==> out@[k] == #[trigger] hex_pair_value(t@[2 * k], t@[2 * k + 1])->Some_0,
        decreases n / 2 - i,
    {
        let b = match pair_value(t[2 * i], t[2 * i + 1]) {
            Some(v) => v,
            None => {
                assert(hex_pair_value(t@[2 * i], t@[2 * i + 1]) is Some);
                0
            },
        };
        out.push(b);
        i = i + 1;
    }
    assert(out@ =~= hex_text_bytes(t@));
    out
}

} // verus!
