//! Registered standard extension types.

use vstd::prelude::*;

verus! {

/// Non-critical, 8 bytes: ingress timestamp.
pub const SOURCE_INGRESS_TS: u16 = 0x0001;

/// Non-critical, 16 bytes: correlation identifier.
pub const CORRELATION_ID: u16 = 0x0002;

/// Critical: reserved for authenticated transport profiles.
pub const REQUIRED_CIPHER_SUITE: u16 = 0x8001;

} // verus!
