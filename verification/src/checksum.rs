//! CRC-32C (Castagnoli), through the `crc32c` crate.

use vstd::prelude::*;

verus! {

/// The CRC-32C of a byte string, as `crc32c::crc32c` computes it.
pub uninterp spec fn crc32c_of(data: Seq<u8>) -> u32;

/// Calls `crc32c::crc32c`; trusted to return the CRC-32C of exactly the
/// bytes of `data`, a value that depends on those bytes alone.
#[verifier::external_body]
pub(crate) fn crc32c(data: &[u8]) -> (r: u32)
    ensures
        r == crc32c_of(data@),
{
    crc32c::crc32c(data)
}

} // verus!
