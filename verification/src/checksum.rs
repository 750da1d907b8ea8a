use vstd::prelude::*;

verus! {

/// The CRC-32 (IEEE polynomial, as computed by `crc32fast::hash`) of a
/// byte sequence.
pub uninterp spec fn crc32_of(data: Seq<u8>) -> u32;

/// Calls `crc32fast::hash`. Trusted: its result is `crc32_of` of the
/// bytes given, a function of those bytes alone.
#[verifier::external_body]
pub(crate) fn crc32(data: &[u8]) -> (r: u32)
    ensures
        r == crc32_of(data@),
{
    crc32fast::hash(data)
}

} // verus!
