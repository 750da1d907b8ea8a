use vstd::prelude::*;

verus! {

/// Calls `rand::random::<u16>()`. Trusted only to return some `u16`:
/// nothing is stated of which one. (The thread-local generator panics
/// if the operating system cannot seed it.)
#[verifier::external_body]
pub(crate) fn random_u16() -> u16 {
    rand::random::<u16>()
}

/// Calls `rand::random::<u64>()`. Trusted only to return some `u64`.
#[verifier::external_body]
pub(crate) fn random_u64() -> u64 {
    rand::random::<u64>()
}

/// A fresh magic number for this process: a random 16-bit value with its
/// lowest bit set, so that it is never zero.
pub fn generate_magic() -> (magic: u16)
    ensures
        magic & 1u16 == 1u16,
{
    let r = random_u16();
    magic_from_random(r)
}

/// The magic number made from the random value `r`: `r` with its lowest
/// bit set.
pub fn magic_from_random(r: u16) -> (magic: u16)
    ensures
        magic == r | 1u16,
        magic & 1u16 == 1u16,
{
    assert((r | 1u16) & 1u16 == 1u16) by (bit_vector);
    r | 1u16
}

} // verus!
