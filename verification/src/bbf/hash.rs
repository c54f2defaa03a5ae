//! The XXH3 hashes that guard a container's index and its payloads.
use vstd::prelude::*;

verus! {

/// The 64-bit XXH3 hash (seed 0, default secret) of a byte sequence.
pub uninterp spec fn xxh3_64_of(data: Seq<u8>) -> u64;

/// The 128-bit XXH3 hash (seed 0, default secret) of a byte sequence.
pub uninterp spec fn xxh3_128_of(data: Seq<u8>) -> u128;

/// The low 64 bits of a 128-bit hash.
pub open spec fn low64(h: u128) -> u64 {
    h as u64
}

/// The high 64 bits of a 128-bit hash.
pub open spec fn high64(h: u128) -> u64 {
    (h >> 64u128) as u64
}

/// Calls `xxhash_rust::xxh3::xxh3_64`. Trusted: its result depends on the bytes alone and
/// is named `xxh3_64_of`; nothing more is claimed of it.
#[verifier::external_body]
pub(crate) fn xxh3_64(data: &[u8]) -> (h: u64)
    ensures
        h == xxh3_64_of(data@),
{
    xxhash_rust::xxh3::xxh3_64(data)
}

/// Calls `xxhash_rust::xxh3::xxh3_128`. Trusted: its result depends on the bytes alone and
/// is named `xxh3_128_of`; nothing more is claimed of it.
#[verifier::external_body]
pub(crate) fn xxh3_128(data: &[u8]) -> (h: u128)
    ensures
        h == xxh3_128_of(data@),
{
    xxhash_rust::xxh3::xxh3_128(data)
}

/// Splits a 128-bit hash into its low and high halves.
pub fn split_hash(h: u128) -> (r: (u64, u64))
    ensures
        r.0 == low64(h),
        r.1 == high64(h),
{
    (h as u64, (h >> 64u128) as u64)
}

} // verus!
