use vstd::prelude::*;

verus! {

/// The 64-bit XXH3 digest of a byte sequence, as computed by the
/// `xxhash-rust` crate. A deterministic function of the bytes alone.
pub uninterp spec fn xxh3_64_of(data: Seq<u8>) -> u64;

/// The 128-bit XXH3 digest of a byte sequence, as computed by the
/// `xxhash-rust` crate. A deterministic function of the bytes alone.
pub uninterp spec fn xxh3_128_of(data: Seq<u8>) -> u128;

/// Calls `xxhash_rust::xxh3::xxh3_64`. Claims only that the digest is the
/// named function of the input bytes; the digest algorithm itself is not stated.
#[verifier::external_body]
pub(crate) fn xxh3_64(data: &[u8]) -> (r: u64)
    ensures
        r == xxh3_64_of(data@),
{
    xxhash_rust::xxh3::xxh3_64(data)
}

/// Calls `xxhash_rust::xxh3::xxh3_128`. Claims only that the digest is the
/// named function of the input bytes; the digest algorithm itself is not stated.
#[verifier::external_body]
pub(crate) fn xxh3_128(data: &[u8]) -> (r: u128)
    ensures
        r == xxh3_128_of(data@),
{
    xxhash_rust::xxh3::xxh3_128(data)
}

} // verus!
