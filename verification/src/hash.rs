//! Hashing of keys.
use vstd::prelude::*;

verus! {

/// What `xxhash_rust::xxh3::xxh3_64` returns for these bytes: their 64-bit XXH3 hash with the
/// default secret and seed 0.
pub uninterp spec fn xxh3_64_of(bytes: Seq<u8>) -> u64;

/// Calls `xxhash_rust::xxh3::xxh3_64`, whose result depends on the bytes alone.
#[verifier::external_body]
pub(crate) fn hash64(bytes: &[u8]) -> (hash: u64)
    ensures
        hash == xxh3_64_of(bytes@),
{
    xxhash_rust::xxh3::xxh3_64(bytes)
}

} // verus!
