//! Content hashing of terminal text.
use vstd::prelude::*;

verus! {

/// The 64-bit XXH3 hash of `bytes`.
pub uninterp spec fn xxh3_64_of(bytes: Seq<u8>) -> u64;

/// Relies on `xxhash_rust::xxh3::xxh3_64`: a hash that depends on the bytes
/// alone.
#[verifier::external_body]
pub(crate) fn content_hash(bytes: &[u8]) -> (r: u64)
    ensures
        r == xxh3_64_of(bytes@),
{
    xxhash_rust::xxh3::xxh3_64(bytes)
}

} // verus!
