//! The checksum that guards the payload of an entry.

use std::hash::Hasher;
use twox_hash::XxHash64;
use vstd::prelude::*;

verus! {

/// The 64-bit xxHash of `data` under `seed`, as `twox_hash::XxHash64` computes
/// it.
pub uninterp spec fn xxhash64(seed: u64, data: Seq<u8>) -> u64;

/// Hashes `data` in one go.
///
/// Calls `twox_hash::XxHash64`: `with_seed`, one `write` of all of `data`,
/// `finish`. The claim is that the outcome depends on the seed and the bytes
/// alone, which `xxhash64` names.
#[verifier::external_body]
fn hash_bytes(seed: u64, data: &[u8]) -> (h: u64)
    ensures
        h == xxhash64(seed, data@),
{
    let mut hasher = XxHash64::with_seed(seed);
    hasher.write(data);
    hasher.finish()
}

/// The checksum of `buf`: its xxHash under seed zero.
pub fn checksum(buf: &[u8]) -> (h: u64)
    ensures
        h == xxhash64(0, buf@),
{
    hash_bytes(0, buf)
}

} // verus!
