//! Hashes the engine relies on: the CRC-32 that guards on-disk records and
//! the seeded key hasher behind conflict detection.

use vstd::prelude::*;

verus! {

/// The IEEE CRC-32 of a byte string, as `crc32fast` computes it: a function
/// of the bytes alone.
pub uninterp spec fn crc32_of(data: Seq<u8>) -> u32;

/// Relies on `crc32fast::hash`: the IEEE CRC-32 of the bytes, a function of
/// the bytes alone.
#[verifier::external_body]
pub fn crc32(data: &[u8]) -> (r: u32)
    ensures
        r == crc32_of(data@),
{
    crc32fast::hash(data)
}

#[verifier::external_type_specification]
#[verifier::external_body]
pub struct ExRandomState(ahash::RandomState);

/// Relies on `ahash::RandomState::with_seed`: hashers built from the same
/// seed in the same process hash alike.
#[verifier::external_body]
pub fn hash_state_with_seed(seed: usize) -> ahash::RandomState {
    ahash::RandomState::with_seed(seed)
}

/// Relies on ahash's `hash_one` over the key bytes. The value depends on
/// the hasher's process-wide keys, so nothing is promised of it; conflict
/// detection holds for every hash value, with collisions giving at worst a
/// false conflict.
#[verifier::external_body]
pub fn hash_key(state: &ahash::RandomState, key: &[u8]) -> u64 {
    state.hash_one(key)
}

/// Relies on `rand::random`: a fresh seed from the thread-local generator.
/// Nothing is promised of a random value.
#[verifier::external_body]
pub fn random_seed() -> usize {
    rand::random::<u64>() as usize
}

} // verus!
