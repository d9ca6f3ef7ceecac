//! The hashing algorithms under test: the capability that experiments consume,
//! and jump consistent hashing as one provider of it.

use vstd::prelude::*;
use core::ops::RangeToInclusive;
use crate::jump::{jump_bucket, lemma_jump_walk_in_range, lemma_jump_walk_monotone};
use crate::jump_hash;

verus! {

/// A key-to-bucket hash: a pure function of the key bytes, a seed and an inclusive
/// range `[0, range.end]`, whose result lies in that range.
pub trait Algorithm {
    /// Whether `hash` takes keys of `key_len` bytes for the range `[0, range_end]`.
    spec fn accepts(&self, key_len: nat, range_end: u64) -> bool;

    /// The bucket of a key: what `hash` returns.
    spec fn bucket(&self, key: Seq<u8>, seed: u64, range_end: u64) -> u64;

    /// Hashes `key` with `seed` into `[0, range.end]`.
    fn hash(&self, key: &[u8], seed: u64, range: RangeToInclusive<u64>) -> (h: u64)
        requires
            self.accepts(key@.len(), range.end),
        ensures
            h == self.bucket(key@, seed, range.end),
            h <= range.end,
    ;
}

/// The eight leading bytes of `key` read as a little-endian integer.
pub open spec fn leading_word(key: Seq<u8>) -> u64 {
    (key[0] as u64 + key[1] as u64 * 0x100 + key[2] as u64 * 0x1_0000 + key[3] as u64 * 0x100_0000
        + key[4] as u64 * 0x1_0000_0000 + key[5] as u64 * 0x100_0000_0000 + key[6] as u64
        * 0x1_0000_0000_0000 + key[7] as u64 * 0x100_0000_0000_0000) as u64
}

/// Reads the eight leading bytes of `key` as a little-endian integer.
pub fn read_leading_word(key: &[u8]) -> (w: u64)
    requires
        key@.len() >= 8,
    ensures
        w == leading_word(key@),
{
    key[0] as u64 + key[1] as u64 * 0x100 + key[2] as u64 * 0x1_0000 + key[3] as u64 * 0x100_0000
        + key[4] as u64 * 0x1_0000_0000 + key[5] as u64 * 0x100_0000_0000 + key[6] as u64
        * 0x1_0000_0000_0000 + key[7] as u64 * 0x100_0000_0000_0000
}

/// Jump consistent hashing of the key's leading word, mixed with the seed by exclusive or.
#[derive(Clone, Copy, Debug)]
pub struct JumpHash;

impl Algorithm for JumpHash {
    /// Keys need eight bytes, and the range must fit the 32-bit buckets of `jump_hash`.
    open spec fn accepts(&self, key_len: nat, range_end: u64) -> bool {
        key_len >= 8 && range_end <= u32::MAX
    }

    open spec fn bucket(&self, key: Seq<u8>, seed: u64, range_end: u64) -> u64 {
        jump_bucket(leading_word(key) ^ seed, range_end as u32) as u64
    }

    fn hash(&self, key: &[u8], seed: u64, range: RangeToInclusive<u64>) -> (h: u64) {
        let word: u64 = read_leading_word(key);
        jump_hash(word ^ seed, ..=(range.end as u32)) as u64
    }
}

/// Whether `algorithm` hashes `key` consistently: when the range grows, the key keeps
/// its bucket or moves into the part that the range gained.
pub open spec fn consistent<A: Algorithm>(algorithm: &A, key: Seq<u8>, seed: u64) -> bool {
    forall|end: u64, wider: u64|
        #![trigger algorithm.bucket(key, seed, end), algorithm.bucket(key, seed, wider)]
        end <= wider && algorithm.accepts(key.len(), wider) ==> {
            &&& algorithm.bucket(key, seed, end) <= end
            &&& algorithm.bucket(key, seed, wider) == algorithm.bucket(key, seed, end)
                || end < algorithm.bucket(key, seed, wider) <= wider
        }
}

/// Jump consistent hashing is consistent.
pub proof fn lemma_jump_hash_consistent(key: Seq<u8>, seed: u64)
    ensures
        consistent(&JumpHash, key, seed),
{
    let k = leading_word(key) ^ seed;
    assert forall|end: u64, wider: u64|
        #![trigger JumpHash.bucket(key, seed, end), JumpHash.bucket(key, seed, wider)]
        end <= wider && JumpHash.accepts(key.len(), wider) implies {
        &&& JumpHash.bucket(key, seed, end) <= end
        &&& JumpHash.bucket(key, seed, wider) == JumpHash.bucket(key, seed, end) || end
            < JumpHash.bucket(key, seed, wider) <= wider
    } by {
        lemma_jump_walk_in_range(k, 0, end as nat);
        lemma_jump_walk_in_range(k, 0, wider as nat);
        lemma_jump_walk_monotone(k, 0, end as nat, wider as nat);
    }
}

} // verus!
