//! Control algorithms: deliberately simple hashes whose statistics are known in
//! advance, to check the experiments and the statistical tests against.

use vstd::prelude::*;
use core::ops::RangeToInclusive;
use crate::algo::Algorithm;

verus! {

/// The first byte of the key, reduced to the range: uniform over up to 256 buckets
/// exactly when the first bytes are.
#[derive(Clone, Copy, Debug)]
pub struct FirstByte;

impl Algorithm for FirstByte {
    /// Keys need one byte.
    open spec fn accepts(&self, key_len: nat, range_end: u64) -> bool {
        key_len >= 1
    }

    open spec fn bucket(&self, key: Seq<u8>, seed: u64, range_end: u64) -> u64 {
        if range_end >= 255 {
            key[0] as u64
        } else {
            (key[0] as u64 % (range_end + 1) as u64) as u64
        }
    }

    fn hash(&self, key: &[u8], seed: u64, range: RangeToInclusive<u64>) -> (h: u64) {
        let first: u64 = key[0] as u64;
        if range.end >= 255 {
            first
        } else {
            first % (range.end + 1)
        }
    }
}

/// Bucket 0 for every key: the most skewed distribution there is.
#[derive(Clone, Copy, Debug)]
pub struct Constant;

impl Algorithm for Constant {
    open spec fn accepts(&self, key_len: nat, range_end: u64) -> bool {
        true
    }

    open spec fn bucket(&self, key: Seq<u8>, seed: u64, range_end: u64) -> u64 {
        0
    }

    fn hash(&self, key: &[u8], seed: u64, range: RangeToInclusive<u64>) -> (h: u64) {
        0
    }
}

/// The low bit of the seed, whatever the key; bucket 0 where the range has no bucket 1.
/// Across seeds, every key gives the same tuple.
#[derive(Clone, Copy, Debug)]
pub struct SeedBit;

impl Algorithm for SeedBit {
    open spec fn accepts(&self, key_len: nat, range_end: u64) -> bool {
        true
    }

    open spec fn bucket(&self, key: Seq<u8>, seed: u64, range_end: u64) -> u64 {
        if range_end >= 1 {
            (seed % 2) as u64
        } else {
            0
        }
    }

    fn hash(&self, key: &[u8], seed: u64, range: RangeToInclusive<u64>) -> (h: u64) {
        if range.end >= 1 {
            seed % 2
        } else {
            0
        }
    }
}

} // verus!
