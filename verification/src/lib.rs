//! Statistical validation of key-to-bucket hashing algorithms.
//!
//! An experiment runs random trials against an algorithm and records their outcomes
//! in an accumulator; accumulators of batches merge into running totals, in any order
//! and grouping; and a summary reduces an accumulator to the integers that determine
//! its statistics.
//!
//! - [`algo`]: the capability that experiments consume, and jump consistent hashing;
//!   [`control`]: algorithms with known statistics.
//! - [`acc`]: occurrence and cooccurrence tables, modelled by multisets ([`bag`]) over
//!   domains of tuples ([`domain`]).
//! - [`exp`]: the four experiments: regularity, collisions, and independence across
//!   ranges and across seeds.
//! - [`stats`]: chi-squared statistics of uniformity and of mutual independence, as
//!   exact fractions and counts.
//! - [`engine`]: the decisions of the engine that aggregates the batches of workers.
//! - [`jump`], [`binary64`]: the definition of jump consistent hashing and the integer
//!   model of the floating-point operations in it.

use vstd::prelude::*;
use core::ops::RangeToInclusive;
use crate::jump::{advance, jump_bucket, jump_from, jump_walk};

pub mod acc;
pub mod algo;
pub mod bag;
pub mod binary64;
pub mod control;
pub mod domain;
pub mod engine;
pub mod exp;
pub mod jump;
mod rng;
pub mod stats;
mod unique;

verus! {

/// `std::ops::RangeToInclusive`, the range `..=end`: a plain record of its inclusive upper bound.
#[verifier::external_type_specification]
#[verifier::reject_recursive_types(Idx)]
pub struct ExRangeToInclusive<Idx>(RangeToInclusive<Idx>);

/// Jump consistent hash of `key` into the buckets `0..=range.end`.
///
/// The result is the bucket where the walk of `jump_walk` ends; it lies in the range.
pub fn jump_hash(key: u64, range: RangeToInclusive<u32>) -> (bucket: u32)
    ensures
        bucket as nat == jump_bucket(key, range.end),
        bucket <= range.end,
{
    let end: u32 = range.end;
    let mut k: u64 = key;
    let mut b: u32 = 0;
    loop
        invariant_except_break
            b <= end,
            jump_walk(k, b as nat, end as nat) == jump_bucket(key, end),
        ensures
            b <= end,
            b as nat == jump_bucket(key, end),
        decreases end - b,
    {
        k = advance(k);
        let j: u128 = jump_from(k, b);
        if j > end as u128 {
            break;
        }
        b = j as u32;
    }
    b
}

} // verus!
