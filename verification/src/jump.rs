//! Jump consistent hashing (Lamping and Veach), stated over the integer model of
//! its binary64 arithmetic.
//!
//! The walk keeps a bucket `b` and a generator state `k`. Each step advances the
//! generator, derives a divisor `d` in `[1, 2^31]` from its 31 high bits, and
//! jumps to bucket `floor((b + 1) * (2^31 / d))`, both operations rounded as
//! binary64 rounds them. The walk ends with the last bucket inside the range.

use vstd::prelude::*;
use vstd::wrapping::u64_specs::{wrapping_add, wrapping_mul};
use crate::binary64::{
    scaled_product, scaled_product_of, lemma_scaled_product_advances, TWO_31, TWO_33,
};

verus! {

/// Multiplier of the 64-bit linear congruential generator that drives the walk.
pub const LCG_MULTIPLIER: u64 = 2862933555777941757;

/// The generator state that follows `k`: `k * LCG_MULTIPLIER + 1` modulo `2^64`.
pub open spec fn next_state(k: u64) -> u64 {
    wrapping_add(wrapping_mul(k, LCG_MULTIPLIER), 1)
}

/// The divisor that state `k` yields: its 31 high bits, plus one.
pub open spec fn jump_divisor(k: u64) -> nat {
    (k / TWO_33) as nat + 1
}

/// The bucket where the walk that stands at bucket `b` with state `k` ends, for the
/// range `[0, end]`. The guard `b < j` always holds (`lemma_walk_advances`); it is
/// written out so that the definition visibly terminates.
pub open spec fn jump_walk(k: u64, b: nat, end: nat) -> nat
    decreases end - b,
{
    let k1 = next_state(k);
    let j = scaled_product(b, jump_divisor(k1));
    if b < j && j <= end {
        jump_walk(k1, j, end)
    } else {
        b
    }
}

/// The bucket of `key` in the range `[0, end]`: every walk starts at bucket 0.
pub open spec fn jump_bucket(key: u64, end: u32) -> nat {
    jump_walk(key, 0, end as nat)
}

/// Every divisor lies in `[1, 2^31]`.
pub proof fn lemma_jump_divisor_bounds(k: u64)
    ensures
        1 <= jump_divisor(k) <= TWO_31,
{
}

/// Each jump moves to a strictly greater bucket, so the guard in `jump_walk` never
/// stops a walk that is still inside a 32-bit range.
pub proof fn lemma_walk_advances(k: u64, b: nat)
    requires
        b <= u32::MAX,
    ensures
        b < scaled_product(b, jump_divisor(k)),
{
    lemma_jump_divisor_bounds(k);
    lemma_scaled_product_advances(b, jump_divisor(k));
}

/// A walk never leaves the range it started in.
pub proof fn lemma_jump_walk_in_range(k: u64, b: nat, end: nat)
    requires
        b <= end,
    ensures
        b <= jump_walk(k, b, end) <= end,
    decreases end - b,
{
    let k1 = next_state(k);
    let j = scaled_product(b, jump_divisor(k1));
    if b < j && j <= end {
        lemma_jump_walk_in_range(k1, j, end);
    }
}

/// Widening the range never moves a key to a lower bucket, and a key that moves lands
/// beyond the old range: the walk over the wider range passes through the bucket that
/// the narrower range gave.
pub proof fn lemma_jump_walk_monotone(k: u64, b: nat, end: nat, wider: nat)
    requires
        b <= end <= wider,
    ensures
        jump_walk(k, b, wider) == jump_walk(k, b, end) || jump_walk(k, b, wider) > end,
    decreases end - b,
{
    let k1 = next_state(k);
    let j = scaled_product(b, jump_divisor(k1));
    if b < j && j <= end {
        lemma_jump_walk_monotone(k1, j, end, wider);
    } else if b < j && j <= wider {
        lemma_jump_walk_in_range(k1, j, wider);
    }
}

/// Advances the generator by one state.
pub fn advance(k: u64) -> (k1: u64)
    ensures
        k1 == next_state(k),
{
    k.wrapping_mul(LCG_MULTIPLIER).wrapping_add(1)
}

/// The bucket that the walk jumps to from bucket `b` under state `k`; it lies beyond `b`.
pub fn jump_from(k: u64, b: u32) -> (j: u128)
    ensures
        j == scaled_product(b as nat, jump_divisor(k)),
        b < j,
{
    scaled_product_of(b, k / TWO_33 + 1)
}

} // verus!
