//! The random source: payloads and seeds drawn from the thread-local generator.

use vstd::prelude::*;
use rand::distributions::Standard;
use rand::{thread_rng, Rng, RngCore};

verus! {

/// `RngCore::fill_bytes` on `rand::thread_rng()`: a buffer of `len` bytes, filled
/// entirely with random data. Nothing is claimed of the bytes but their number.
#[verifier::external_body]
pub(crate) fn random_payload(len: usize) -> (bytes: Vec<u8>)
    ensures
        bytes@.len() == len,
{
    let mut bytes: Vec<u8> = vec![0u8; len];
    thread_rng().fill_bytes(&mut bytes);
    bytes
}

/// `Rng::sample_iter` with the `Standard` distribution on `rand::thread_rng()`: the
/// first `count` items of its endless stream of uniformly distributed 64-bit values.
/// Nothing is claimed of the values but their number.
#[verifier::external_body]
pub(crate) fn random_seeds(count: usize) -> (seeds: Vec<u64>)
    ensures
        seeds@.len() == count,
{
    thread_rng().sample_iter(Standard).take(count).collect::<Vec<u64>>()
}

} // verus!
