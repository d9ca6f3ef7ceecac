//! Experiments: how one trial is run against an algorithm, how a batch of trials
//! is accumulated, and what an accumulator says about the algorithm.

use vstd::prelude::*;
use vstd::multiset::Multiset;
use core::ops::RangeToInclusive;
use crate::acc::{Accumulator, AccumulatorError, NumCooccurrences, NumOccurrences};
use crate::algo::{consistent, Algorithm};
use crate::bag::{lemma_merge_commutative, lemma_merge_of_batches, recorded_after};
use crate::domain::{copy_of, in_box, volume_from, Domain};
use crate::rng::{random_payload, random_seeds};
use crate::stats::{
    check_independence, collisions, colliding_pairs, independence, independence_matches,
    independence_refusal, pairs,
    pairs_of, uniformity, uniformity_of, Independence, StatsError, Uniformity,
};
use crate::unique::all_unique;

verus! {

/// Why an experiment could not be set up or run.
#[derive(Clone, Copy, Debug, PartialEq, Eq, Structural)]
pub enum ExperimentError {
    /// Two seeds are equal.
    DuplicateSeeds,
    /// The domain of the tuples is too large to number.
    DomainTooLarge,
    /// Drawing again and again never gave what the experiment needs.
    Exhausted,
    /// The accumulator refused a trial.
    Refused(AccumulatorError),
}

/// The buckets that the payloads `payloads` fall into under `algorithm`, seed 0.
pub open spec fn buckets_of<A: Algorithm>(
    algorithm: &A,
    range_end: u64,
    payloads: Seq<Seq<u8>>,
) -> Seq<u64> {
    Seq::new(payloads.len(), |i: int| algorithm.bucket(payloads[i], 0, range_end))
}

/// Whether each of `payloads` has `size` bytes.
pub open spec fn sized(payloads: Seq<Seq<u8>>, size: nat) -> bool {
    forall|i: int| 0 <= i < payloads.len() ==> (#[trigger] payloads[i]).len() == size
}

/// An empty occurrence table for the range `[0, range_end]`.
fn occupancy_table(range_end: u64) -> (acc: NumOccurrences)
    requires
        range_end < usize::MAX,
    ensures
        acc.well_formed(),
        acc.num_buckets() == range_end + 1,
        acc@ == Multiset::<u64>::empty(),
{
    NumOccurrences::new(range_end as usize + 1)
}

/// One trial on a given payload: hashes it with seed 0 and records the bucket.
fn occupancy_trial<A: Algorithm>(
    range_end: u64,
    accumulator: &mut NumOccurrences,
    algorithm: &A,
    payload: &[u8],
) -> (r: Result<(), AccumulatorError>)
    requires
        old(accumulator).well_formed(),
        algorithm.accepts(payload@.len(), range_end),
    ensures
        algorithm.bucket(payload@, 0, range_end) <= range_end,
        old(accumulator).recording(
            algorithm.bucket(payload@, 0, range_end),
            r,
            final(accumulator),
        ),
{
    let bucket: u64 = algorithm.hash(payload, 0, ..=range_end);
    accumulator.record(bucket)
}

/// One trial on a random payload of `size` bytes.
fn occupancy_run<A: Algorithm>(
    range_end: u64,
    size: usize,
    accumulator: &mut NumOccurrences,
    algorithm: &A,
) -> (r: Result<(), AccumulatorError>)
    requires
        old(accumulator).well_formed(),
        algorithm.accepts(size as nat, range_end),
    ensures
        exists|payload: Seq<u8>|
            payload.len() == size && algorithm.bucket(payload, 0, range_end) <= range_end && old(
                accumulator,
            ).recording(#[trigger] algorithm.bucket(payload, 0, range_end), r, final(accumulator)),
{
    let payload: Vec<u8> = random_payload(size);
    let r = occupancy_trial(range_end, accumulator, algorithm, payload.as_slice());
    proof {
        assert(algorithm.bucket(payload@, 0, range_end) <= range_end && old(
            accumulator,
        ).recording(algorithm.bucket(payload@, 0, range_end), r, accumulator));
    }
    r
}

/// `num_iterations` trials on random payloads into a fresh table.
fn occupancy_accumulate<A: Algorithm>(
    range_end: u64,
    size: usize,
    algorithm: &A,
    num_iterations: u64,
) -> (acc: NumOccurrences)
    requires
        range_end < usize::MAX,
        algorithm.accepts(size as nat, range_end),
    ensures
        acc.well_formed(),
        acc.num_buckets() == range_end + 1,
        acc@.len() == num_iterations,
        exists|payloads: Seq<Seq<u8>>|
            payloads.len() == num_iterations && sized(payloads, size as nat) && acc@
                == recorded_after(
                Multiset::empty(),
                #[trigger] buckets_of(algorithm, range_end, payloads),
            ),
{
    let mut accumulator: NumOccurrences = occupancy_table(range_end);
    let ghost mut payloads: Seq<Seq<u8>> = Seq::empty();
    let mut done: u64 = 0;
    while done < num_iterations
        invariant
            done <= num_iterations,
            range_end < usize::MAX,
            algorithm.accepts(size as nat, range_end),
            accumulator.well_formed(),
            accumulator.num_buckets() == range_end + 1,
            accumulator@.len() == done,
            payloads.len() == done,
            sized(payloads, size as nat),
            accumulator@ == recorded_after(
                Multiset::empty(),
                buckets_of(algorithm, range_end, payloads),
            ),
        decreases num_iterations - done,
    {
        let ghost before = accumulator;
        let r = occupancy_run(range_end, size, &mut accumulator, algorithm);
        proof {
            broadcast use vstd::multiset::group_multiset_axioms;

            let payload = choose|payload: Seq<u8>|
                payload.len() == size && algorithm.bucket(payload, 0, range_end) <= range_end
                    && before.recording(
                    #[trigger] algorithm.bucket(payload, 0, range_end),
                    r,
                    &accumulator,
                );
            let longer = payloads.push(payload);
            assert(buckets_of(algorithm, range_end, longer).drop_last() =~= buckets_of(
                algorithm,
                range_end,
                payloads,
            ));
            assert(buckets_of(algorithm, range_end, longer).last() == algorithm.bucket(
                payload,
                0,
                range_end,
            ));
            payloads = longer;
        }
        done = done + 1;
    }
    accumulator
}

/// Two batches merge into one run: where one call of `accumulate` draws the payloads
/// `first`, a second draws `second` and a third draws first those and then these, the
/// first two results merged, in either order, hold what the third holds.
pub proof fn lemma_accumulate_merges<A: Algorithm>(
    algorithm: &A,
    range_end: u64,
    first: Seq<Seq<u8>>,
    second: Seq<Seq<u8>>,
)
    ensures
        recorded_after(Multiset::empty(), buckets_of(algorithm, range_end, first)).add(
            recorded_after(Multiset::empty(), buckets_of(algorithm, range_end, second)),
        ) == recorded_after(Multiset::empty(), buckets_of(algorithm, range_end, first + second)),
        recorded_after(Multiset::empty(), buckets_of(algorithm, range_end, second)).add(
            recorded_after(Multiset::empty(), buckets_of(algorithm, range_end, first)),
        ) == recorded_after(Multiset::empty(), buckets_of(algorithm, range_end, first + second)),
{
    let a = buckets_of(algorithm, range_end, first);
    let b = buckets_of(algorithm, range_end, second);
    assert(buckets_of(algorithm, range_end, first + second) =~= a + b);
    lemma_merge_of_batches(a, b);
    lemma_merge_commutative(
        recorded_after(Multiset::empty(), a),
        recorded_after(Multiset::empty(), b),
    );
}

/// Regularity: how evenly an algorithm spreads random keys over the buckets of one range.
#[derive(Clone, Copy, Debug)]
pub struct Regularity {
    range_end: u64,
    input_size_bytes: usize,
}

impl Regularity {
    /// The last bucket of the range.
    pub closed spec fn range_end(&self) -> u64 {
        self.range_end
    }

    /// The size of a payload in bytes.
    pub closed spec fn input_size_bytes(&self) -> usize {
        self.input_size_bytes
    }

    /// The experiment on the buckets `0..=range.end` with payloads of `input_size_bytes` bytes.
    pub fn new(range: RangeToInclusive<u64>, input_size_bytes: usize) -> (experiment: Self)
        ensures
            experiment.range_end() == range.end,
            experiment.input_size_bytes() == input_size_bytes,
    {
        Regularity { range_end: range.end, input_size_bytes }
    }

    /// The range of the buckets.
    pub fn range(&self) -> (range: RangeToInclusive<u64>)
        ensures
            range.end == self.range_end(),
    {
        ..=self.range_end
    }

    /// The size of a payload in bytes.
    pub fn payload_size(&self) -> (size: usize)
        ensures
            size == self.input_size_bytes(),
    {
        self.input_size_bytes
    }

    /// An empty accumulator with one counter per bucket of the range. The number of
    /// buckets must fit the index of a table: a range that ends at `usize::MAX` or
    /// beyond is a violated precondition.
    pub fn new_accumulator(&self) -> (acc: NumOccurrences)
        requires
            self.range_end() < usize::MAX,
        ensures
            acc.well_formed(),
            acc.num_buckets() == self.range_end() + 1,
            acc@ == Multiset::<u64>::empty(),
    {
        occupancy_table(self.range_end)
    }

    /// Runs one trial on `payload`: records the bucket that `algorithm` gives it with seed 0.
    pub fn trial<A: Algorithm>(
        &self,
        accumulator: &mut NumOccurrences,
        algorithm: &A,
        payload: &[u8],
    ) -> (r: Result<(), AccumulatorError>)
        requires
            old(accumulator).well_formed(),
            algorithm.accepts(payload@.len(), self.range_end()),
        ensures
            algorithm.bucket(payload@, 0, self.range_end()) <= self.range_end(),
            old(accumulator).recording(
                algorithm.bucket(payload@, 0, self.range_end()),
                r,
                final(accumulator),
            ),
    {
        occupancy_trial(self.range_end, accumulator, algorithm, payload)
    }

    /// Runs one trial on a random payload.
    pub fn run<A: Algorithm>(&self, accumulator: &mut NumOccurrences, algorithm: &A) -> (r: Result<
        (),
        AccumulatorError,
    >)
        requires
            old(accumulator).well_formed(),
            algorithm.accepts(self.input_size_bytes() as nat, self.range_end()),
        ensures
            exists|payload: Seq<u8>|
                payload.len() == self.input_size_bytes() && algorithm.bucket(
                    payload,
                    0,
                    self.range_end(),
                ) <= self.range_end() && old(accumulator).recording(
                    #[trigger] algorithm.bucket(payload, 0, self.range_end()),
                    r,
                    final(accumulator),
                ),
    {
        occupancy_run(self.range_end, self.input_size_bytes, accumulator, algorithm)
    }

    /// Runs `num_iterations` trials on random payloads into a fresh accumulator.
    pub fn accumulate<A: Algorithm>(&self, algorithm: &A, num_iterations: u64) -> (acc:
        NumOccurrences)
        requires
            self.range_end() < usize::MAX,
            algorithm.accepts(self.input_size_bytes() as nat, self.range_end()),
        ensures
            acc.well_formed(),
            acc.num_buckets() == self.range_end() + 1,
            acc@.len() == num_iterations,
            exists|payloads: Seq<Seq<u8>>|
                payloads.len() == num_iterations && sized(
                    payloads,
                    self.input_size_bytes() as nat,
                ) && acc@ == recorded_after(
                    Multiset::empty(),
                    #[trigger] buckets_of(algorithm, self.range_end(), payloads),
                ),
    {
        occupancy_accumulate(self.range_end, self.input_size_bytes, algorithm, num_iterations)
    }

    /// The distances of the recorded distribution from the uniform one, and its chi-squared
    /// statistic, as exact fractions. The result is a function of the counters alone.
    ///
    /// The test of uniformity needs two buckets at least: an accumulator with fewer is a
    /// violated precondition.
    pub fn summary(&self, accumulator: &NumOccurrences) -> (r: Result<Uniformity, StatsError>)
        requires
            accumulator.well_formed(),
            accumulator.num_buckets() >= 2,
        ensures
            r == uniformity_of(occupancy(accumulator)),
    {
        let counts = accumulator.counts();
        proof {
            assert(counts@ =~= occupancy(accumulator));
        }
        uniformity(counts)
    }
}

/// The counters of an occurrence table: for each bucket, how often it was recorded.
pub open spec fn occupancy(accumulator: &NumOccurrences) -> Seq<u64> {
    Seq::new(accumulator.num_buckets(), |i: int| accumulator@.count(i as u64) as u64)
}

/// What the collisions experiment reports of an accumulator.
///
/// The estimate of the collision probability is `num_collisions / num_pairs`; multiplied
/// by `num_buckets` it is 1 in expectation for a uniform distribution.
#[derive(Clone, Copy, Debug, PartialEq, Eq, Structural)]
pub struct CollisionSummary {
    /// The number of trials.
    pub num_keys: u64,
    /// The pairs of trials that fell into one bucket: `sum of c * (c - 1) / 2` over the counters.
    pub num_collisions: u128,
    /// The pairs of trials: `n * (n - 1) / 2`.
    pub num_pairs: u128,
    /// The number of buckets.
    pub num_buckets: usize,
}

/// Collisions: how often two random keys fall into one bucket.
#[derive(Clone, Copy, Debug)]
pub struct Collisions {
    range_end: u64,
    input_size_bytes: usize,
}

impl Collisions {
    /// The last bucket of the range.
    pub closed spec fn range_end(&self) -> u64 {
        self.range_end
    }

    /// The size of a payload in bytes.
    pub closed spec fn input_size_bytes(&self) -> usize {
        self.input_size_bytes
    }

    /// The experiment on the buckets `0..=range.end` with payloads of `input_size_bytes` bytes.
    pub fn new(range: RangeToInclusive<u64>, input_size_bytes: usize) -> (experiment: Self)
        ensures
            experiment.range_end() == range.end,
            experiment.input_size_bytes() == input_size_bytes,
    {
        Collisions { range_end: range.end, input_size_bytes }
    }

    /// The range of the buckets.
    pub fn range(&self) -> (range: RangeToInclusive<u64>)
        ensures
            range.end == self.range_end(),
    {
        ..=self.range_end
    }

    /// The size of a payload in bytes.
    pub fn payload_size(&self) -> (size: usize)
        ensures
            size == self.input_size_bytes(),
    {
        self.input_size_bytes
    }

    /// An empty accumulator with one counter per bucket of the range. The number of
    /// buckets must fit the index of a table: a range that ends at `usize::MAX` or
    /// beyond is a violated precondition.
    pub fn new_accumulator(&self) -> (acc: NumOccurrences)
        requires
            self.range_end() < usize::MAX,
        ensures
            acc.well_formed(),
            acc.num_buckets() == self.range_end() + 1,
            acc@ == Multiset::<u64>::empty(),
    {
        occupancy_table(self.range_end)
    }

    /// Runs one trial on `payload`: records the bucket that `algorithm` gives it with seed 0.
    pub fn trial<A: Algorithm>(
        &self,
        accumulator: &mut NumOccurrences,
        algorithm: &A,
        payload: &[u8],
    ) -> (r: Result<(), AccumulatorError>)
        requires
            old(accumulator).well_formed(),
            algorithm.accepts(payload@.len(), self.range_end()),
        ensures
            algorithm.bucket(payload@, 0, self.range_end()) <= self.range_end(),
            old(accumulator).recording(
                algorithm.bucket(payload@, 0, self.range_end()),
                r,
                final(accumulator),
            ),
    {
        occupancy_trial(self.range_end, accumulator, algorithm, payload)
    }

    /// Runs one trial on a random payload.
    pub fn run<A: Algorithm>(&self, accumulator: &mut NumOccurrences, algorithm: &A) -> (r: Result<
        (),
        AccumulatorError,
    >)
        requires
            old(accumulator).well_formed(),
            algorithm.accepts(self.input_size_bytes() as nat, self.range_end()),
        ensures
            exists|payload: Seq<u8>|
                payload.len() == self.input_size_bytes() && algorithm.bucket(
                    payload,
                    0,
                    self.range_end(),
                ) <= self.range_end() && old(accumulator).recording(
                    #[trigger] algorithm.bucket(payload, 0, self.range_end()),
                    r,
                    final(accumulator),
                ),
    {
        occupancy_run(self.range_end, self.input_size_bytes, accumulator, algorithm)
    }

    /// Runs `num_iterations` trials on random payloads into a fresh accumulator.
    pub fn accumulate<A: Algorithm>(&self, algorithm: &A, num_iterations: u64) -> (acc:
        NumOccurrences)
        requires
            self.range_end() < usize::MAX,
            algorithm.accepts(self.input_size_bytes() as nat, self.range_end()),
        ensures
            acc.well_formed(),
            acc.num_buckets() == self.range_end() + 1,
            acc@.len() == num_iterations,
            exists|payloads: Seq<Seq<u8>>|
                payloads.len() == num_iterations && sized(
                    payloads,
                    self.input_size_bytes() as nat,
                ) && acc@ == recorded_after(
                    Multiset::empty(),
                    #[trigger] buckets_of(algorithm, self.range_end(), payloads),
                ),
    {
        occupancy_accumulate(self.range_end, self.input_size_bytes, algorithm, num_iterations)
    }

    /// Counts the collisions among the recorded trials. The result is a function of the
    /// counters alone.
    pub fn summary(&self, accumulator: &NumOccurrences) -> (s: CollisionSummary)
        requires
            accumulator.well_formed(),
        ensures
            s.num_keys == accumulator@.len(),
            s.num_collisions == colliding_pairs(occupancy(accumulator)),
            s.num_pairs == pairs(accumulator@.len()),
            s.num_buckets == accumulator.num_buckets(),
            s.num_collisions <= s.num_pairs,
    {
        let num_keys: u64 = accumulator.num_iterations();
        let counts = accumulator.counts();
        proof {
            assert(counts@ =~= occupancy(accumulator));
        }
        proof {
            crate::stats::lemma_collisions_fit(counts@);
        }
        let num_collisions: u128 = match collisions(counts) {
            Ok(c) => c,
            Err(_) => {
                proof {
                    assert(false);
                }
                0
            },
        };
        CollisionSummary {
            num_keys,
            num_collisions,
            num_pairs: pairs_of(num_keys),
            num_buckets: counts.len(),
        }
    }
}

/// Whether the values increase strictly.
pub open spec fn increasing(ends: Seq<u64>) -> bool {
    forall|i: int, j: int| 0 <= i < j < ends.len() ==> ends[i] < ends[j]
}

/// The first bucket of each sub-range: 0, then the bucket after the end of the range before.
pub open spec fn sub_range_starts(ends: Seq<u64>) -> Seq<u64> {
    Seq::new(
        ends.len(),
        |j: int|
            if j == 0 {
                0
            } else {
                (ends[j - 1] + 1) as u64
            },
    )
}

/// The ends of a list of ranges.
pub open spec fn ends_of(ranges: Seq<RangeToInclusive<u64>>) -> Seq<u64> {
    Seq::new(ranges.len(), |i: int| ranges[i].end)
}

/// The bucket of `payload` in each of the ranges `[0, ends[j]]`, seed 0.
pub open spec fn hashes_across_ranges<A: Algorithm>(
    algorithm: &A,
    ends: Seq<u64>,
    payload: Seq<u8>,
) -> Seq<u64> {
    Seq::new(ends.len(), |j: int| algorithm.bucket(payload, 0, ends[j]))
}

/// The bucket of `payload` in the range `[0, range_end]` under each of the seeds.
pub open spec fn hashes_across_seeds<A: Algorithm>(
    algorithm: &A,
    seeds: Seq<u64>,
    range_end: u64,
    payload: Seq<u8>,
) -> Seq<u64> {
    Seq::new(seeds.len(), |j: int| algorithm.bucket(payload, seeds[j], range_end))
}

/// The tuples that the payloads `payloads` give across the ranges.
pub open spec fn tuples_across_ranges<A: Algorithm>(
    algorithm: &A,
    ends: Seq<u64>,
    payloads: Seq<Seq<u8>>,
) -> Seq<Seq<u64>> {
    Seq::new(payloads.len(), |i: int| hashes_across_ranges(algorithm, ends, payloads[i]))
}

/// The tuples that the payloads `payloads` give across the seeds.
pub open spec fn tuples_across_seeds<A: Algorithm>(
    algorithm: &A,
    seeds: Seq<u64>,
    range_end: u64,
    payloads: Seq<Seq<u8>>,
) -> Seq<Seq<u64>> {
    Seq::new(
        payloads.len(),
        |i: int| hashes_across_seeds(algorithm, seeds, range_end, payloads[i]),
    )
}

/// Two batches across ranges merge into one run, in either order.
pub proof fn lemma_accumulate_across_ranges_merges<A: Algorithm>(
    algorithm: &A,
    ends: Seq<u64>,
    first: Seq<Seq<u8>>,
    second: Seq<Seq<u8>>,
)
    ensures
        recorded_after(Multiset::empty(), tuples_across_ranges(algorithm, ends, first)).add(
            recorded_after(Multiset::empty(), tuples_across_ranges(algorithm, ends, second)),
        ) == recorded_after(
            Multiset::empty(),
            tuples_across_ranges(algorithm, ends, first + second),
        ),
        recorded_after(Multiset::empty(), tuples_across_ranges(algorithm, ends, second)).add(
            recorded_after(Multiset::empty(), tuples_across_ranges(algorithm, ends, first)),
        ) == recorded_after(
            Multiset::empty(),
            tuples_across_ranges(algorithm, ends, first + second),
        ),
{
    let a = tuples_across_ranges(algorithm, ends, first);
    let b = tuples_across_ranges(algorithm, ends, second);
    assert(tuples_across_ranges(algorithm, ends, first + second) =~= a + b);
    lemma_merge_of_batches(a, b);
    lemma_merge_commutative(
        recorded_after(Multiset::empty(), a),
        recorded_after(Multiset::empty(), b),
    );
}

/// Two batches across seeds merge into one run, in either order.
pub proof fn lemma_accumulate_across_seeds_merges<A: Algorithm>(
    algorithm: &A,
    seeds: Seq<u64>,
    range_end: u64,
    first: Seq<Seq<u8>>,
    second: Seq<Seq<u8>>,
)
    ensures
        recorded_after(
            Multiset::empty(),
            tuples_across_seeds(algorithm, seeds, range_end, first),
        ).add(
            recorded_after(
                Multiset::empty(),
                tuples_across_seeds(algorithm, seeds, range_end, second),
            ),
        ) == recorded_after(
            Multiset::empty(),
            tuples_across_seeds(algorithm, seeds, range_end, first + second),
        ),
        recorded_after(
            Multiset::empty(),
            tuples_across_seeds(algorithm, seeds, range_end, second),
        ).add(
            recorded_after(
                Multiset::empty(),
                tuples_across_seeds(algorithm, seeds, range_end, first),
            ),
        ) == recorded_after(
            Multiset::empty(),
            tuples_across_seeds(algorithm, seeds, range_end, first + second),
        ),
{
    let a = tuples_across_seeds(algorithm, seeds, range_end, first);
    let b = tuples_across_seeds(algorithm, seeds, range_end, second);
    assert(tuples_across_seeds(algorithm, seeds, range_end, first + second) =~= a + b);
    lemma_merge_of_batches(a, b);
    lemma_merge_commutative(
        recorded_after(Multiset::empty(), a),
        recorded_after(Multiset::empty(), b),
    );
}

/// `count` times the value `value`.
pub open spec fn repeated(value: u64, count: nat) -> Seq<u64> {
    Seq::new(count, |j: int| value)
}

/// What a trial with rejection answers for the tuple `t`: `Ok(false)` rejects a tuple
/// with two equal coordinates, `Ok(true)` says that the tuple was recorded.
pub open spec fn rejection_result(before: &NumCooccurrences, t: Seq<u64>) -> Result<
    bool,
    AccumulatorError,
> {
    if !t.no_duplicates() {
        Ok(false)
    } else {
        match before.record_result(t) {
            Ok(_) => Ok(true),
            Err(e) => Err(e),
        }
    }
}

/// Whether a trial with rejection on the tuple `t` answers `r` and leaves `after`.
pub open spec fn rejecting(
    before: &NumCooccurrences,
    t: Seq<u64>,
    r: Result<bool, AccumulatorError>,
    after: &NumCooccurrences,
) -> bool {
    &&& after.well_formed()
    &&& after.domain() == before.domain()
    &&& r == rejection_result(before, t)
    &&& after@ == (if r == Ok::<bool, AccumulatorError>(true) {
        before@.insert(t)
    } else {
        before@
    })
}

/// A tuple with one coordinate in each of the sub-ranges has no two equal coordinates:
/// the sub-ranges are disjoint.
pub proof fn lemma_sub_ranges_disjoint(ends: Seq<u64>, t: Seq<u64>)
    requires
        increasing(ends),
        in_box(sub_range_starts(ends), ends, t),
    ensures
        t.no_duplicates(),
{
    let starts = sub_range_starts(ends);
    assert forall|i: int, j: int| 0 <= i < t.len() && 0 <= j < t.len() && i != j implies t[i]
        != t[j] by {
        if i < j {
            assert(starts[i] <= t[i] && t[i] <= ends[i]);
            assert(starts[j] <= t[j] && t[j] <= ends[j]);
            assert(ends[i] <= ends[j - 1]);
        } else {
            assert(starts[i] <= t[i] && t[i] <= ends[i]);
            assert(starts[j] <= t[j] && t[j] <= ends[j]);
            assert(ends[j] <= ends[i - 1]);
        }
    }
}

/// Under a consistent algorithm, a tuple of pairwise distinct buckets across increasing
/// ranges has one bucket in each sub-range: the accumulator of the experiment never
/// refuses it as out of range.
pub proof fn lemma_consistent_tuples_in_domain<A: Algorithm>(
    algorithm: &A,
    ends: Seq<u64>,
    payload: Seq<u8>,
)
    requires
        increasing(ends),
        consistent(algorithm, payload, 0),
        forall|j: int| 0 <= j < ends.len() ==> algorithm.accepts(payload.len(), #[trigger] ends[j]),
        hashes_across_ranges(algorithm, ends, payload).no_duplicates(),
    ensures
        in_box(sub_range_starts(ends), ends, hashes_across_ranges(algorithm, ends, payload)),
{
    let t = hashes_across_ranges(algorithm, ends, payload);
    let starts = sub_range_starts(ends);
    assert forall|j: int| 0 <= j < t.len() implies starts[j] <= #[trigger] t[j] && t[j]
        <= ends[j] by {
        assert(algorithm.accepts(payload.len(), ends[j]));
        let here = algorithm.bucket(payload, 0, ends[j]);
        assert(t[j] == here);
        if j > 0 {
            assert(ends[j - 1] < ends[j]);
            let before = algorithm.bucket(payload, 0, ends[j - 1]);
            assert(t[j - 1] == before);
            assert(here == before || ends[j - 1] < here <= ends[j]);
            assert(t[j - 1] != t[j]);
        } else {
            assert(here <= ends[j] && (here == here || ends[j] < here));
        }
    }
}

/// Independence across ranges: whether the buckets that an algorithm gives one key in
/// several nested ranges are mutually independent, given that they differ pairwise.
#[derive(Clone, Debug)]
pub struct IndependenceAcrossRanges {
    range_ends: Vec<u64>,
    input_size_bytes: usize,
}

impl IndependenceAcrossRanges {
    /// The last bucket of each range, in the order given.
    pub closed spec fn range_ends(&self) -> Seq<u64> {
        self.range_ends@
    }

    /// The size of a payload in bytes.
    pub closed spec fn input_size_bytes(&self) -> usize {
        self.input_size_bytes
    }

    /// There is a range, and the ranges end at strictly increasing buckets.
    pub open spec fn well_formed(&self) -> bool {
        &&& self.range_ends().len() >= 1
        &&& increasing(self.range_ends())
    }

    /// Whether `algorithm` takes the payloads of this experiment for every range.
    pub open spec fn admits<A: Algorithm>(&self, algorithm: &A, size: nat) -> bool {
        forall|j: int|
            0 <= j < self.range_ends().len() ==> algorithm.accepts(
                size,
                #[trigger] self.range_ends()[j],
            )
    }

    /// Whether no two of the ranges end at the same bucket.
    pub fn ends_differ(ranges: &Vec<RangeToInclusive<u64>>) -> (differ: bool)
        ensures
            differ == ends_of(ranges@).no_duplicates(),
    {
        let range_ends: Vec<u64> = Self::ends_in_order(ranges);
        all_unique(&range_ends)
    }

    /// The ends of the ranges, in the order given.
    fn ends_in_order(ranges: &Vec<RangeToInclusive<u64>>) -> (range_ends: Vec<u64>)
        ensures
            range_ends@ == ends_of(ranges@),
    {
        let ghost ends = ends_of(ranges@);
        let mut range_ends: Vec<u64> = Vec::new();
        let mut i: usize = 0;
        while i < ranges.len()
            invariant
                i <= ranges@.len(),
                ends == ends_of(ranges@),
                range_ends@ == ends.take(i as int),
            decreases ranges@.len() - i,
        {
            range_ends.push(ranges[i].end);
            i = i + 1;
            proof {
                assert(range_ends@ =~= ends.take(i as int));
            }
        }
        proof {
            assert(ends.take(ranges@.len() as int) =~= ends);
        }
        range_ends
    }

    /// The experiment on the ranges `ranges`, in the order given, with payloads of
    /// `input_size_bytes` bytes. No two ranges may end at the same bucket, which
    /// `ends_differ` tells: a repeated end is a violated precondition.
    pub fn new(ranges: Vec<RangeToInclusive<u64>>, input_size_bytes: usize) -> (experiment: Self)
        requires
            ends_of(ranges@).no_duplicates(),
        ensures
            experiment.range_ends() == ends_of(ranges@),
            experiment.range_ends().no_duplicates(),
            experiment.input_size_bytes() == input_size_bytes,
    {
        IndependenceAcrossRanges { range_ends: Self::ends_in_order(&ranges), input_size_bytes }
    }

    /// Whether the ranges can be told apart by what each adds to the one before: there
    /// is a range, and the ends increase strictly.
    pub fn partitions(&self) -> (well_formed: bool)
        ensures
            well_formed == self.well_formed(),
    {
        let ghost ends = self.range_ends@;
        if self.range_ends.len() == 0 {
            return false;
        }
        let mut j: usize = 1;
        while j < self.range_ends.len()
            invariant
                1 <= j <= self.range_ends@.len(),
                ends == self.range_ends@,
                forall|a: int, b: int| 0 <= a < b < j ==> ends[a] < ends[b],
            decreases self.range_ends@.len() - j,
        {
            if self.range_ends[j - 1] >= self.range_ends[j] {
                proof {
                    assert(!(ends[j - 1] < ends[j as int]));
                }
                return false;
            }
            proof {
                assert forall|a: int, b: int| 0 <= a < b < j + 1 implies ends[a] < ends[b] by {
                    if b == j && a < j - 1 {
                        assert(ends[a] < ends[j - 1]);
                    }
                }
            }
            j = j + 1;
        }
        true
    }

    /// The last bucket of each range.
    pub fn ends(&self) -> (ends: &Vec<u64>)
        ensures
            ends@ == self.range_ends(),
    {
        &self.range_ends
    }

    /// The size of a payload in bytes.
    pub fn payload_size(&self) -> (size: usize)
        ensures
            size == self.input_size_bytes(),
    {
        self.input_size_bytes
    }

    /// An empty accumulator for the tuples with one bucket in each sub-range: the first
    /// range, and what each further range adds to the range before it.
    pub fn new_accumulator(&self) -> (r: Result<NumCooccurrences, ExperimentError>)
        requires
            self.well_formed(),
        ensures
            volume_from(sub_range_starts(self.range_ends()), self.range_ends(), 0) > u128::MAX
                ==> r == Err::<NumCooccurrences, ExperimentError>(ExperimentError::DomainTooLarge),
            volume_from(sub_range_starts(self.range_ends()), self.range_ends(), 0) <= u128::MAX
                ==> r is Ok,
            r matches Ok(acc) ==> acc.well_formed() && acc.domain().lower() == sub_range_starts(
                self.range_ends(),
            ) && acc.domain().upper() == self.range_ends() && acc@ == Multiset::<
                Seq<u64>,
            >::empty(),
    {
        let ghost ends = self.range_ends@;
        let ghost starts = sub_range_starts(ends);
        let mut lower: Vec<u64> = Vec::new();
        lower.push(0);
        let mut j: usize = 1;
        proof {
            assert(lower@ =~= starts.take(1));
        }
        while j < self.range_ends.len()
            invariant
                1 <= j <= self.range_ends@.len(),
                ends == self.range_ends@,
                starts == sub_range_starts(ends),
                increasing(ends),
                lower@ == starts.take(j as int),
            decreases self.range_ends@.len() - j,
        {
            proof {
                assert(ends[j - 1] < ends[j as int]);
            }
            lower.push(self.range_ends[j - 1] + 1);
            j = j + 1;
            proof {
                assert(lower@ =~= starts.take(j as int));
            }
        }
        proof {
            assert(starts.take(ends.len() as int) =~= starts);
            assert forall|h: int| 0 <= h < starts.len() implies #[trigger] starts[h] <= ends[h] by {
                if h > 0 {
                    assert(ends[h - 1] < ends[h]);
                }
            }
        }
        let upper: Vec<u64> = copy_of(&self.range_ends);
        match Domain::new(lower, upper) {
            Ok(domain) => Ok(NumCooccurrences::new(domain)),
            Err(_) => Err(ExperimentError::DomainTooLarge),
        }
    }

    /// The bucket of `payload` in each range, seed 0.
    pub fn hashes<A: Algorithm>(&self, algorithm: &A, payload: &[u8]) -> (hashes: Vec<u64>)
        requires
            self.admits(algorithm, payload@.len()),
        ensures
            hashes@ == hashes_across_ranges(algorithm, self.range_ends(), payload@),
            forall|j: int| 0 <= j < hashes@.len() ==> #[trigger] hashes@[j] <= self.range_ends()[j],
    {
        let ghost expected = hashes_across_ranges(algorithm, self.range_ends@, payload@);
        let mut hashes: Vec<u64> = Vec::new();
        let mut j: usize = 0;
        while j < self.range_ends.len()
            invariant
                j <= self.range_ends@.len(),
                self.admits(algorithm, payload@.len()),
                expected == hashes_across_ranges(algorithm, self.range_ends@, payload@),
                hashes@ == expected.take(j as int),
                forall|h: int| 0 <= h < j ==> #[trigger] hashes@[h] <= self.range_ends@[h],
            decreases self.range_ends@.len() - j,
        {
            proof {
                assert(algorithm.accepts(payload@.len(), self.range_ends()[j as int]));
            }
            let h: u64 = algorithm.hash(payload, 0, ..=self.range_ends[j]);
            hashes.push(h);
            j = j + 1;
            proof {
                assert(hashes@ =~= expected.take(j as int));
            }
        }
        proof {
            assert(expected.take(expected.len() as int) =~= expected);
        }
        hashes
    }

    /// Records the tuple `hashes` unless two of its coordinates are equal: `Ok(true)`
    /// where it was recorded, `Ok(false)` where it was rejected and nothing changed.
    pub fn record(&self, accumulator: &mut NumCooccurrences, hashes: Vec<u64>) -> (r: Result<
        bool,
        AccumulatorError,
    >)
        requires
            old(accumulator).well_formed(),
        ensures
            rejecting(old(accumulator), hashes@, r, final(accumulator)),
            r == Ok::<bool, AccumulatorError>(true) ==> hashes@.no_duplicates(),
    {
        if !all_unique(&hashes) {
            return Ok(false);
        }
        match accumulator.record(hashes) {
            Ok(_) => Ok(true),
            Err(e) => Err(e),
        }
    }

    /// Runs one attempt of a trial on `payload`: hashes it into every range and records
    /// the tuple unless two of the buckets are equal.
    pub fn trial<A: Algorithm>(
        &self,
        accumulator: &mut NumCooccurrences,
        algorithm: &A,
        payload: &[u8],
    ) -> (r: Result<bool, AccumulatorError>)
        requires
            old(accumulator).well_formed(),
            self.admits(algorithm, payload@.len()),
        ensures
            rejecting(
                old(accumulator),
                hashes_across_ranges(algorithm, self.range_ends(), payload@),
                r,
                final(accumulator),
            ),
            forall|j: int|
                0 <= j < self.range_ends().len() ==> (#[trigger] hashes_across_ranges(
                    algorithm,
                    self.range_ends(),
                    payload@,
                )[j]) <= self.range_ends()[j],
    {
        let hashes: Vec<u64> = self.hashes(algorithm, payload);
        self.record(accumulator, hashes)
    }

    /// Whether a trial into `accumulator` succeeds whatever is drawn: with a single range
    /// no tuple is rejected, and an accumulator of this experiment with room for one more
    /// trial takes every bucket of the range.
    pub open spec fn surely_records(&self, accumulator: &NumCooccurrences) -> bool {
        &&& self.range_ends().len() == 1
        &&& accumulator.domain().lower() == sub_range_starts(self.range_ends())
        &&& accumulator.domain().upper() == self.range_ends()
        &&& accumulator@.len() < u64::MAX
    }

    /// Runs one trial: draws random payloads until one gives pairwise distinct buckets,
    /// and records that tuple. Gives up with `Exhausted` after `u64::MAX` rejections.
    ///
    /// With a single range the first draw is recorded. `Exhausted` means that `u64::MAX`
    /// payloads were drawn and each gave two equal buckets.
    pub fn run<A: Algorithm>(&self, accumulator: &mut NumCooccurrences, algorithm: &A) -> (r:
        Result<(), ExperimentError>)
        requires
            old(accumulator).well_formed(),
            self.admits(algorithm, self.input_size_bytes() as nat),
        ensures
            final(accumulator).well_formed(),
            final(accumulator).domain() == old(accumulator).domain(),
            self.surely_records(old(accumulator)) ==> r is Ok,
            r == Err::<(), ExperimentError>(ExperimentError::Exhausted) ==> exists|
                rejected: Seq<Seq<u8>>,
            |
                #![trigger rejected.len()]
                rejected.len() == u64::MAX && forall|i: int|
                    0 <= i < rejected.len() ==> (#[trigger] rejected[i]).len()
                        == self.input_size_bytes() && !hashes_across_ranges(
                        algorithm,
                        self.range_ends(),
                        rejected[i],
                    ).no_duplicates(),
            r is Ok ==> exists|payload: Seq<u8>|
                payload.len() == self.input_size_bytes() && (#[trigger] hashes_across_ranges(
                    algorithm,
                    self.range_ends(),
                    payload,
                )).no_duplicates() && final(accumulator)@ == old(accumulator)@.insert(
                    hashes_across_ranges(algorithm, self.range_ends(), payload),
                ),
            r is Err ==> final(accumulator)@ == old(accumulator)@,
            r matches Err(ExperimentError::Refused(e)) ==> exists|payload: Seq<u8>|
                payload.len() == self.input_size_bytes() && old(accumulator).record_result(
                    #[trigger] hashes_across_ranges(algorithm, self.range_ends(), payload),
                ) == Err::<(), AccumulatorError>(e),
            r is Err ==> r matches Err(ExperimentError::Refused(_)) || r == Err::<
                (),
                ExperimentError,
            >(ExperimentError::Exhausted),
    {
        let ghost mut rejected: Seq<Seq<u8>> = Seq::empty();
        let mut attempts: u64 = 0;
        while attempts < u64::MAX
            invariant
                accumulator.well_formed(),
                accumulator.domain() == old(accumulator).domain(),
                accumulator@ == old(accumulator)@,
                self.admits(algorithm, self.input_size_bytes() as nat),
                self.surely_records(old(accumulator)) ==> attempts == 0,
                rejected.len() == attempts,
                forall|i: int|
                    0 <= i < rejected.len() ==> (#[trigger] rejected[i]).len()
                        == self.input_size_bytes() && !hashes_across_ranges(
                        algorithm,
                        self.range_ends(),
                        rejected[i],
                    ).no_duplicates(),
            decreases u64::MAX - attempts,
        {
            let payload: Vec<u8> = random_payload(self.input_size_bytes);
            let ghost t = hashes_across_ranges(algorithm, self.range_ends(), payload@);
            let outcome = self.trial(accumulator, algorithm, payload.as_slice());
            proof {
                if self.surely_records(old(accumulator)) {
                    assert(t.len() == 1);
                    assert(t.no_duplicates());
                    assert(sub_range_starts(self.range_ends())[0] == 0);
                    assert(t[0] <= self.range_ends()[0]);
                    assert(old(accumulator).domain().contains(t));
                    assert(outcome == Ok::<bool, AccumulatorError>(true));
                }
            }
            match outcome {
                Ok(recorded) => {
                    if recorded {
                        proof {
                            assert(t.no_duplicates());
                        }
                        return Ok(());
                    }
                },
                Err(e) => {
                    proof {
                        assert(old(accumulator).record_result(t) == Err::<(), AccumulatorError>(e));
                    }
                    return Err(ExperimentError::Refused(e));
                },
            }
            proof {
                rejected = rejected.push(payload@);
            }
            attempts = attempts + 1;
        }
        Err(ExperimentError::Exhausted)
    }

    /// Runs `num_iterations` trials into a fresh accumulator. A domain too large is
    /// refused before any trial; with a single range every trial succeeds.
    pub fn accumulate<A: Algorithm>(&self, algorithm: &A, num_iterations: u64) -> (r: Result<
        NumCooccurrences,
        ExperimentError,
    >)
        requires
            self.well_formed(),
            self.admits(algorithm, self.input_size_bytes() as nat),
        ensures
            r matches Ok(acc) ==> acc.well_formed() && acc.domain().lower() == sub_range_starts(
                self.range_ends(),
            ) && acc.domain().upper() == self.range_ends() && acc@.len() == num_iterations
                && exists|payloads: Seq<Seq<u8>>|
                payloads.len() == num_iterations && sized(
                    payloads,
                    self.input_size_bytes() as nat,
                ) && acc@ == recorded_after(
                    Multiset::empty(),
                    #[trigger] tuples_across_ranges(algorithm, self.range_ends(), payloads),
                ),
            volume_from(sub_range_starts(self.range_ends()), self.range_ends(), 0) > u128::MAX
                ==> r == Err::<NumCooccurrences, ExperimentError>(ExperimentError::DomainTooLarge),
            self.range_ends().len() == 1 ==> r is Ok,
            r is Err ==> volume_from(sub_range_starts(self.range_ends()), self.range_ends(), 0)
                > u128::MAX || num_iterations > 0 && (r matches Err(ExperimentError::Refused(_))
                || r == Err::<NumCooccurrences, ExperimentError>(ExperimentError::Exhausted)),
            r matches Err(ExperimentError::Refused(e)) ==> e == AccumulatorError::OutOfRange
                && exists|payload: Seq<u8>|
                payload.len() == self.input_size_bytes() && !in_box(
                    sub_range_starts(self.range_ends()),
                    self.range_ends(),
                    #[trigger] hashes_across_ranges(algorithm, self.range_ends(), payload),
                ),
            r matches Err(ExperimentError::Exhausted) ==> exists|rejected: Seq<Seq<u8>>|
                #![trigger rejected.len()]
                rejected.len() == u64::MAX && forall|i: int|
                    0 <= i < rejected.len() ==> (#[trigger] rejected[i]).len()
                        == self.input_size_bytes() && !hashes_across_ranges(
                        algorithm,
                        self.range_ends(),
                        rejected[i],
                    ).no_duplicates(),
    {
        proof {
            if self.range_ends().len() == 1 {
                let ends = self.range_ends();
                let starts = sub_range_starts(ends);
                assert(starts.len() == 1 && starts[0] == 0);
                assert(volume_from(starts, ends, 1) == 1);
                assert(volume_from(starts, ends, 0) == crate::domain::extent(starts, ends, 0)
                    * volume_from(starts, ends, 1));
                let e = crate::domain::extent(starts, ends, 0);
                assert(e == ends[0] + 1);
                assert(e * 1 == e) by (nonlinear_arith);
                assert(volume_from(starts, ends, 0) <= u128::MAX);
            }
        }
        let mut accumulator: NumCooccurrences = match self.new_accumulator() {
            Ok(acc) => acc,
            Err(e) => {
                return Err(e);
            },
        };
        let ghost mut payloads: Seq<Seq<u8>> = Seq::empty();
        let mut done: u64 = 0;
        while done < num_iterations
            invariant
                done <= num_iterations,
                self.admits(algorithm, self.input_size_bytes() as nat),
                volume_from(sub_range_starts(self.range_ends()), self.range_ends(), 0)
                    <= u128::MAX,
                accumulator.well_formed(),
                accumulator.domain().lower() == sub_range_starts(self.range_ends()),
                accumulator.domain().upper() == self.range_ends(),
                accumulator@.len() == done,
                payloads.len() == done,
                sized(payloads, self.input_size_bytes() as nat),
                accumulator@ == recorded_after(
                    Multiset::empty(),
                    tuples_across_ranges(algorithm, self.range_ends(), payloads),
                ),
            decreases num_iterations - done,
        {
            let ghost before = accumulator@;
            let ghost earlier = accumulator;
            match self.run(&mut accumulator, algorithm) {
                Ok(_) => {},
                Err(e) => {
                    proof {
                        if let ExperimentError::Refused(refusal) = e {
                            let payload = choose|payload: Seq<u8>|
                                payload.len() == self.input_size_bytes()
                                    && earlier.record_result(
                                    #[trigger] hashes_across_ranges(
                                        algorithm,
                                        self.range_ends(),
                                        payload,
                                    ),
                                ) == Err::<(), AccumulatorError>(refusal);
                            assert(!in_box(
                                sub_range_starts(self.range_ends()),
                                self.range_ends(),
                                hashes_across_ranges(algorithm, self.range_ends(), payload),
                            ));
                        }
                    }
                    return Err(e);
                },
            }
            proof {
                broadcast use vstd::multiset::group_multiset_axioms;

                let payload = choose|payload: Seq<u8>|
                    payload.len() == self.input_size_bytes() && (#[trigger] hashes_across_ranges(
                        algorithm,
                        self.range_ends(),
                        payload,
                    )).no_duplicates() && accumulator@ == before.insert(
                        hashes_across_ranges(algorithm, self.range_ends(), payload),
                    );
                let longer = payloads.push(payload);
                assert(tuples_across_ranges(algorithm, self.range_ends(), longer).drop_last()
                    =~= tuples_across_ranges(algorithm, self.range_ends(), payloads));
                assert(tuples_across_ranges(algorithm, self.range_ends(), longer).last()
                    == hashes_across_ranges(algorithm, self.range_ends(), payload));
                payloads = longer;
            }
            done = done + 1;
        }
        Ok(accumulator)
    }

    /// Prepares the chi-squared test of mutual independence of the buckets across the
    /// ranges. The result is a function of the accumulator's table alone.
    ///
    /// The table must admit the test, which `check_summary` tells: an accumulator without
    /// a trial, or one in which at most one coordinate takes more than one value, is a
    /// violated precondition.
    pub fn summary(&self, accumulator: &NumCooccurrences) -> (t: Independence)
        requires
            accumulator.well_formed(),
            independence_refusal(
                accumulator.listed(),
                accumulator.listed_counts(),
                self.range_ends().len(),
            ) is None,
        ensures
            independence_matches(
                t,
                accumulator.listed(),
                accumulator.listed_counts(),
                self.range_ends().len(),
            ),
            t.degrees_of_freedom >= 1,
            t.num_samples >= 1,
    {
        let (tuples, counts) = accumulator.entries();
        independence(tuples, counts, self.range_ends.len())
    }

    /// Whether the table of `accumulator` admits the test that `summary` prepares: `None`
    /// where it does, and else the reason why not.
    pub fn check_summary(&self, accumulator: &NumCooccurrences) -> (refusal: Option<StatsError>)
        requires
            accumulator.well_formed(),
        ensures
            refusal == independence_refusal(
                accumulator.listed(),
                accumulator.listed_counts(),
                self.range_ends().len(),
            ),
    {
        let (tuples, counts) = accumulator.entries();
        check_independence(tuples, counts, self.range_ends.len())
    }

    /// Every tuple recorded in an accumulator of this experiment has pairwise distinct
    /// coordinates: a trial whose buckets collide never enters the accumulator.
    pub proof fn lemma_recorded_tuples_distinct(&self, accumulator: &NumCooccurrences, t: Seq<u64>)
        requires
            self.well_formed(),
            accumulator.well_formed(),
            accumulator.domain().lower() == sub_range_starts(self.range_ends()),
            accumulator.domain().upper() == self.range_ends(),
            accumulator@.count(t) > 0,
        ensures
            t.no_duplicates(),
    {
        accumulator.lemma_recorded_in_domain(t);
        lemma_sub_ranges_disjoint(self.range_ends(), t);
    }
}

/// Independence across seeds: whether the buckets that an algorithm gives one key under
/// several seeds are mutually independent.
#[derive(Clone, Debug)]
pub struct IndependenceAcrossSeeds {
    range_end: u64,
    seeds: Vec<u64>,
    input_size_bytes: usize,
}

impl IndependenceAcrossSeeds {
    /// The last bucket of the range.
    pub closed spec fn range_end(&self) -> u64 {
        self.range_end
    }

    /// The seeds, in the order of the coordinates of a tuple.
    pub closed spec fn seeds(&self) -> Seq<u64> {
        self.seeds@
    }

    /// The size of a payload in bytes.
    pub closed spec fn input_size_bytes(&self) -> usize {
        self.input_size_bytes
    }

    /// The seeds differ pairwise.
    pub open spec fn well_formed(&self) -> bool {
        self.seeds().no_duplicates()
    }

    /// The experiment on the buckets `0..=range.end` with the seeds given.
    ///
    /// Refuses seeds of which two are equal.
    pub fn with_seeds(range: RangeToInclusive<u64>, seeds: Vec<u64>, input_size_bytes: usize) -> (r:
        Result<Self, ExperimentError>)
        ensures
            !seeds@.no_duplicates() ==> r == Err::<Self, ExperimentError>(
                ExperimentError::DuplicateSeeds,
            ),
            seeds@.no_duplicates() ==> r is Ok,
            r matches Ok(experiment) ==> experiment.well_formed() && experiment.range_end()
                == range.end && experiment.seeds() == seeds@ && experiment.input_size_bytes()
                == input_size_bytes,
    {
        if !all_unique(&seeds) {
            return Err(ExperimentError::DuplicateSeeds);
        }
        Ok(IndependenceAcrossSeeds { range_end: range.end, seeds, input_size_bytes })
    }

    /// The experiment on the buckets `0..=range.end` with `num_seeds` random seeds: draws
    /// seeds until they differ pairwise. Gives up with `Exhausted` after `u64::MAX` draws
    /// that each held a repeated seed; zero seeds or one are never refused.
    pub fn new(range: RangeToInclusive<u64>, num_seeds: usize, input_size_bytes: usize) -> (r:
        Result<Self, ExperimentError>)
        ensures
            num_seeds <= 1 ==> r is Ok,
            r is Err ==> r == Err::<Self, ExperimentError>(ExperimentError::Exhausted),
            r matches Ok(experiment) ==> experiment.well_formed() && experiment.range_end()
                == range.end && experiment.seeds().len() == num_seeds
                && experiment.input_size_bytes() == input_size_bytes,
            r == Err::<Self, ExperimentError>(ExperimentError::Exhausted) ==> exists|
                draws: Seq<Seq<u64>>,
            |
                #![trigger draws.len()]
                draws.len() == u64::MAX && forall|i: int|
                    0 <= i < draws.len() ==> (#[trigger] draws[i]).len() == num_seeds
                        && !draws[i].no_duplicates(),
    {
        let ghost mut draws: Seq<Seq<u64>> = Seq::empty();
        let mut attempts: u64 = 0;
        while attempts < u64::MAX
            invariant
                num_seeds <= 1 ==> attempts == 0,
                draws.len() == attempts,
                forall|i: int|
                    0 <= i < draws.len() ==> (#[trigger] draws[i]).len() == num_seeds
                        && !draws[i].no_duplicates(),
            decreases u64::MAX - attempts,
        {
            let seeds: Vec<u64> = random_seeds(num_seeds);
            let ghost drawn = seeds@;
            match Self::with_seeds(..=range.end, seeds, input_size_bytes) {
                Ok(experiment) => {
                    return Ok(experiment);
                },
                Err(_) => {},
            }
            proof {
                draws = draws.push(drawn);
            }
            attempts = attempts + 1;
        }
        Err(ExperimentError::Exhausted)
    }

    /// The range of the buckets.
    pub fn range(&self) -> (range: RangeToInclusive<u64>)
        ensures
            range.end == self.range_end(),
    {
        ..=self.range_end
    }

    /// The seeds, in the order of the coordinates of a tuple.
    pub fn seed_list(&self) -> (seeds: &Vec<u64>)
        ensures
            seeds@ == self.seeds(),
    {
        &self.seeds
    }

    /// The size of a payload in bytes.
    pub fn payload_size(&self) -> (size: usize)
        ensures
            size == self.input_size_bytes(),
    {
        self.input_size_bytes
    }

    /// An empty accumulator for the tuples with one bucket of the range per seed.
    pub fn new_accumulator(&self) -> (r: Result<NumCooccurrences, ExperimentError>)
        ensures
            volume_from(
                repeated(0, self.seeds().len()),
                repeated(self.range_end(), self.seeds().len()),
                0,
            ) > u128::MAX ==> r == Err::<NumCooccurrences, ExperimentError>(
                ExperimentError::DomainTooLarge,
            ),
            volume_from(
                repeated(0, self.seeds().len()),
                repeated(self.range_end(), self.seeds().len()),
                0,
            ) <= u128::MAX ==> r is Ok,
            r matches Ok(acc) ==> acc.well_formed() && acc.domain().lower() == repeated(
                0,
                self.seeds().len(),
            ) && acc.domain().upper() == repeated(self.range_end(), self.seeds().len()) && acc@
                == Multiset::<Seq<u64>>::empty(),
    {
        let n: usize = self.seeds.len();
        let mut lower: Vec<u64> = Vec::new();
        let mut upper: Vec<u64> = Vec::new();
        let mut j: usize = 0;
        while j < n
            invariant
                j <= n,
                lower@ == repeated(0, j as nat),
                upper@ == repeated(self.range_end, j as nat),
            decreases n - j,
        {
            lower.push(0);
            upper.push(self.range_end);
            j = j + 1;
            proof {
                assert(lower@ =~= repeated(0, j as nat));
                assert(upper@ =~= repeated(self.range_end, j as nat));
            }
        }
        match Domain::new(lower, upper) {
            Ok(domain) => Ok(NumCooccurrences::new(domain)),
            Err(_) => Err(ExperimentError::DomainTooLarge),
        }
    }

    /// The bucket of `payload` under each seed.
    pub fn hashes<A: Algorithm>(&self, algorithm: &A, payload: &[u8]) -> (hashes: Vec<u64>)
        requires
            algorithm.accepts(payload@.len(), self.range_end()),
        ensures
            hashes@ == hashes_across_seeds(algorithm, self.seeds(), self.range_end(), payload@),
            forall|j: int| 0 <= j < hashes@.len() ==> #[trigger] hashes@[j] <= self.range_end(),
    {
        let ghost expected = hashes_across_seeds(algorithm, self.seeds@, self.range_end, payload@);
        let mut hashes: Vec<u64> = Vec::new();
        let mut j: usize = 0;
        while j < self.seeds.len()
            invariant
                j <= self.seeds@.len(),
                algorithm.accepts(payload@.len(), self.range_end),
                expected == hashes_across_seeds(algorithm, self.seeds@, self.range_end, payload@),
                hashes@ == expected.take(j as int),
                forall|h: int| 0 <= h < j ==> #[trigger] hashes@[h] <= self.range_end,
            decreases self.seeds@.len() - j,
        {
            let h: u64 = algorithm.hash(payload, self.seeds[j], ..=self.range_end);
            hashes.push(h);
            j = j + 1;
            proof {
                assert(hashes@ =~= expected.take(j as int));
            }
        }
        proof {
            assert(expected.take(expected.len() as int) =~= expected);
        }
        hashes
    }

    /// Runs one trial on `payload`: hashes it under every seed and records the tuple.
    pub fn trial<A: Algorithm>(
        &self,
        accumulator: &mut NumCooccurrences,
        algorithm: &A,
        payload: &[u8],
    ) -> (r: Result<(), AccumulatorError>)
        requires
            old(accumulator).well_formed(),
            algorithm.accepts(payload@.len(), self.range_end()),
        ensures
            old(accumulator).recording(
                hashes_across_seeds(algorithm, self.seeds(), self.range_end(), payload@),
                r,
                final(accumulator),
            ),
            in_box(
                repeated(0, self.seeds().len()),
                repeated(self.range_end(), self.seeds().len()),
                hashes_across_seeds(algorithm, self.seeds(), self.range_end(), payload@),
            ),
    {
        let hashes: Vec<u64> = self.hashes(algorithm, payload);
        accumulator.record(hashes)
    }

    /// Runs one trial on a random payload.
    pub fn run<A: Algorithm>(&self, accumulator: &mut NumCooccurrences, algorithm: &A) -> (r:
        Result<(), AccumulatorError>)
        requires
            old(accumulator).well_formed(),
            algorithm.accepts(self.input_size_bytes() as nat, self.range_end()),
        ensures
            exists|payload: Seq<u8>|
                payload.len() == self.input_size_bytes() && in_box(
                    repeated(0, self.seeds().len()),
                    repeated(self.range_end(), self.seeds().len()),
                    hashes_across_seeds(algorithm, self.seeds(), self.range_end(), payload),
                ) && old(accumulator).recording(
                    #[trigger] hashes_across_seeds(
                        algorithm,
                        self.seeds(),
                        self.range_end(),
                        payload,
                    ),
                    r,
                    final(accumulator),
                ),
    {
        let payload: Vec<u8> = random_payload(self.input_size_bytes);
        let r = self.trial(accumulator, algorithm, payload.as_slice());
        proof {
            let t = hashes_across_seeds(algorithm, self.seeds(), self.range_end(), payload@);
            assert(in_box(
                repeated(0, self.seeds().len()),
                repeated(self.range_end(), self.seeds().len()),
                t,
            ) && old(accumulator).recording(t, r, accumulator));
        }
        r
    }

    /// Runs `num_iterations` trials on random payloads into a fresh accumulator.
    pub fn accumulate<A: Algorithm>(&self, algorithm: &A, num_iterations: u64) -> (r: Result<
        NumCooccurrences,
        ExperimentError,
    >)
        requires
            algorithm.accepts(self.input_size_bytes() as nat, self.range_end()),
        ensures
            volume_from(
                repeated(0, self.seeds().len()),
                repeated(self.range_end(), self.seeds().len()),
                0,
            ) > u128::MAX ==> r == Err::<NumCooccurrences, ExperimentError>(
                ExperimentError::DomainTooLarge,
            ),
            volume_from(
                repeated(0, self.seeds().len()),
                repeated(self.range_end(), self.seeds().len()),
                0,
            ) <= u128::MAX ==> r is Ok,
            r matches Ok(acc) ==> acc.well_formed() && acc.domain().lower() == repeated(
                0,
                self.seeds().len(),
            ) && acc.domain().upper() == repeated(self.range_end(), self.seeds().len())
                && acc@.len() == num_iterations && exists|payloads: Seq<Seq<u8>>|
                payloads.len() == num_iterations && sized(
                    payloads,
                    self.input_size_bytes() as nat,
                ) && acc@ == recorded_after(
                    Multiset::empty(),
                    #[trigger] tuples_across_seeds(
                        algorithm,
                        self.seeds(),
                        self.range_end(),
                        payloads,
                    ),
                ),
    {
        let mut accumulator: NumCooccurrences = match self.new_accumulator() {
            Ok(acc) => acc,
            Err(e) => {
                return Err(e);
            },
        };
        let ghost mut payloads: Seq<Seq<u8>> = Seq::empty();
        let mut done: u64 = 0;
        while done < num_iterations
            invariant
                done <= num_iterations,
                algorithm.accepts(self.input_size_bytes() as nat, self.range_end()),
                accumulator.well_formed(),
                accumulator.domain().lower() == repeated(0, self.seeds().len()),
                accumulator.domain().upper() == repeated(self.range_end(), self.seeds().len()),
                accumulator@.len() == done,
                payloads.len() == done,
                sized(payloads, self.input_size_bytes() as nat),
                accumulator@ == recorded_after(
                    Multiset::empty(),
                    tuples_across_seeds(algorithm, self.seeds(), self.range_end(), payloads),
                ),
            decreases num_iterations - done,
        {
            let ghost before = accumulator;
            let r = self.run(&mut accumulator, algorithm);
            proof {
                broadcast use vstd::multiset::group_multiset_axioms;

                let payload = choose|payload: Seq<u8>|
                    payload.len() == self.input_size_bytes() && in_box(
                        repeated(0, self.seeds().len()),
                        repeated(self.range_end(), self.seeds().len()),
                        hashes_across_seeds(algorithm, self.seeds(), self.range_end(), payload),
                    ) && before.recording(
                        #[trigger] hashes_across_seeds(
                            algorithm,
                            self.seeds(),
                            self.range_end(),
                            payload,
                        ),
                        r,
                        &accumulator,
                    );
                let longer = payloads.push(payload);
                assert(tuples_across_seeds(
                    algorithm,
                    self.seeds(),
                    self.range_end(),
                    longer,
                ).drop_last() =~= tuples_across_seeds(
                    algorithm,
                    self.seeds(),
                    self.range_end(),
                    payloads,
                ));
                assert(tuples_across_seeds(algorithm, self.seeds(), self.range_end(), longer).last()
                    == hashes_across_seeds(algorithm, self.seeds(), self.range_end(), payload));
                payloads = longer;
            }
            if let Err(e) = r {
                return Err(ExperimentError::Refused(e));
            }
            done = done + 1;
        }
        Ok(accumulator)
    }

    /// Prepares the chi-squared test of mutual independence of the buckets across the
    /// seeds. The result is a function of the accumulator's table alone.
    ///
    /// The table must admit the test, which `check_summary` tells: an accumulator without
    /// a trial, or one in which at most one coordinate takes more than one value, is a
    /// violated precondition.
    pub fn summary(&self, accumulator: &NumCooccurrences) -> (t: Independence)
        requires
            accumulator.well_formed(),
            independence_refusal(
                accumulator.listed(),
                accumulator.listed_counts(),
                self.seeds().len(),
            ) is None,
        ensures
            independence_matches(
                t,
                accumulator.listed(),
                accumulator.listed_counts(),
                self.seeds().len(),
            ),
            t.degrees_of_freedom >= 1,
            t.num_samples >= 1,
    {
        let (tuples, counts) = accumulator.entries();
        independence(tuples, counts, self.seeds.len())
    }

    /// Whether the table of `accumulator` admits the test that `summary` prepares: `None`
    /// where it does, and else the reason why not.
    pub fn check_summary(&self, accumulator: &NumCooccurrences) -> (refusal: Option<StatsError>)
        requires
            accumulator.well_formed(),
        ensures
            refusal == independence_refusal(
                accumulator.listed(),
                accumulator.listed_counts(),
                self.seeds().len(),
            ),
    {
        let (tuples, counts) = accumulator.entries();
        check_independence(tuples, counts, self.seeds.len())
    }
}

} // verus!
