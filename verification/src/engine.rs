//! The decisions of the aggregation engine: how many workers to start, which
//! algorithm a worker's next batch is for, and how a batch that arrives joins the
//! running total of its algorithm. Threads, channels and sinks are the caller's.

use vstd::prelude::*;
use vstd::multiset::Multiset;
use crate::acc::{Accumulator, AccumulatorError};
use crate::bag::{lemma_merge_in_any_order, lemma_merged_after_push, merged_after};

verus! {

/// The number of trials in one batch of a worker.
pub const BATCH_SIZE: u64 = 10_000_000;

/// The number of algorithms that an engine tells apart.
pub const NUM_ALGORITHMS: usize = 4;

/// The algorithms that an engine can run.
#[derive(Clone, Copy, Debug, PartialEq, Eq, Structural)]
pub enum AlgorithmId {
    /// Flip hash on 64-bit keys.
    FlipHash64,
    /// Flip hash on byte keys, through 64-bit XXH3.
    FlipHashXXH364,
    /// Flip hash on byte keys, through 128-bit XXH3.
    FlipHashXXH3128,
    /// Jump consistent hash.
    JumpHash,
}

impl AlgorithmId {
    /// The position of the algorithm among the running totals.
    pub open spec fn slot(&self) -> int {
        match self {
            AlgorithmId::FlipHash64 => 0,
            AlgorithmId::FlipHashXXH364 => 1,
            AlgorithmId::FlipHashXXH3128 => 2,
            AlgorithmId::JumpHash => 3,
        }
    }

    /// The position of the algorithm among the running totals.
    pub fn index(&self) -> (i: usize)
        ensures
            i == self.slot(),
            i < NUM_ALGORITHMS,
    {
        match self {
            AlgorithmId::FlipHash64 => 0,
            AlgorithmId::FlipHashXXH364 => 1,
            AlgorithmId::FlipHashXXH3128 => 2,
            AlgorithmId::JumpHash => 3,
        }
    }

    /// The name by which the algorithm is chosen.
    pub fn name(&self) -> (name: &'static str)
        ensures
            name@ == (match self {
                AlgorithmId::FlipHash64 => "flip-hash64"@,
                AlgorithmId::FlipHashXXH364 => "flip-hash-xxh364"@,
                AlgorithmId::FlipHashXXH3128 => "flip-hash-xxh3128"@,
                AlgorithmId::JumpHash => "jump-hash"@,
            }),
    {
        match self {
            AlgorithmId::FlipHash64 => "flip-hash64",
            AlgorithmId::FlipHashXXH364 => "flip-hash-xxh364",
            AlgorithmId::FlipHashXXH3128 => "flip-hash-xxh3128",
            AlgorithmId::JumpHash => "jump-hash",
        }
    }

    /// The title under which the algorithm appears in a summary record.
    pub fn title(&self) -> (title: &'static str)
        ensures
            title@ == (match self {
                AlgorithmId::FlipHash64 => "Flip Hash (64 bits)"@,
                AlgorithmId::FlipHashXXH364 => "Flip Hash (XXH3, 64 bits)"@,
                AlgorithmId::FlipHashXXH3128 => "Flip Hash (XXH3, 128 bits)"@,
                AlgorithmId::JumpHash => "Jump Hash"@,
            }),
    {
        match self {
            AlgorithmId::FlipHash64 => "Flip Hash (64 bits)",
            AlgorithmId::FlipHashXXH364 => "Flip Hash (XXH3, 64 bits)",
            AlgorithmId::FlipHashXXH3128 => "Flip Hash (XXH3, 128 bits)",
            AlgorithmId::JumpHash => "Jump Hash",
        }
    }
}

/// The number of workers to start on a machine that runs `parallelism` threads at once:
/// one thread is left to the aggregator.
pub fn worker_count(parallelism: usize) -> (workers: usize)
    ensures
        workers == (if parallelism >= 1 {
            parallelism - 1
        } else {
            0
        }),
{
    if parallelism >= 1 {
        parallelism - 1
    } else {
        0
    }
}

/// How an engine runs: the number of worker threads, the number of trials in a batch,
/// and after how many batches the aggregator stops, if ever.
#[derive(Clone, Copy, Debug, PartialEq, Eq, Structural)]
pub struct EngineConfig {
    /// The number of worker threads.
    pub num_workers: usize,
    /// The number of trials in one batch.
    pub batch_size: u64,
    /// The number of batches after which the aggregator stops; `None` to run until
    /// the process is ended from outside.
    pub max_batches: Option<u64>,
}

impl EngineConfig {
    /// The configuration for a machine that runs `parallelism` threads at once: all
    /// threads but one work, on batches of `BATCH_SIZE` trials, without end.
    pub fn for_machine(parallelism: usize) -> (config: Self)
        ensures
            config == (EngineConfig {
                num_workers: if parallelism >= 1 {
                    (parallelism - 1) as usize
                } else {
                    0
                },
                batch_size: BATCH_SIZE,
                max_batches: None,
            }),
    {
        EngineConfig {
            num_workers: worker_count(parallelism),
            batch_size: BATCH_SIZE,
            max_batches: None,
        }
    }

    /// Whether the aggregator stops after it has absorbed `batches` batches.
    pub fn finished(&self, batches: u64) -> (done: bool)
        ensures
            done == (self.max_batches matches Some(limit) && batches >= limit),
    {
        match self.max_batches {
            Some(limit) => batches >= limit,
            None => false,
        }
    }
}

/// The algorithm of a worker's batch number `batch`: the worker goes round the
/// algorithms in turn, one batch each. `None` where there is no algorithm.
pub fn batch_algorithm(algorithms: &Vec<AlgorithmId>, batch: u64) -> (algorithm: Option<
    AlgorithmId,
>)
    ensures
        algorithms@.len() == 0 ==> algorithm is None,
        algorithms@.len() > 0 ==> algorithm == Some(
            algorithms@[(batch as int) % (algorithms@.len() as int)],
        ),
{
    let n: usize = algorithms.len();
    if n == 0 {
        None
    } else {
        let turn: u64 = batch % (n as u64);
        Some(algorithms[turn as usize])
    }
}

/// The running totals of an aggregation: for each algorithm, the merge of the batches
/// that have arrived for it.
pub struct Aggregator<A: Accumulator> {
    totals: Vec<Option<A>>,
    batches: u64,
}

impl<A: Accumulator> Aggregator<A> {
    /// The running total of each algorithm, by its index; `None` before its first batch.
    pub closed spec fn totals(&self) -> Seq<Option<A>> {
        self.totals@
    }

    /// The number of batches absorbed.
    pub closed spec fn batches(&self) -> u64 {
        self.batches
    }

    /// There is one slot per algorithm, and every running total is well formed.
    pub open spec fn well_formed(&self) -> bool {
        &&& self.totals().len() == NUM_ALGORITHMS
        &&& forall|i: int|
            0 <= i < self.totals().len() ==> (#[trigger] self.totals()[i] matches Some(total)
                ==> total.wf())
    }

    /// The outcomes merged so far for `algorithm`.
    pub open spec fn recorded(&self, algorithm: AlgorithmId) -> Multiset<A::Outcome> {
        match self.totals()[algorithm.slot()] {
            Some(total) => total.recorded(),
            None => Multiset::empty(),
        }
    }

    /// What `absorb` answers for a batch for `algorithm`.
    pub open spec fn absorb_result(&self, algorithm: AlgorithmId, batch: &A) -> Result<
        u64,
        AccumulatorError,
    > {
        match self.totals()[algorithm.slot()] {
            Some(total) => if !total.same_domain(batch) {
                Err(AccumulatorError::Mismatch)
            } else if total.recorded().len() + batch.recorded().len() > u64::MAX {
                Err(AccumulatorError::Overflow)
            } else {
                Ok((total.recorded().len() + batch.recorded().len()) as u64)
            },
            None => Ok(batch.recorded().len() as u64),
        }
    }

    /// An aggregator that has seen no batch.
    pub fn new() -> (aggregator: Self)
        ensures
            aggregator.well_formed(),
            aggregator.batches() == 0,
            forall|i: int| 0 <= i < NUM_ALGORITHMS ==> aggregator.totals()[i] is None,
    {
        let mut totals: Vec<Option<A>> = Vec::new();
        let mut i: usize = 0;
        while i < NUM_ALGORITHMS
            invariant
                i <= NUM_ALGORITHMS,
                totals@.len() == i,
                forall|h: int| 0 <= h < i ==> totals@[h] is None,
            decreases NUM_ALGORITHMS - i,
        {
            totals.push(None);
            i = i + 1;
        }
        Aggregator { totals, batches: 0 }
    }

    /// Takes in a batch that a worker ran for `algorithm`: merges it into the running
    /// total of that algorithm, which the first batch starts, and answers the number of
    /// trials that the total then holds. The algorithm has a total from then on, even
    /// after an empty batch. A batch that cannot be merged changes nothing.
    pub fn absorb(&mut self, algorithm: AlgorithmId, batch: A) -> (r: Result<u64, AccumulatorError>)
        requires
            old(self).well_formed(),
            batch.wf(),
        ensures
            final(self).well_formed(),
            r == old(self).absorb_result(algorithm, &batch),
            final(self).totals()[algorithm.slot()] is Some,
            final(self).recorded(algorithm) == (if r is Ok {
                old(self).recorded(algorithm).add(batch.recorded())
            } else {
                old(self).recorded(algorithm)
            }),
            forall|other: AlgorithmId|
                other != algorithm ==> final(self).totals()[other.slot()] == old(
                    self,
                ).totals()[other.slot()],
            final(self).batches() == (if r is Ok && old(self).batches() < u64::MAX {
                old(self).batches() + 1
            } else {
                old(self).batches() as int
            }),
    {
        let i: usize = algorithm.index();
        let mut slot: Option<A> = None;
        core::mem::swap(&mut slot, &mut self.totals[i]);
        let ghost emptied = self.totals@;
        let r: Result<u64, AccumulatorError> = match slot {
            Some(mut total) => {
                let merged = total.merge(&batch);
                let n: u64 = total.num_iterations();
                self.totals[i] = Some(total);
                match merged {
                    Ok(_) => Ok(n),
                    Err(e) => Err(e),
                }
            },
            None => {
                proof {
                    crate::bag::lemma_merge_empty(batch.recorded());
                }
                let n: u64 = batch.num_iterations();
                self.totals[i] = Some(batch);
                Ok(n)
            },
        };
        if r.is_ok() && self.batches < u64::MAX {
            self.batches = self.batches + 1;
        }
        r
    }

    /// The running total of `algorithm`, if a batch has arrived for it.
    pub fn total(&self, algorithm: AlgorithmId) -> (total: Option<&A>)
        requires
            self.well_formed(),
        ensures
            total matches Some(t) ==> self.totals()[algorithm.slot()] == Some(*t) && t.wf()
                && t.recorded() == self.recorded(algorithm),
            total is None ==> self.totals()[algorithm.slot()] is None,
    {
        self.totals[algorithm.index()].as_ref()
    }

    /// The number of batches absorbed so far.
    pub fn num_batches(&self) -> (n: u64)
        ensures
            n == self.batches(),
    {
        self.batches
    }
}

/// The batches for `algorithm` among the messages that arrived, in the order of arrival.
pub open spec fn batches_for<T>(
    messages: Seq<(AlgorithmId, Multiset<T>)>,
    algorithm: AlgorithmId,
) -> Seq<Multiset<T>>
    decreases messages.len(),
{
    if messages.len() == 0 {
        Seq::empty()
    } else if messages.last().0 == algorithm {
        batches_for(messages.drop_last(), algorithm).push(messages.last().1)
    } else {
        batches_for(messages.drop_last(), algorithm)
    }
}

/// The running total of `algorithm` after the messages `messages` arrived in this order.
pub open spec fn total_after<T>(
    messages: Seq<(AlgorithmId, Multiset<T>)>,
    algorithm: AlgorithmId,
) -> Multiset<T> {
    merged_after(Multiset::empty(), batches_for(messages, algorithm))
}

/// One message more adds its batch to the total of its algorithm and leaves the
/// totals of the other algorithms as they were.
pub proof fn lemma_total_after_message<T>(
    messages: Seq<(AlgorithmId, Multiset<T>)>,
    algorithm: AlgorithmId,
    batch: Multiset<T>,
    other: AlgorithmId,
)
    ensures
        total_after(messages.push((algorithm, batch)), algorithm) == total_after(
            messages,
            algorithm,
        ).add(batch),
        other != algorithm ==> total_after(messages.push((algorithm, batch)), other)
            == total_after(messages, other),
{
    let longer = messages.push((algorithm, batch));
    assert(longer.drop_last() =~= messages);
    assert(longer.last() == (algorithm, batch));
    lemma_merged_after_push(Multiset::<T>::empty(), batches_for(messages, algorithm), batch);
}

/// The order of arrival does not matter: where the same batches arrive for an algorithm,
/// each as often, in whatever order and between whatever batches of other algorithms,
/// the running total of that algorithm ends up the same.
pub proof fn lemma_totals_in_any_order<T>(
    messages: Seq<(AlgorithmId, Multiset<T>)>,
    reordered: Seq<(AlgorithmId, Multiset<T>)>,
    algorithm: AlgorithmId,
)
    requires
        batches_for(messages, algorithm).to_multiset() == batches_for(
            reordered,
            algorithm,
        ).to_multiset(),
    ensures
        total_after(messages, algorithm) == total_after(reordered, algorithm),
{
    lemma_merge_in_any_order(
        Multiset::<T>::empty(),
        batches_for(messages, algorithm),
        batches_for(reordered, algorithm),
    );
}

impl<A: Accumulator> Aggregator<A> {
    /// Whether the running totals are those of the messages `messages`.
    pub open spec fn holds(&self, messages: Seq<(AlgorithmId, Multiset<A::Outcome>)>) -> bool {
        forall|algorithm: AlgorithmId| #[trigger]
            self.recorded(algorithm) == total_after(messages, algorithm)
    }

    /// An aggregator whose totals are all missing holds no message.
    pub proof fn lemma_new_holds_nothing(&self)
        requires
            forall|i: int| 0 <= i < NUM_ALGORITHMS ==> self.totals()[i] is None,
        ensures
            self.holds(Seq::empty()),
    {
        assert forall|algorithm: AlgorithmId| #[trigger]
            self.recorded(algorithm) == total_after(
                Seq::<(AlgorithmId, Multiset<A::Outcome>)>::empty(),
                algorithm,
            ) by {
            assert(self.totals()[algorithm.slot()] is None);
        }
    }

    /// What `absorb` promises of a batch that it takes is one message more: an aggregator
    /// that held the messages `messages` holds them and the new one.
    pub proof fn lemma_absorb_holds(
        &self,
        after: &Self,
        messages: Seq<(AlgorithmId, Multiset<A::Outcome>)>,
        algorithm: AlgorithmId,
        batch: Multiset<A::Outcome>,
    )
        requires
            self.holds(messages),
            after.recorded(algorithm) == self.recorded(algorithm).add(batch),
            forall|other: AlgorithmId|
                other != algorithm ==> after.totals()[other.slot()] == self.totals()[other.slot()],
        ensures
            after.holds(messages.push((algorithm, batch))),
    {
        assert forall|any: AlgorithmId| #[trigger]
            after.recorded(any) == total_after(messages.push((algorithm, batch)), any) by {
            lemma_total_after_message(messages, algorithm, batch, any);
            assert(self.recorded(any) == total_after(messages, any));
        }
    }

    /// Two aggregators that took the same batches for an algorithm, in whatever order,
    /// hold equal totals for it: the same count of every outcome and the same number
    /// of trials.
    pub proof fn lemma_same_batches_same_total(
        &self,
        other: &Self,
        messages: Seq<(AlgorithmId, Multiset<A::Outcome>)>,
        reordered: Seq<(AlgorithmId, Multiset<A::Outcome>)>,
        algorithm: AlgorithmId,
    )
        requires
            self.holds(messages),
            other.holds(reordered),
            batches_for(messages, algorithm).to_multiset() == batches_for(
                reordered,
                algorithm,
            ).to_multiset(),
        ensures
            self.recorded(algorithm) == other.recorded(algorithm),
            self.recorded(algorithm).len() == other.recorded(algorithm).len(),
    {
        lemma_totals_in_any_order(messages, reordered, algorithm);
        assert(self.recorded(algorithm) == total_after(messages, algorithm));
        assert(other.recorded(algorithm) == total_after(reordered, algorithm));
    }
}

} // verus!
