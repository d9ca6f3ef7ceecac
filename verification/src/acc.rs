//! Accumulators: mergeable containers of the outcomes of trials.
//!
//! An accumulator is modelled by the multiset of the outcomes recorded into it.
//! Recording inserts one outcome, merging adds two multisets, and the number of
//! trials is the size of the multiset.

use vstd::prelude::*;
use vstd::multiset::Multiset;
use std::collections::HashMap;
use crate::bag::{
    copies, distinct_rows, joint_tally, rows, sum, lemma_copies, lemma_joint_tally_count,
    lemma_joint_tally_len, lemma_sum_bounds, lemma_sum_take, lemma_sum_update, lemma_sum_zeros,
    lemma_weight_absent, lemma_weight_of_row, lemma_weight_update,
};
use crate::domain::{copy_of, Domain};

verus! {

/// Why an accumulator refused an operation. A refused operation changes nothing.
#[derive(Clone, Copy, Debug, PartialEq, Eq, Structural)]
pub enum AccumulatorError {
    /// The outcome lies outside the domain that the accumulator was made for.
    OutOfRange,
    /// The number of trials would exceed `u64::MAX`.
    Overflow,
    /// The two accumulators were made for different domains.
    Mismatch,
    /// The bounds of a domain are not one lower and one upper bound per coordinate, lower first.
    InvalidDomain,
    /// The domain has more than `u128::MAX` tuples.
    DomainTooLarge,
}

/// What every accumulator offers: a count of trials and a lossless merge.
pub trait Accumulator: Sized {
    /// What one trial yields.
    type Outcome;

    /// The invariant of the representation.
    spec fn wf(&self) -> bool;

    /// The outcomes recorded so far.
    spec fn recorded(&self) -> Multiset<Self::Outcome>;

    /// Whether two accumulators were made for the same domain of outcomes.
    spec fn same_domain(&self, other: &Self) -> bool;

    /// The number of trials recorded.
    fn num_iterations(&self) -> (n: u64)
        requires
            self.wf(),
        ensures
            n == self.recorded().len(),
    ;

    /// Adds the outcomes of `other` to `self`. The merge happens as a whole or not at all.
    fn merge(&mut self, other: &Self) -> (r: Result<(), AccumulatorError>)
        requires
            old(self).wf(),
            other.wf(),
        ensures
            final(self).wf(),
            final(self).same_domain(old(self)),
            !old(self).same_domain(other) ==> r == Err::<(), AccumulatorError>(
                AccumulatorError::Mismatch,
            ),
            old(self).same_domain(other) && old(self).recorded().len() + other.recorded().len()
                > u64::MAX ==> r == Err::<(), AccumulatorError>(AccumulatorError::Overflow),
            old(self).same_domain(other) && old(self).recorded().len() + other.recorded().len()
                <= u64::MAX ==> r is Ok,
            r is Ok ==> final(self).recorded() == old(self).recorded().add(other.recorded()),
            r is Err ==> final(self).recorded() == old(self).recorded(),
    ;
}

/// The multiset that a table of counters stands for: `counts[i]` copies of each bucket `i`.
pub open spec fn tally(counts: Seq<u64>) -> Multiset<u64>
    decreases counts.len(),
{
    if counts.len() == 0 {
        Multiset::empty()
    } else {
        tally(counts.drop_last()).add(copies((counts.len() - 1) as u64, counts.last() as nat))
    }
}

/// `tally(counts)` holds bucket `x` exactly `counts[x]` times, and no bucket beyond the table.
pub proof fn lemma_tally_count(counts: Seq<u64>, x: u64)
    requires
        counts.len() <= u64::MAX,
    ensures
        tally(counts).count(x) == (if x < counts.len() {
            counts[x as int] as nat
        } else {
            0
        }),
    decreases counts.len(),
{
    broadcast use vstd::multiset::group_multiset_axioms;

    if counts.len() > 0 {
        lemma_tally_count(counts.drop_last(), x);
        lemma_copies((counts.len() - 1) as u64, counts.last() as nat);
    }
}

/// The size of `tally(counts)` is the sum of the counters.
pub proof fn lemma_tally_len(counts: Seq<u64>)
    ensures
        tally(counts).len() == sum(counts),
    decreases counts.len(),
{
    broadcast use vstd::multiset::group_multiset_axioms;

    if counts.len() > 0 {
        lemma_tally_len(counts.drop_last());
        lemma_copies((counts.len() - 1) as u64, counts.last() as nat);
    }
}

/// Occurrence table: one counter per bucket `0..num_buckets`.
#[derive(Clone, Debug)]
pub struct NumOccurrences {
    counts: Vec<u64>,
    num_iterations: u64,
}

impl View for NumOccurrences {
    type V = Multiset<u64>;

    /// The buckets recorded so far.
    closed spec fn view(&self) -> Multiset<u64> {
        tally(self.counts@)
    }
}

impl NumOccurrences {
    /// The number of buckets that the table was made for.
    pub closed spec fn num_buckets(&self) -> nat {
        self.counts@.len()
    }

    /// The counters add up to the number of trials.
    pub closed spec fn well_formed(&self) -> bool {
        &&& self.num_iterations as nat == sum(self.counts@)
        &&& self.counts@.len() <= usize::MAX
    }

    /// What `record` answers for `bucket`.
    pub open spec fn record_result(&self, bucket: u64) -> Result<(), AccumulatorError> {
        if bucket >= self.num_buckets() {
            Err(AccumulatorError::OutOfRange)
        } else if self@.len() >= u64::MAX {
            Err(AccumulatorError::Overflow)
        } else {
            Ok(())
        }
    }

    /// Whether recording `bucket` into `self` answers `r` and leaves `after`.
    pub open spec fn recording(
        &self,
        bucket: u64,
        r: Result<(), AccumulatorError>,
        after: &Self,
    ) -> bool {
        &&& after.well_formed()
        &&& after.num_buckets() == self.num_buckets()
        &&& r == self.record_result(bucket)
        &&& after@ == (if r is Ok {
            self@.insert(bucket)
        } else {
            self@
        })
    }

    /// No bucket beyond the table was ever recorded.
    pub proof fn lemma_recorded_in_range(&self, bucket: u64)
        requires
            self.well_formed(),
            self@.count(bucket) > 0,
        ensures
            bucket < self.num_buckets(),
    {
        lemma_tally_count(self.counts@, bucket);
    }

    /// An empty table for the buckets `0..num_buckets`.
    pub fn new(num_buckets: usize) -> (acc: Self)
        ensures
            acc.well_formed(),
            acc.num_buckets() == num_buckets,
            acc@ == Multiset::<u64>::empty(),
    {
        let mut counts: Vec<u64> = Vec::new();
        let mut i: usize = 0;
        while i < num_buckets
            invariant
                i <= num_buckets,
                counts@.len() == i,
                forall|j: int| 0 <= j < i ==> counts@[j] == 0,
            decreases num_buckets - i,
        {
            counts.push(0);
            i = i + 1;
        }
        let acc = NumOccurrences { counts, num_iterations: 0 };
        proof {
            lemma_sum_zeros(acc.counts@);
            lemma_tally_len(acc.counts@);
            broadcast use vstd::multiset::group_multiset_axioms;

            assert(acc@.len() == 0);
            assert(acc@ =~= Multiset::<u64>::empty());
        }
        acc
    }

    /// The table with the counters given: `counts[i]` trials in bucket `i`.
    ///
    /// Fails with `Overflow` where the counters add up to more than `u64::MAX`.
    pub fn from_counts(counts: Vec<u64>) -> (r: Result<Self, AccumulatorError>)
        ensures
            sum(counts@) > u64::MAX ==> r == Err::<Self, AccumulatorError>(
                AccumulatorError::Overflow,
            ),
            sum(counts@) <= u64::MAX ==> r is Ok,
            r matches Ok(acc) ==> acc.well_formed() && acc.num_buckets() == counts@.len() && acc@
                == tally(counts@),
    {
        let all: u128 = crate::stats::total(&counts);
        if all > u64::MAX as u128 {
            return Err(AccumulatorError::Overflow);
        }
        let n: usize = counts.len();
        let acc = NumOccurrences { counts, num_iterations: all as u64 };
        proof {
            assert(acc.counts@.len() == n);
        }
        Ok(acc)
    }

    /// Records one trial that fell into `bucket`.
    pub fn record(&mut self, bucket: u64) -> (r: Result<(), AccumulatorError>)
        requires
            old(self).well_formed(),
        ensures
            old(self).recording(bucket, r, final(self)),
            r is Err ==> *final(self) == *old(self),
    {
        proof {
            lemma_tally_len(self.counts@);
        }
        if bucket >= self.counts.len() as u64 {
            return Err(AccumulatorError::OutOfRange);
        }
        if self.num_iterations == u64::MAX {
            return Err(AccumulatorError::Overflow);
        }
        let i: usize = bucket as usize;
        let c: u64 = self.counts[i];
        proof {
            lemma_sum_bounds(self.counts@, i as int);
            lemma_sum_update(self.counts@, i as int, (c + 1) as u64);
            lemma_tally_len(self.counts@.update(i as int, (c + 1) as u64));
        }
        self.counts.set(i, c + 1);
        self.num_iterations = self.num_iterations + 1;
        proof {
            broadcast use vstd::multiset::group_multiset_axioms;

            assert forall|x: u64| self@.count(x) == old(self)@.insert(bucket).count(x) by {
                lemma_tally_count(self.counts@, x);
                lemma_tally_count(old(self).counts@, x);
            }
            assert(self@ =~= old(self)@.insert(bucket));
        }
        Ok(())
    }

    /// The counters, one per bucket: how often each bucket was recorded. They add up to
    /// the number of trials.
    pub fn counts(&self) -> (counts: &Vec<u64>)
        requires
            self.well_formed(),
        ensures
            counts@.len() == self.num_buckets(),
            forall|i: int| 0 <= i < counts@.len() ==> counts@[i] as nat == self@.count(i as u64),
            sum(counts@) == self@.len(),
    {
        proof {
            lemma_tally_len(self.counts@);
            assert forall|i: int| 0 <= i < self.counts@.len() implies self.counts@[i] as nat
                == self@.count(i as u64) by {
                lemma_tally_count(self.counts@, i as u64);
            }
        }
        &self.counts
    }
}

impl Accumulator for NumOccurrences {
    type Outcome = u64;

    open spec fn wf(&self) -> bool {
        self.well_formed()
    }

    open spec fn recorded(&self) -> Multiset<u64> {
        self@
    }

    open spec fn same_domain(&self, other: &Self) -> bool {
        self.num_buckets() == other.num_buckets()
    }

    fn num_iterations(&self) -> (n: u64) {
        proof {
            lemma_tally_len(self.counts@);
        }
        self.num_iterations
    }

    fn merge(&mut self, other: &Self) -> (r: Result<(), AccumulatorError>) {
        proof {
            lemma_tally_len(self.counts@);
            lemma_tally_len(other.counts@);
        }
        if self.counts.len() != other.counts.len() {
            return Err(AccumulatorError::Mismatch);
        }
        if other.num_iterations > u64::MAX - self.num_iterations {
            return Err(AccumulatorError::Overflow);
        }
        let n: usize = self.counts.len();
        let mut i: usize = 0;
        while i < n
            invariant
                i <= n,
                n == self.counts@.len(),
                n == other.counts@.len(),
                n == old(self).counts@.len(),
                self.num_iterations == old(self).num_iterations,
                old(self).num_iterations as nat == sum(old(self).counts@),
                other.num_iterations as nat == sum(other.counts@),
                old(self).num_iterations + other.num_iterations <= u64::MAX,
                forall|j: int| 0 <= j < i ==> self.counts@[j] == old(self).counts@[j] + other.counts@[j],
                forall|j: int| i <= j < n ==> self.counts@[j] == old(self).counts@[j],
                sum(self.counts@) == sum(old(self).counts@) + sum(other.counts@.take(i as int)),
            decreases n - i,
        {
            let a: u64 = self.counts[i];
            let b: u64 = other.counts[i];
            proof {
                lemma_sum_bounds(old(self).counts@, i as int);
                lemma_sum_bounds(other.counts@, i as int);
                lemma_sum_update(self.counts@, i as int, (a + b) as u64);
                lemma_sum_take(other.counts@, i as int);
            }
            self.counts.set(i, a + b);
            i = i + 1;
        }
        proof {
            assert(other.counts@.take(n as int) =~= other.counts@);
        }
        self.num_iterations = self.num_iterations + other.num_iterations;
        proof {
            broadcast use vstd::multiset::group_multiset_axioms;

            assert forall|x: u64| self@.count(x) == old(self)@.add(other@).count(x) by {
                lemma_tally_count(self.counts@, x);
                lemma_tally_count(old(self).counts@, x);
                lemma_tally_count(other.counts@, x);
            }
            assert(self@ =~= old(self)@.add(other@));
        }
        Ok(())
    }
}

/// Cooccurrence table: a count for every tuple of a domain that was recorded at least once.
///
/// The tuples are kept in the order in which they were first recorded.
#[derive(Debug)]
pub struct NumCooccurrences {
    domain: Domain,
    tuples: Vec<Vec<u64>>,
    counts: Vec<u64>,
    index: HashMap<u128, usize>,
    num_iterations: u64,
}

impl View for NumCooccurrences {
    type V = Multiset<Seq<u64>>;

    /// The tuples recorded so far.
    closed spec fn view(&self) -> Multiset<Seq<u64>> {
        joint_tally(rows(self.tuples@), self.counts@)
    }
}

impl NumCooccurrences {
    /// The domain that the table was made for.
    pub closed spec fn domain(&self) -> Domain {
        self.domain
    }

    /// The tuples listed, in the order of their first recording.
    pub closed spec fn listed(&self) -> Seq<Seq<u64>> {
        rows(self.tuples@)
    }

    /// How often each listed tuple was recorded.
    pub open spec fn listed_counts(&self) -> Seq<u64> {
        Seq::new(self.listed().len(), |i: int| self@.count(self.listed()[i]) as u64)
    }

    /// The listed tuples are distinct tuples of the domain with positive counts, the index
    /// finds each of them by its number, and the counts add up to the number of trials.
    pub closed spec fn well_formed(&self) -> bool {
        &&& self.domain.well_formed()
        &&& self.tuples@.len() == self.counts@.len()
        &&& self.num_iterations as nat == sum(self.counts@)
        &&& forall|i: int|
            0 <= i < self.tuples@.len() ==> self.domain.contains(#[trigger] self.tuples@[i]@)
        &&& forall|i: int| 0 <= i < self.counts@.len() ==> #[trigger] self.counts@[i] >= 1
        &&& forall|i: int|
            0 <= i < self.tuples@.len() ==> self.index@.contains_key(
                self.domain.code(#[trigger] self.tuples@[i]@) as u128,
            ) && self.index@[self.domain.code(self.tuples@[i]@) as u128] == i
        &&& forall|k: u128| #[trigger]
            self.index@.contains_key(k) ==> self.index@[k] < self.tuples@.len()
                && self.domain.code(self.tuples@[self.index@[k] as int]@) == k
    }

    /// No tuple is listed twice.
    proof fn lemma_listed_distinct(&self)
        requires
            self.well_formed(),
        ensures
            distinct_rows(rows(self.tuples@)),
    {
        let all = rows(self.tuples@);
        assert forall|i: int, j: int| 0 <= i < j < all.len() implies all[i] != all[j] by {
            assert(self.index@[self.domain.code(self.tuples@[i]@) as u128] == i);
            assert(self.index@[self.domain.code(self.tuples@[j]@) as u128] == j);
        }
    }

    /// Every recorded tuple belongs to the domain.
    pub proof fn lemma_recorded_in_domain(&self, t: Seq<u64>)
        requires
            self.well_formed(),
            self@.count(t) > 0,
        ensures
            self.domain().contains(t),
    {
        let all = rows(self.tuples@);
        lemma_joint_tally_count(all, self.counts@, t);
        if forall|i: int| 0 <= i < all.len() ==> all[i] != t {
            lemma_weight_absent(all, self.counts@, t);
        } else {
            let i = choose|i: int| 0 <= i < all.len() && all[i] == t;
            assert(self.domain.contains(self.tuples@[i]@));
        }
    }

    /// What `record` answers for the tuple `t`.
    pub open spec fn record_result(&self, t: Seq<u64>) -> Result<(), AccumulatorError> {
        if !self.domain().contains(t) {
            Err(AccumulatorError::OutOfRange)
        } else if self@.len() >= u64::MAX {
            Err(AccumulatorError::Overflow)
        } else {
            Ok(())
        }
    }

    /// Whether recording the tuple `t` into `self` answers `r` and leaves `after`.
    pub open spec fn recording(
        &self,
        t: Seq<u64>,
        r: Result<(), AccumulatorError>,
        after: &Self,
    ) -> bool {
        &&& after.well_formed()
        &&& after.domain() == self.domain()
        &&& r == self.record_result(t)
        &&& after@ == (if r is Ok {
            self@.insert(t)
        } else {
            self@
        })
    }

    /// An empty table for the tuples of `domain`.
    pub fn new(domain: Domain) -> (acc: Self)
        requires
            domain.well_formed(),
        ensures
            acc.well_formed(),
            acc.domain() == domain,
            acc@ == Multiset::<Seq<u64>>::empty(),
    {
        NumCooccurrences {
            domain,
            tuples: Vec::new(),
            counts: Vec::new(),
            index: HashMap::new(),
            num_iterations: 0,
        }
    }

    /// Adds `amount` observations of `tuple`, whose number is `code`.
    fn add(&mut self, tuple: Vec<u64>, code: u128, amount: u64)
        requires
            old(self).well_formed(),
            old(self).domain.contains(tuple@),
            code == old(self).domain.code(tuple@),
            amount >= 1,
            old(self).num_iterations + amount <= u64::MAX,
        ensures
            final(self).well_formed(),
            final(self).domain == old(self).domain,
            final(self).num_iterations == old(self).num_iterations + amount,
            final(self)@ == old(self)@.add(copies(tuple@, amount as nat)),
    {
        broadcast use vstd::std_specs::hash::group_hash_axioms;

        let ghost before = rows(self.tuples@);
        let ghost counted = self.counts@;
        let found: Option<usize> = match self.index.get(&code) {
            Some(i) => Some(*i),
            None => None,
        };
        match found {
            Some(i) => {
                let c: u64 = self.counts[i];
                proof {
                    self.domain.lemma_code_distinguishes(self.tuples@[i as int]@, tuple@);
                    lemma_sum_bounds(counted, i as int);
                    lemma_sum_update(counted, i as int, (c + amount) as u64);
                }
                self.counts.set(i, c + amount);
                self.num_iterations = self.num_iterations + amount;
                proof {
                    broadcast use vstd::multiset::group_multiset_axioms;

                    assert(before[i as int] == tuple@);
                    assert forall|x: Seq<u64>| self@.count(x) == old(self)@.add(
                        copies(tuple@, amount as nat),
                    ).count(x) by {
                        lemma_joint_tally_count(before, self.counts@, x);
                        lemma_joint_tally_count(before, counted, x);
                        lemma_weight_update(before, counted, i as int, (c + amount) as u64, x);
                        lemma_copies(tuple@, amount as nat);
                    }
                    assert(self@ =~= old(self)@.add(copies(tuple@, amount as nat)));
                }
            },
            None => {
                let i: usize = self.tuples.len();
                proof {
                    assert forall|h: int| 0 <= h < before.len() implies before[h] != tuple@ by {
                        assert(self.index@.contains_key(
                            self.domain.code(self.tuples@[h]@) as u128,
                        ));
                    }
                    lemma_weight_absent(before, counted, tuple@);
                    crate::domain::lemma_code_bound(
                        self.domain.lower(),
                        self.domain.upper(),
                        tuple@,
                        0,
                    );
                }
                self.tuples.push(tuple);
                self.counts.push(amount);
                self.index.insert(code, i);
                self.num_iterations = self.num_iterations + amount;
                proof {
                    broadcast use vstd::multiset::group_multiset_axioms;

                    let after = rows(self.tuples@);
                    assert(after.drop_last() =~= before);
                    assert(self.counts@.drop_last() =~= counted);
                    assert(after.last() == tuple@);
                    assert forall|h: int| 0 <= h < self.tuples@.len() implies self.index@.contains_key(
                        self.domain.code(#[trigger] self.tuples@[h]@) as u128,
                    ) && self.index@[self.domain.code(self.tuples@[h]@) as u128] == h by {
                        if h < i {
                            assert(self.tuples@[h] == old(self).tuples@[h]);
                            assert(old(self).index@.contains_key(
                                self.domain.code(self.tuples@[h]@) as u128,
                            ));
                        }
                    }
                    assert forall|k: u128| #[trigger] self.index@.contains_key(k) implies self.index@[k]
                        < self.tuples@.len() && self.domain.code(
                        self.tuples@[self.index@[k] as int]@,
                    ) == k by {
                        if k != code {
                            assert(old(self).index@.contains_key(k));
                            assert(self.tuples@[self.index@[k] as int] == old(self).tuples@[old(
                                self,
                            ).index@[k] as int]);
                        }
                    }
                    assert forall|h: int| 0 <= h < self.tuples@.len() implies self.domain.contains(
                        #[trigger] self.tuples@[h]@,
                    ) by {
                        if h < i {
                            assert(self.tuples@[h] == old(self).tuples@[h]);
                        }
                    }
                    assert(self@ =~= old(self)@.add(copies(tuple@, amount as nat)));
                }
            },
        }
    }

    /// Records one trial that gave `tuple`.
    pub fn record(&mut self, tuple: Vec<u64>) -> (r: Result<(), AccumulatorError>)
        requires
            old(self).well_formed(),
        ensures
            old(self).recording(tuple@, r, final(self)),
            r is Err ==> *final(self) == *old(self),
    {
        proof {
            lemma_joint_tally_len(rows(self.tuples@), self.counts@);
        }
        let code: u128 = match self.domain.encode(&tuple) {
            Some(c) => c,
            None => {
                return Err(AccumulatorError::OutOfRange);
            },
        };
        if self.num_iterations == u64::MAX {
            return Err(AccumulatorError::Overflow);
        }
        let ghost t = tuple@;
        self.add(tuple, code, 1);
        proof {
            broadcast use vstd::multiset::group_multiset_axioms;

            lemma_copies(t, 1);
            assert(copies(t, 1) =~= Multiset::singleton(t));
        }
        Ok(())
    }

    /// The table: the tuples recorded at least once, in the order of their first recording,
    /// and beside each how often it was recorded. The counts add up to the number of trials.
    pub fn entries(&self) -> (r: (&Vec<Vec<u64>>, &Vec<u64>))
        requires
            self.well_formed(),
        ensures
            r.0@.len() == r.1@.len(),
            rows(r.0@) == self.listed(),
            r.1@ == self.listed_counts(),
            distinct_rows(rows(r.0@)),
            forall|i: int| 0 <= i < r.0@.len() ==> self.domain().contains(#[trigger] r.0@[i]@),
            forall|i: int|
                0 <= i < r.0@.len() ==> (#[trigger] r.1@[i]) >= 1 && r.1@[i] as nat == self@.count(
                    r.0@[i]@,
                ),
            forall|t: Seq<u64>|
                self@.count(t) > 0 ==> exists|i: int| 0 <= i < r.0@.len() && #[trigger] r.0@[i]@ == t,
            self@ == joint_tally(rows(r.0@), r.1@),
            sum(r.1@) == self@.len(),
    {
        proof {
            let all = rows(self.tuples@);
            self.lemma_listed_distinct();
            lemma_joint_tally_len(all, self.counts@);
            assert forall|i: int| 0 <= i < self.tuples@.len() implies (#[trigger] self.counts@[i])
                >= 1 && self.counts@[i] as nat == self@.count(self.tuples@[i]@) by {
                lemma_joint_tally_count(all, self.counts@, all[i]);
                lemma_weight_of_row(all, self.counts@, i);
            }
            assert(self.counts@ =~= self.listed_counts());
            assert forall|t: Seq<u64>| self@.count(t) > 0 implies exists|i: int|
                0 <= i < self.tuples@.len() && #[trigger] self.tuples@[i]@ == t by {
                lemma_joint_tally_count(all, self.counts@, t);
                if forall|i: int| 0 <= i < all.len() ==> all[i] != t {
                    lemma_weight_absent(all, self.counts@, t);
                } else {
                    let i = choose|i: int| 0 <= i < all.len() && all[i] == t;
                    assert(self.tuples@[i]@ == t);
                }
            }
        }
        (&self.tuples, &self.counts)
    }

    /// The domain that the table was made for.
    pub fn valid_tuples(&self) -> (domain: &Domain)
        ensures
            *domain == self.domain(),
    {
        &self.domain
    }
}

impl Accumulator for NumCooccurrences {
    type Outcome = Seq<u64>;

    open spec fn wf(&self) -> bool {
        self.well_formed()
    }

    open spec fn recorded(&self) -> Multiset<Seq<u64>> {
        self@
    }

    open spec fn same_domain(&self, other: &Self) -> bool {
        &&& self.domain().lower() == other.domain().lower()
        &&& self.domain().upper() == other.domain().upper()
    }

    fn num_iterations(&self) -> (n: u64) {
        proof {
            lemma_joint_tally_len(rows(self.tuples@), self.counts@);
        }
        self.num_iterations
    }

    fn merge(&mut self, other: &Self) -> (r: Result<(), AccumulatorError>) {
        proof {
            lemma_joint_tally_len(rows(self.tuples@), self.counts@);
            lemma_joint_tally_len(rows(other.tuples@), other.counts@);
        }
        if !self.domain.same_as(&other.domain) {
            return Err(AccumulatorError::Mismatch);
        }
        if other.num_iterations > u64::MAX - self.num_iterations {
            return Err(AccumulatorError::Overflow);
        }
        let ghost theirs = rows(other.tuples@);
        let n: usize = other.tuples.len();
        let mut p: usize = 0;
        while p < n
            invariant
                p <= n,
                n == other.tuples@.len(),
                other.well_formed(),
                theirs == rows(other.tuples@),
                self.well_formed(),
                self.domain == old(self).domain,
                self.domain.lower() == other.domain.lower(),
                self.domain.upper() == other.domain.upper(),
                old(self).num_iterations + other.num_iterations <= u64::MAX,
                self.num_iterations == old(self).num_iterations + sum(
                    other.counts@.take(p as int),
                ),
                self@ == old(self)@.add(
                    joint_tally(theirs.take(p as int), other.counts@.take(p as int)),
                ),
            decreases n - p,
        {
            let tuple: Vec<u64> = copy_of(&other.tuples[p]);
            let amount: u64 = other.counts[p];
            proof {
                assert(other.domain.contains(other.tuples@[p as int]@));
                lemma_sum_take(other.counts@, p as int);
                crate::stats::lemma_sum_prefix(other.counts@, p as int + 1);
                assert(other.counts@[p as int] >= 1);
            }
            let code: u128 = match self.domain.encode(&tuple) {
                Some(c) => c,
                None => {
                    proof {
                        assert(false);
                    }
                    0
                },
            };
            self.add(tuple, code, amount);
            proof {
                broadcast use vstd::multiset::group_multiset_axioms;

                let longer = theirs.take(p as int + 1);
                assert(longer.drop_last() =~= theirs.take(p as int));
                assert(other.counts@.take(p as int + 1).drop_last() =~= other.counts@.take(
                    p as int,
                ));
                assert(longer.last() == other.tuples@[p as int]@);
                assert(self@ =~= old(self)@.add(
                    joint_tally(longer, other.counts@.take(p as int + 1)),
                ));
            }
            p = p + 1;
        }
        proof {
            assert(theirs.take(n as int) =~= theirs);
            assert(other.counts@.take(n as int) =~= other.counts@);
        }
        Ok(())
    }
}

} // verus!
