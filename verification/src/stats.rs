//! Chi-squared statistics over tables of counts, in exact integer arithmetic.
//!
//! Every statistic is returned as the integers that determine it: a numerator
//! and a denominator, or the counts that enter a product. Nothing is rounded
//! here; a caller that wants a p-value divides once and evaluates the
//! chi-squared distribution with the degrees of freedom given.

use vstd::prelude::*;
use std::collections::HashMap;
use crate::bag::{rows, sum, lemma_sum_bounds, lemma_sum_take};

verus! {

/// Why a table admits no test.
#[derive(Clone, Copy, Debug, PartialEq, Eq, Structural)]
pub enum StatsError {
    /// An independence test needs at least one variable.
    NoVariables,
    /// The tuples and the counts differ in number, or a tuple has not one coordinate per variable.
    MalformedTable,
    /// The table holds no observation.
    NoObservations,
    /// The table leaves no degree of freedom: at most one variable takes more than one value.
    NoFreedom,
    /// An exact intermediate value exceeds the integers at hand.
    Overflow,
}

/// `|a - b|`.
pub open spec fn distance(a: nat, b: nat) -> nat {
    if a >= b {
        (a - b) as nat
    } else {
        (b - a) as nat
    }
}

/// `sum of |k * o - n|` over the counts `o`.
pub open spec fn absolute_deviation(counts: Seq<u64>, k: nat, n: nat) -> nat
    decreases counts.len(),
{
    if counts.len() == 0 {
        0
    } else {
        absolute_deviation(counts.drop_last(), k, n) + distance(k * counts.last() as nat, n)
    }
}

/// `sum of (k * o - n)^2` over the counts `o`.
pub open spec fn squared_deviation(counts: Seq<u64>, k: nat, n: nat) -> nat
    decreases counts.len(),
{
    if counts.len() == 0 {
        0
    } else {
        squared_deviation(counts.drop_last(), k, n) + distance(k * counts.last() as nat, n)
            * distance(k * counts.last() as nat, n)
    }
}

/// How far `k` counts that sum to `n` lie from the uniform distribution.
///
/// With `p_i = count_i / n`:
/// - the L1 distance `sum |p_i - 1/k|` is `absolute_deviation / scale`;
/// - the L2 distance `sqrt(sum (p_i - 1/k)^2)` is `sqrt(squared_deviation) / scale`;
/// - the chi-squared statistic `sum (count_i - n/k)^2 / (n/k)` is
///   `squared_deviation / scale`, with `num_categories - 1` degrees of freedom.
#[derive(Clone, Copy, Debug, PartialEq, Eq, Structural)]
pub struct Uniformity {
    /// `n`, the sum of the counts.
    pub num_samples: u128,
    /// `k`, the number of counts.
    pub num_categories: usize,
    /// `sum |k * count_i - n|`.
    pub absolute_deviation: u128,
    /// `sum (k * count_i - n)^2`.
    pub squared_deviation: u128,
    /// `k * n`.
    pub scale: u128,
}

impl Uniformity {
    /// Degrees of freedom of the chi-squared statistic: one less than the number of
    /// categories, and none without a category.
    pub fn degrees_of_freedom(&self) -> (df: usize)
        ensures
            df == (if self.num_categories >= 1 {
                self.num_categories - 1
            } else {
                0
            }),
    {
        if self.num_categories >= 1 {
            self.num_categories - 1
        } else {
            0
        }
    }
}

/// The uniformity statistics that `counts` determines, if they fit.
pub open spec fn uniformity_of(counts: Seq<u64>) -> Result<Uniformity, StatsError> {
    let k = counts.len();
    let n = sum(counts);
    if k * n > u128::MAX || squared_deviation(counts, k, n) > u128::MAX {
        Err(StatsError::Overflow)
    } else {
        Ok(
            (Uniformity {
                num_samples: n as u128,
                num_categories: k as usize,
                absolute_deviation: absolute_deviation(counts, k, n) as u128,
                squared_deviation: squared_deviation(counts, k, n) as u128,
                scale: (k * n) as u128,
            }),
        )
    }
}

/// The absolute deviation never exceeds the squared one.
pub proof fn lemma_absolute_below_squared(counts: Seq<u64>, k: nat, n: nat)
    ensures
        absolute_deviation(counts, k, n) <= squared_deviation(counts, k, n),
    decreases counts.len(),
{
    if counts.len() > 0 {
        lemma_absolute_below_squared(counts.drop_last(), k, n);
        let d = distance(k * counts.last() as nat, n);
        assert(d <= d * d) by (nonlinear_arith);
    }
}

/// The deviations of a prefix never exceed those of the whole.
pub proof fn lemma_squared_deviation_prefix(counts: Seq<u64>, k: nat, n: nat, i: int)
    requires
        0 <= i <= counts.len(),
    ensures
        squared_deviation(counts.take(i), k, n) <= squared_deviation(counts, k, n),
    decreases counts.len(),
{
    if i == counts.len() {
        assert(counts.take(i) =~= counts);
    } else {
        lemma_squared_deviation_prefix(counts.drop_last(), k, n, i);
        assert(counts.drop_last().take(i) =~= counts.take(i));
    }
}

/// The sum of a prefix never exceeds the sum of the whole.
pub proof fn lemma_sum_prefix(counts: Seq<u64>, i: int)
    requires
        0 <= i <= counts.len(),
    ensures
        sum(counts.take(i)) <= sum(counts),
    decreases counts.len(),
{
    if i == counts.len() {
        assert(counts.take(i) =~= counts);
    } else {
        lemma_sum_prefix(counts.drop_last(), i);
        assert(counts.drop_last().take(i) =~= counts.take(i));
    }
}

/// The sum of at most `usize::MAX` counters fits in 128 bits.
pub proof fn lemma_sum_fits(counts: Seq<u64>)
    ensures
        sum(counts) <= counts.len() * u64::MAX,
    decreases counts.len(),
{
    if counts.len() > 0 {
        lemma_sum_fits(counts.drop_last());
        assert((counts.len() - 1) * u64::MAX + u64::MAX == counts.len() * u64::MAX)
            by (nonlinear_arith);
    }
}

/// The sum of a table of counts.
pub fn total(counts: &Vec<u64>) -> (n: u128)
    ensures
        n == sum(counts@),
{
    let mut n: u128 = 0;
    let mut i: usize = 0;
    while i < counts.len()
        invariant
            i <= counts@.len(),
            n == sum(counts@.take(i as int)),
        decreases counts@.len() - i,
    {
        proof {
            lemma_sum_take(counts@, i as int);
            lemma_sum_fits(counts@.take(i as int + 1));
            assert((i + 1) * u64::MAX <= usize::MAX * u64::MAX) by (nonlinear_arith)
                requires
                    i + 1 <= usize::MAX,
            ;
        }
        n = n + counts[i] as u128;
        i = i + 1;
    }
    proof {
        assert(counts@.take(i as int) =~= counts@);
    }
    n
}

/// Measures how far `counts` lies from the uniform distribution over its categories.
///
/// A test of uniformity needs two categories at least: fewer are a violated
/// precondition. Fails with `Overflow` where `k * n` or the squared deviation exceeds
/// `u128::MAX`. The squared deviation is of the
/// order of `(k * n)^2`, so the limit is reached near `k * n == 2^64`: more than `2^32`
/// trials that all fell into one of `2^32` buckets overflow, where an evaluation in
/// floating point would still give a rounded figure.
pub fn uniformity(counts: &Vec<u64>) -> (r: Result<Uniformity, StatsError>)
    requires
        counts@.len() >= 2,
    ensures
        r == uniformity_of(counts@),
        r matches Ok(u) ==> u.num_categories >= 2,
{
    let k: usize = counts.len();
    let n: u128 = total(counts);
    let scale: u128 = match (k as u128).checked_mul(n) {
        Some(s) => s,
        None => {
            return Err(StatsError::Overflow);
        },
    };
    let mut absolute: u128 = 0;
    let mut squared: u128 = 0;
    let mut i: usize = 0;
    while i < k
        invariant
            2 <= k,
            i <= k,
            k == counts@.len(),
            n == sum(counts@),
            scale == k * n,
            absolute == absolute_deviation(counts@.take(i as int), k as nat, n as nat),
            squared == squared_deviation(counts@.take(i as int), k as nat, n as nat),
        decreases k - i,
    {
        let c: u64 = counts[i];
        proof {
            lemma_sum_bounds(counts@, i as int);
            assert(k * c <= k * n) by (nonlinear_arith)
                requires
                    c <= n,
            ;
            assert(counts@.take(i as int + 1).drop_last() =~= counts@.take(i as int));
            lemma_squared_deviation_prefix(counts@, k as nat, n as nat, i as int + 1);
            lemma_absolute_below_squared(counts@.take(i as int), k as nat, n as nat);
        }
        let x: u128 = (k as u128) * (c as u128);
        let d: u128 = if x >= n {
            x - n
        } else {
            n - x
        };
        proof {
            assert(d == distance(k as nat * c as nat, n as nat));
            assert(squared_deviation(counts@.take(i as int + 1), k as nat, n as nat) == squared + d
                * d);
            assert(absolute_deviation(counts@.take(i as int + 1), k as nat, n as nat) == absolute
                + d);
            lemma_absolute_below_squared(counts@.take(i as int + 1), k as nat, n as nat);
        }
        let term: u128 = match d.checked_mul(d) {
            Some(t) => t,
            None => {
                return Err(StatsError::Overflow);
            },
        };
        squared = match squared.checked_add(term) {
            Some(s) => s,
            None => {
                return Err(StatsError::Overflow);
            },
        };
        assert(d <= d * d) by (nonlinear_arith);
        absolute = absolute + d;
        i = i + 1;
    }
    proof {
        assert(counts@.take(k as int) =~= counts@);
    }
    Ok(
        Uniformity {
            num_samples: n,
            num_categories: k,
            absolute_deviation: absolute,
            squared_deviation: squared,
            scale,
        },
    )
}

/// The number of unordered pairs among `n` items: `n * (n - 1) / 2`.
pub open spec fn pairs(n: nat) -> nat {
    (n * (n - 1) / 2) as nat
}

/// `sum of pairs(o)` over the counts `o`: the pairs of trials that fell into one bucket.
pub open spec fn colliding_pairs(counts: Seq<u64>) -> nat
    decreases counts.len(),
{
    if counts.len() == 0 {
        0
    } else {
        colliding_pairs(counts.drop_last()) + pairs(counts.last() as nat)
    }
}

/// Splitting a set in two loses the pairs that straddle the split.
pub proof fn lemma_pairs_superadditive(a: nat, b: nat)
    ensures
        pairs(a) + pairs(b) <= pairs(a + b),
{
    lemma_pairs_doubled(a);
    lemma_pairs_doubled(b);
    lemma_pairs_doubled(a + b);
    assert(a * (a - 1) + b * (b - 1) <= (a + b) * (a + b - 1)) by (nonlinear_arith);
}

/// `2 * pairs(n) == n * (n - 1)`: one of two consecutive integers is even.
pub proof fn lemma_pairs_doubled(n: nat)
    ensures
        2 * pairs(n) == n * (n - 1),
{
    if n > 0 {
        let m: int = n as int / 2;
        if n % 2 == 0 {
            assert(n * (n - 1) == 2 * (m * (n - 1))) by (nonlinear_arith)
                requires
                    n == 2 * m,
            ;
        } else {
            assert(n * (n - 1) == 2 * (n * m)) by (nonlinear_arith)
                requires
                    n - 1 == 2 * m,
            ;
        }
    }
}

/// No table holds more colliding pairs than pairs of trials.
pub proof fn lemma_colliding_pairs_bound(counts: Seq<u64>)
    ensures
        colliding_pairs(counts) <= pairs(sum(counts)),
    decreases counts.len(),
{
    if counts.len() > 0 {
        lemma_colliding_pairs_bound(counts.drop_last());
        lemma_pairs_superadditive(sum(counts.drop_last()), counts.last() as nat);
    }
}

/// The number of unordered pairs among `n` items.
pub fn pairs_of(n: u64) -> (p: u128)
    ensures
        p == pairs(n as nat),
{
    if n == 0 {
        0
    } else {
        assert((n as u128) * ((n - 1) as u128) <= u64::MAX * u64::MAX) by (nonlinear_arith);
        (n as u128) * ((n - 1) as u128) / 2
    }
}

/// The colliding pairs of a prefix never exceed those of the whole.
pub proof fn lemma_colliding_pairs_prefix(counts: Seq<u64>, i: int)
    requires
        0 <= i <= counts.len(),
    ensures
        colliding_pairs(counts.take(i)) <= colliding_pairs(counts),
    decreases counts.len(),
{
    if i == counts.len() {
        assert(counts.take(i) =~= counts);
    } else {
        lemma_colliding_pairs_prefix(counts.drop_last(), i);
        assert(counts.drop_last().take(i) =~= counts.take(i));
    }
}

/// What `collisions` answers for `counts`.
pub open spec fn collisions_of(counts: Seq<u64>) -> Result<u128, StatsError> {
    if colliding_pairs(counts) > u128::MAX {
        Err(StatsError::Overflow)
    } else {
        Ok(colliding_pairs(counts) as u128)
    }
}

/// Counts the pairs of trials that fell into one bucket.
///
/// Fails with `Overflow` where the number exceeds `u128::MAX`, which takes counts that
/// sum to more than `u64::MAX`.
pub fn collisions(counts: &Vec<u64>) -> (r: Result<u128, StatsError>)
    ensures
        r == collisions_of(counts@),
        sum(counts@) <= u64::MAX ==> r is Ok,
{
    let mut c: u128 = 0;
    let mut i: usize = 0;
    while i < counts.len()
        invariant
            i <= counts@.len(),
            c == colliding_pairs(counts@.take(i as int)),
        decreases counts@.len() - i,
    {
        proof {
            assert(counts@.take(i as int + 1).drop_last() =~= counts@.take(i as int));
            lemma_colliding_pairs_prefix(counts@, i as int + 1);
        }
        c = match c.checked_add(pairs_of(counts[i])) {
            Some(more) => more,
            None => {
                proof {
                    if sum(counts@) <= u64::MAX {
                        lemma_collisions_fit(counts@);
                    }
                }
                return Err(StatsError::Overflow);
            },
        };
        i = i + 1;
    }
    proof {
        assert(counts@.take(i as int) =~= counts@);
        if sum(counts@) <= u64::MAX {
            lemma_collisions_fit(counts@);
        }
    }
    Ok(c)
}

/// The colliding pairs of counts that sum to at most `u64::MAX` fit in 128 bits.
pub proof fn lemma_collisions_fit(counts: Seq<u64>)
    requires
        sum(counts) <= u64::MAX,
    ensures
        colliding_pairs(counts) <= pairs(sum(counts)) <= u128::MAX,
{
    lemma_colliding_pairs_bound(counts);
    let m = sum(counts);
    lemma_pairs_doubled(m);
    assert(m * (m - 1) <= u64::MAX * u64::MAX) by (nonlinear_arith)
        requires
            m <= u64::MAX,
    ;
}

/// Whether every tuple has exactly `n` coordinates.
pub open spec fn rectangular(rows: Seq<Seq<u64>>, n: nat) -> bool {
    forall|i: int| 0 <= i < rows.len() ==> (#[trigger] rows[i]).len() == n
}

/// The marginal count of value `v` for variable `j`: the sum of the counts of the
/// tuples whose coordinate `j` is `v`.
pub open spec fn marginal(rows: Seq<Seq<u64>>, counts: Seq<u64>, j: int, v: u64) -> nat
    decreases rows.len(),
{
    if rows.len() == 0 || counts.len() == 0 {
        0
    } else {
        marginal(rows.drop_last(), counts.drop_last(), j, v) + (if rows.last()[j] == v {
            counts.last() as nat
        } else {
            0
        })
    }
}

/// The values that the rows `rows` have for variable `j`.
pub open spec fn values_of(rows: Seq<Seq<u64>>, j: int) -> Set<u64> {
    Set::new(|v: u64| exists|i: int| 0 <= i < rows.len() && (#[trigger] rows[i])[j] == v)
}

/// The number of values that the rows `rows` have for variable `j`.
pub open spec fn levels(rows: Seq<Seq<u64>>, j: int) -> nat {
    values_of(rows, j).len()
}

/// The number of cells of the table over the first `n` variables: the product of their levels.
pub open spec fn cells(rows: Seq<Seq<u64>>, n: nat) -> nat
    decreases n,
{
    if n == 0 {
        1
    } else {
        cells(rows, (n - 1) as nat) * levels(rows, n - 1)
    }
}

/// The parameters that the marginals of the first `n` variables fix: the sum of `levels - 1`.
pub open spec fn margins(rows: Seq<Seq<u64>>, n: nat) -> int
    decreases n,
{
    if n == 0 {
        0
    } else {
        margins(rows, (n - 1) as nat) + levels(rows, n - 1) - 1
    }
}

/// Degrees of freedom of the test of mutual independence of `n` variables:
/// `product of levels - 1 - sum of (levels - 1)`.
pub open spec fn freedom(rows: Seq<Seq<u64>>, n: nat) -> int {
    cells(rows, n) - 1 - margins(rows, n)
}

/// What a test of mutual independence needs of a table of joint counts.
///
/// Only the observed tuples count: those listed with a positive count. The expected
/// count of the observed tuple `i` under independence is
/// `num_samples * product over j of (marginals[j][i] / num_samples)`; the chi-squared
/// statistic sums `(counts[i] - expected_i)^2 / expected_i` over the observed tuples.
#[derive(Debug)]
pub struct Independence {
    /// The sum of the counts.
    pub num_samples: u64,
    /// Degrees of freedom of the chi-squared statistic; positive.
    pub degrees_of_freedom: u64,
    /// The counts of the observed tuples, in the order in which the table lists them.
    pub counts: Vec<u64>,
    /// For each variable `j` and each observed tuple `i`, the marginal count of the value
    /// that tuple `i` has for variable `j`.
    pub marginals: Vec<Vec<u64>>,
}

/// The observed tuples of a table: the rows listed with a positive count, in order.
pub open spec fn seen_rows(rows: Seq<Seq<u64>>, counts: Seq<u64>) -> Seq<Seq<u64>>
    decreases rows.len(),
{
    if rows.len() == 0 || counts.len() == 0 {
        Seq::empty()
    } else if counts.last() > 0 {
        seen_rows(rows.drop_last(), counts.drop_last()).push(rows.last())
    } else {
        seen_rows(rows.drop_last(), counts.drop_last())
    }
}

/// The positive counts of a table, in order.
pub open spec fn seen_counts(counts: Seq<u64>) -> Seq<u64>
    decreases counts.len(),
{
    if counts.len() == 0 {
        Seq::empty()
    } else if counts.last() > 0 {
        seen_counts(counts.drop_last()).push(counts.last())
    } else {
        seen_counts(counts.drop_last())
    }
}

/// Why the table admits no test of mutual independence of `n` variables, if it admits
/// none. A tuple listed with count zero was never observed: it is as if it were not listed.
pub open spec fn independence_refusal(rows: Seq<Seq<u64>>, counts: Seq<u64>, n: nat) -> Option<
    StatsError,
> {
    if n == 0 {
        Some(StatsError::NoVariables)
    } else if rows.len() != counts.len() {
        Some(StatsError::MalformedTable)
    } else {
        table_refusal(seen_rows(rows, counts), seen_counts(counts), n)
    }
}

/// Whether `t` is what the table determines for a test of `n` variables: what its
/// observed tuples determine.
pub open spec fn independence_matches(
    t: Independence,
    rows: Seq<Seq<u64>>,
    counts: Seq<u64>,
    n: nat,
) -> bool {
    &&& t.counts@ == seen_counts(counts)
    &&& table_matches(t, seen_rows(rows, counts), seen_counts(counts), n)
}

/// Why a table of observed tuples admits no test of mutual independence of `n` variables,
/// if it admits none.
pub open spec fn table_refusal(rows: Seq<Seq<u64>>, counts: Seq<u64>, n: nat) -> Option<
    StatsError,
> {
    if n == 0 {
        Some(StatsError::NoVariables)
    } else if rows.len() != counts.len() || !rectangular(rows, n) {
        Some(StatsError::MalformedTable)
    } else if sum(counts) > u64::MAX {
        Some(StatsError::Overflow)
    } else if sum(counts) == 0 {
        Some(StatsError::NoObservations)
    } else if cells(rows, n) > u64::MAX {
        Some(StatsError::Overflow)
    } else if freedom(rows, n) <= 0 {
        Some(StatsError::NoFreedom)
    } else {
        None
    }
}

/// Whether `t` is what a table of observed tuples determines for a test of `n` variables.
pub open spec fn table_matches(
    t: Independence,
    rows: Seq<Seq<u64>>,
    counts: Seq<u64>,
    n: nat,
) -> bool {
    &&& t.num_samples == sum(counts)
    &&& t.degrees_of_freedom == freedom(rows, n)
    &&& t.marginals@.len() == n
    &&& forall|j: int|
        0 <= j < n ==> (#[trigger] t.marginals@[j])@.len() == rows.len()
    &&& forall|j: int, i: int|
        0 <= j < n && 0 <= i < rows.len() ==> (#[trigger] t.marginals@[j]@[i]) == marginal(
            rows,
            counts,
            j,
            rows[i][j],
        )
}

/// A marginal count never exceeds the sum of the counts.
pub proof fn lemma_marginal_bound(rows: Seq<Seq<u64>>, counts: Seq<u64>, j: int, v: u64)
    requires
        rows.len() == counts.len(),
    ensures
        marginal(rows, counts, j, v) <= sum(counts),
    decreases rows.len(),
{
    if rows.len() > 0 {
        lemma_marginal_bound(rows.drop_last(), counts.drop_last(), j, v);
    }
}

/// A value that no tuple takes has marginal count zero.
pub proof fn lemma_marginal_unobserved(rows: Seq<Seq<u64>>, counts: Seq<u64>, j: int, v: u64)
    requires
        rows.len() == counts.len(),
        !values_of(rows, j).contains(v),
    ensures
        marginal(rows, counts, j, v) == 0,
    decreases rows.len(),
{
    if rows.len() > 0 {
        let shorter = rows.drop_last();
        assert(!values_of(shorter, j).contains(v)) by {
            if values_of(shorter, j).contains(v) {
                let i = choose|i: int| 0 <= i < shorter.len() && (#[trigger] shorter[i])[j] == v;
                assert(rows[i][j] == v);
            }
        }
        assert(rows[rows.len() - 1][j] != v);
        lemma_marginal_unobserved(shorter, counts.drop_last(), j, v);
    }
}

/// Every variable of a table that is not empty takes at least one value.
pub proof fn lemma_levels_positive(rows: Seq<Seq<u64>>, j: int)
    requires
        rows.len() > 0,
        values_of(rows, j).finite(),
    ensures
        levels(rows, j) >= 1,
{
    assert(values_of(rows, j).contains(rows[0][j]));
    if values_of(rows, j).len() == 0 {
        values_of(rows, j).lemma_len0_is_empty();
    }
}

/// The values of the tuples before `p + 1` are those before `p` and the value of tuple `p`.
pub proof fn lemma_observed_step(rows: Seq<Seq<u64>>, j: int, p: int)
    requires
        0 <= p < rows.len(),
    ensures
        values_of(rows.take(p + 1), j) == values_of(rows.take(p), j).insert(rows[p][j]),
{
    let longer = rows.take(p + 1);
    let shorter = rows.take(p);
    assert forall|v: u64| values_of(longer, j).contains(v) <==> values_of(shorter, j).insert(
        rows[p][j],
    ).contains(v) by {
        if values_of(longer, j).contains(v) {
            let i = choose|i: int| 0 <= i < longer.len() && (#[trigger] longer[i])[j] == v;
            if i < p {
                assert(shorter[i][j] == v);
            }
        }
        if values_of(shorter, j).contains(v) {
            let i = choose|i: int| 0 <= i < shorter.len() && (#[trigger] shorter[i])[j] == v;
            assert(longer[i][j] == v);
        }
        if v == rows[p][j] {
            assert(longer[p][j] == v);
        }
    }
    assert(values_of(longer, j) =~= values_of(shorter, j).insert(rows[p][j]));
}

/// With every level at least one, the cells outnumber the parameters that the margins fix.
pub proof fn lemma_freedom_nonnegative(rows: Seq<Seq<u64>>, n: nat)
    requires
        forall|j: int| 0 <= j < n ==> levels(rows, j) >= 1,
    ensures
        cells(rows, n) >= 1 + margins(rows, n),
        margins(rows, n) >= 0,
    decreases n,
{
    if n > 0 {
        lemma_freedom_nonnegative(rows, (n - 1) as nat);
        let c = cells(rows, (n - 1) as nat);
        let m = margins(rows, (n - 1) as nat);
        let l = levels(rows, n - 1);
        assert(c * l >= 1 + m + l - 1) by (nonlinear_arith)
            requires
                c >= 1 + m,
                m >= 0,
                l >= 1,
        ;
    }
}

/// With every level at least one, the cells over more variables are no fewer.
pub proof fn lemma_cells_monotone(rows: Seq<Seq<u64>>, m: nat, n: nat)
    requires
        m <= n,
        forall|j: int| 0 <= j < n ==> levels(rows, j) >= 1,
    ensures
        1 <= cells(rows, m) <= cells(rows, n),
    decreases n,
{
    if m < n {
        lemma_cells_monotone(rows, m, (n - 1) as nat);
        let c = cells(rows, (n - 1) as nat);
        let l = levels(rows, n - 1);
        assert(c * l >= c) by (nonlinear_arith)
            requires
                c >= 1,
                l >= 1,
        ;
    } else if n > 0 {
        lemma_cells_monotone(rows, (n - 1) as nat, (n - 1) as nat);
        let c = cells(rows, (n - 1) as nat);
        let l = levels(rows, n - 1);
        assert(c * l >= 1) by (nonlinear_arith)
            requires
                c >= 1,
                l >= 1,
        ;
    }
}

/// The marginal counts of variable `j`, tuple by tuple, and the number of its levels.
fn column(tuples: &Vec<Vec<u64>>, counts: &Vec<u64>, j: usize) -> (r: (Vec<u64>, usize))
    requires
        tuples@.len() == counts@.len(),
        forall|i: int| 0 <= i < tuples@.len() ==> (#[trigger] tuples@[i])@.len() > j,
        sum(counts@) <= u64::MAX,
    ensures
        r.0@.len() == tuples@.len(),
        forall|i: int|
            0 <= i < tuples@.len() ==> (#[trigger] r.0@[i]) == marginal(
                rows(tuples@),
                counts@,
                j as int,
                rows(tuples@)[i][j as int],
            ),
        r.1 == levels(rows(tuples@), j as int),
        values_of(rows(tuples@), j as int).finite(),
{
    broadcast use vstd::std_specs::hash::group_hash_axioms;

    let ghost all = rows(tuples@);
    let mut totals: HashMap<u64, u64> = HashMap::new();
    let mut p: usize = 0;
    proof {
        assert(values_of(all.take(0), j as int) =~= Set::<u64>::empty());
    }
    while p < tuples.len()
        invariant
            p <= tuples@.len(),
            all == rows(tuples@),
            tuples@.len() == counts@.len(),
            forall|i: int| 0 <= i < tuples@.len() ==> (#[trigger] tuples@[i])@.len() > j,
            sum(counts@) <= u64::MAX,
            totals@.dom() == values_of(all.take(p as int), j as int),
            forall|v: u64| #[trigger]
                totals@.contains_key(v) ==> totals@[v] == marginal(
                    all.take(p as int),
                    counts@.take(p as int),
                    j as int,
                    v,
                ),
        decreases tuples@.len() - p,
    {
        let v: u64 = tuples[p][j];
        let c: u64 = counts[p];
        let ghost before = totals@;
        proof {
            assert(all[p as int] == tuples@[p as int]@);
            lemma_observed_step(all, j as int, p as int);
            assert(all.take(p as int + 1).drop_last() =~= all.take(p as int));
            assert(counts@.take(p as int + 1).drop_last() =~= counts@.take(p as int));
            lemma_marginal_bound(all.take(p as int + 1), counts@.take(p as int + 1), j as int, v);
            lemma_sum_prefix(counts@, p as int + 1);
            if !before.contains_key(v) {
                lemma_marginal_unobserved(all.take(p as int), counts@.take(p as int), j as int, v);
            }
        }
        let known: u64 = match totals.get(&v) {
            Some(m) => *m,
            None => 0,
        };
        totals.insert(v, known + c);
        p = p + 1;
        proof {
            assert(totals@.dom() =~= before.dom().insert(v));
        }
    }
    proof {
        assert(all.take(p as int) =~= all);
        assert(counts@.take(p as int) =~= counts@);
    }
    let mut cells: Vec<u64> = Vec::new();
    let mut i: usize = 0;
    while i < tuples.len()
        invariant
            i <= tuples@.len(),
            all == rows(tuples@),
            forall|i: int| 0 <= i < tuples@.len() ==> (#[trigger] tuples@[i])@.len() > j,
            totals@.dom() == values_of(all, j as int),
            forall|v: u64| #[trigger]
                totals@.contains_key(v) ==> totals@[v] == marginal(all, counts@, j as int, v),
            cells@.len() == i,
            forall|h: int|
                0 <= h < i ==> (#[trigger] cells@[h]) == marginal(all, counts@, j as int, all[h][j as int]),
        decreases tuples@.len() - i,
    {
        let v: u64 = tuples[i][j];
        proof {
            assert(all[i as int] == tuples@[i as int]@);
            assert(values_of(all, j as int).contains(v));
        }
        let m: u64 = match totals.get(&v) {
            Some(m) => *m,
            None => 0,
        };
        cells.push(m);
        i = i + 1;
    }
    (cells, totals.len())
}

/// The test of mutual independence of `n` variables on a table of observed tuples.
fn tabulate(tuples: &Vec<Vec<u64>>, counts: Vec<u64>, n: usize) -> (r: Result<
    Independence,
    StatsError,
>)
    ensures
        match r {
            Ok(t) => table_refusal(rows(tuples@), counts@, n as nat) is None && table_matches(
                t,
                rows(tuples@),
                counts@,
                n as nat,
            ) && t.counts@ == counts@,
            Err(e) => table_refusal(rows(tuples@), counts@, n as nat) == Some(e),
        },
{
    let ghost all = rows(tuples@);
    if n == 0 {
        return Err(StatsError::NoVariables);
    }
    if tuples.len() != counts.len() {
        return Err(StatsError::MalformedTable);
    }
    let mut i: usize = 0;
    while i < tuples.len()
        invariant
            n > 0,
            i <= tuples@.len(),
            all == rows(tuples@),
            tuples@.len() == counts@.len(),
            forall|h: int| 0 <= h < i ==> (#[trigger] all[h]).len() == n,
        decreases tuples@.len() - i,
    {
        if tuples[i].len() != n {
            proof {
                assert(all[i as int].len() != n);
            }
            return Err(StatsError::MalformedTable);
        }
        i = i + 1;
    }
    let wide: u128 = total(&counts);
    if wide > u64::MAX as u128 {
        return Err(StatsError::Overflow);
    }
    if wide == 0 {
        return Err(StatsError::NoObservations);
    }
    let num_samples: u64 = wide as u64;
    proof {
        if tuples@.len() == 0 {
            assert(sum(counts@) == 0);
        }
    }
    let mut marginals: Vec<Vec<u64>> = Vec::new();
    let mut product: u64 = 1;
    let mut fixed: u64 = 0;
    let mut j: usize = 0;
    while j < n
        invariant
            j <= n,
            n > 0,
            all == rows(tuples@),
            tuples@.len() == counts@.len(),
            tuples@.len() > 0,
            rectangular(all, n as nat),
            0 < sum(counts@) <= u64::MAX,
            marginals@.len() == j,
            forall|h: int| 0 <= h < j ==> (#[trigger] marginals@[h])@.len() == all.len(),
            forall|h: int, i: int|
                0 <= h < j && 0 <= i < all.len() ==> (#[trigger] marginals@[h]@[i]) == marginal(
                    all,
                    counts@,
                    h,
                    all[i][h],
                ),
            forall|h: int| 0 <= h < j ==> levels(all, h) >= 1,
            product == cells(all, j as nat),
            fixed == margins(all, j as nat),
        decreases n - j,
    {
        proof {
            assert forall|i: int| 0 <= i < tuples@.len() implies (#[trigger] tuples@[i])@.len()
                > j by {
                assert(all[i].len() == n);
            }
        }
        let (cells_of_j, levels_of_j): (Vec<u64>, usize) = column(tuples, &counts, j);
        proof {
            lemma_levels_positive(all, j as int);
            lemma_freedom_nonnegative(all, j as nat);
            lemma_freedom_nonnegative(all, (j + 1) as nat);
        }
        product = match product.checked_mul(levels_of_j as u64) {
            Some(x) => x,
            None => {
                proof {
                    assert forall|h: int| 0 <= h < n implies levels(all, h) >= 1 by {
                        assert(all[0].len() == n);
                        lemma_levels_finite(all, h);
                        lemma_levels_positive(all, h);
                    }
                    lemma_cells_monotone(all, (j + 1) as nat, n as nat);
                    assert(cells(all, (j + 1) as nat) == cells(all, j as nat) * levels(
                        all,
                        j as int,
                    ));
                }
                return Err(StatsError::Overflow);
            },
        };
        fixed = fixed + (levels_of_j as u64 - 1);
        marginals.push(cells_of_j);
        j = j + 1;
    }
    proof {
        lemma_freedom_nonnegative(all, n as nat);
    }
    let degrees_of_freedom: u64 = product - 1 - fixed;
    if degrees_of_freedom == 0 {
        return Err(StatsError::NoFreedom);
    }
    Ok(Independence { num_samples, degrees_of_freedom, counts, marginals })
}

/// The observed tuples and the positive counts are as many.
pub proof fn lemma_seen_lengths(rows: Seq<Seq<u64>>, counts: Seq<u64>)
    requires
        rows.len() == counts.len(),
    ensures
        seen_rows(rows, counts).len() == seen_counts(counts).len(),
        seen_counts(counts).len() <= counts.len(),
        forall|i: int| 0 <= i < seen_counts(counts).len() ==> #[trigger] seen_counts(counts)[i] > 0,
        sum(seen_counts(counts)) == sum(counts),
    decreases rows.len(),
{
    if rows.len() > 0 {
        lemma_seen_lengths(rows.drop_last(), counts.drop_last());
        if counts.last() > 0 {
            assert(seen_counts(counts).drop_last() =~= seen_counts(counts.drop_last()));
        }
    }
}

/// A table without a zero count has only observed tuples.
pub proof fn lemma_seen_all(rows: Seq<Seq<u64>>, counts: Seq<u64>)
    requires
        rows.len() == counts.len(),
        forall|i: int| 0 <= i < counts.len() ==> #[trigger] counts[i] > 0,
    ensures
        seen_rows(rows, counts) == rows,
        seen_counts(counts) == counts,
    decreases rows.len(),
{
    if rows.len() > 0 {
        lemma_seen_all(rows.drop_last(), counts.drop_last());
        assert(rows.drop_last().push(rows.last()) =~= rows);
        assert(counts.drop_last().push(counts.last()) =~= counts);
    } else {
        assert(rows =~= Seq::<Seq<u64>>::empty());
        assert(counts =~= Seq::<u64>::empty());
    }
}

/// A tuple listed with count zero changes nothing: the table and the table without its
/// zero counts are refused alike, and what matches the one matches the other.
pub proof fn lemma_zero_counts_ignored(
    t: Independence,
    rows: Seq<Seq<u64>>,
    counts: Seq<u64>,
    n: nat,
)
    requires
        rows.len() == counts.len(),
    ensures
        independence_refusal(seen_rows(rows, counts), seen_counts(counts), n)
            == independence_refusal(rows, counts, n),
        independence_matches(t, seen_rows(rows, counts), seen_counts(counts), n)
            == independence_matches(t, rows, counts, n),
{
    lemma_seen_lengths(rows, counts);
    lemma_seen_all(seen_rows(rows, counts), seen_counts(counts));
}

/// Whether the table admits a test of mutual independence of `n` variables: `None` where
/// it does, and else the reason why not, as `independence_refusal` gives it.
pub fn check_independence(tuples: &Vec<Vec<u64>>, counts: &Vec<u64>, n: usize) -> (refusal:
    Option<StatsError>)
    ensures
        refusal == independence_refusal(rows(tuples@), counts@, n as nat),
{
    match examine(tuples, counts, n) {
        Ok(_) => None,
        Err(e) => Some(e),
    }
}

/// Prepares the chi-squared test of mutual independence of `n` variables from a table of
/// joint counts: `counts[i]` observations of the tuple `tuples[i]`.
///
/// Only observed tuples count. A tuple that the table does not list, or lists with count
/// zero, contributes nothing: it adds no value to a variable and no term to the
/// statistic. The table must admit the test, which `check_independence` tells: a table
/// without an observation or without a degree of freedom is a violated precondition. The
/// result holds the number of samples, the degrees of freedom, the counts of the
/// observed tuples, and for each of them the marginal count of each of its coordinates.
pub fn independence(tuples: &Vec<Vec<u64>>, counts: &Vec<u64>, n: usize) -> (t: Independence)
    requires
        independence_refusal(rows(tuples@), counts@, n as nat) is None,
    ensures
        independence_matches(t, rows(tuples@), counts@, n as nat),
        t.degrees_of_freedom >= 1,
        t.num_samples >= 1,
{
    match examine(tuples, counts, n) {
        Ok(t) => t,
        Err(_) => vstd::pervasive::unreached(),
    }
}

/// The test of mutual independence, or why the table admits none.
fn examine(tuples: &Vec<Vec<u64>>, counts: &Vec<u64>, n: usize) -> (r: Result<
    Independence,
    StatsError,
>)
    ensures
        match r {
            Ok(t) => independence_refusal(rows(tuples@), counts@, n as nat) is None
                && independence_matches(t, rows(tuples@), counts@, n as nat),
            Err(e) => independence_refusal(rows(tuples@), counts@, n as nat) == Some(e),
        },
{
    let ghost all = rows(tuples@);
    if n == 0 {
        return Err(StatsError::NoVariables);
    }
    if tuples.len() != counts.len() {
        return Err(StatsError::MalformedTable);
    }
    let mut seen_tuples: Vec<Vec<u64>> = Vec::new();
    let mut seen: Vec<u64> = Vec::new();
    let mut i: usize = 0;
    while i < tuples.len()
        invariant
            i <= tuples@.len(),
            all == rows(tuples@),
            tuples@.len() == counts@.len(),
            rows(seen_tuples@) == seen_rows(all.take(i as int), counts@.take(i as int)),
            seen@ == seen_counts(counts@.take(i as int)),
        decreases tuples@.len() - i,
    {
        proof {
            assert(all.take(i as int + 1).drop_last() =~= all.take(i as int));
            assert(counts@.take(i as int + 1).drop_last() =~= counts@.take(i as int));
            assert(all[i as int] == tuples@[i as int]@);
        }
        if counts[i] > 0 {
            let ghost before = rows(seen_tuples@);
            seen_tuples.push(crate::domain::copy_of(&tuples[i]));
            seen.push(counts[i]);
            proof {
                assert(rows(seen_tuples@) =~= before.push(all[i as int]));
            }
        }
        i = i + 1;
    }
    proof {
        assert(all.take(i as int) =~= all);
        assert(counts@.take(i as int) =~= counts@);
    }
    tabulate(&seen_tuples, seen, n)
}

/// A finite table shows finitely many values of each variable.
pub proof fn lemma_levels_finite(rows: Seq<Seq<u64>>, j: int)
    ensures
        values_of(rows, j).finite(),
    decreases rows.len(),
{
    if rows.len() == 0 {
        assert(values_of(rows, j) =~= Set::<u64>::empty());
    } else {
        let p = rows.len() - 1;
        lemma_levels_finite(rows.take(p), j);
        lemma_observed_step(rows, j, p);
        assert(rows.take(p + 1) =~= rows);
    }
}

/// The sum of the marginal counts of the values `values` for variable `j`.
pub open spec fn marginal_total(
    rows: Seq<Seq<u64>>,
    counts: Seq<u64>,
    j: int,
    values: Seq<u64>,
) -> nat
    decreases values.len(),
{
    if values.len() == 0 {
        0
    } else {
        marginal_total(rows, counts, j, values.drop_last()) + marginal(
            rows,
            counts,
            j,
            values.last(),
        )
    }
}

/// How often `x` occurs among `values`.
pub open spec fn occurrences(values: Seq<u64>, x: u64) -> nat
    decreases values.len(),
{
    if values.len() == 0 {
        0
    } else {
        occurrences(values.drop_last(), x) + (if values.last() == x {
            1nat
        } else {
            0nat
        })
    }
}

/// A value of a list without repetition occurs in it once.
pub proof fn lemma_occurs_once(values: Seq<u64>, x: u64)
    requires
        values.no_duplicates(),
    ensures
        occurrences(values, x) == (if values.contains(x) {
            1nat
        } else {
            0nat
        }),
    decreases values.len(),
{
    if values.len() > 0 {
        let shorter = values.drop_last();
        lemma_occurs_once(shorter, x);
        if values.last() == x {
            if shorter.contains(x) {
                let i = choose|i: int| 0 <= i < shorter.len() && shorter[i] == x;
                assert(values[i] == values[values.len() - 1]);
            }
            assert(values[values.len() - 1] == x);
        } else if values.contains(x) {
            let i = choose|i: int| 0 <= i < values.len() && values[i] == x;
            assert(shorter[i] == x);
        } else if shorter.contains(x) {
            let i = choose|i: int| 0 <= i < shorter.len() && shorter[i] == x;
            assert(values[i] == x);
        }
    }
}

/// One more tuple adds its count to the marginal total once for each time that its
/// value is listed.
pub proof fn lemma_marginal_total_step(
    rows: Seq<Seq<u64>>,
    counts: Seq<u64>,
    j: int,
    values: Seq<u64>,
)
    requires
        rows.len() == counts.len(),
        rows.len() > 0,
    ensures
        marginal_total(rows, counts, j, values) == marginal_total(
            rows.drop_last(),
            counts.drop_last(),
            j,
            values,
        ) + occurrences(values, rows.last()[j]) * counts.last(),
    decreases values.len(),
{
    if values.len() > 0 {
        lemma_marginal_total_step(rows, counts, j, values.drop_last());
        let a = occurrences(values.drop_last(), rows.last()[j]);
        let c = counts.last() as nat;
        assert((a + 1) * c == a * c + c) by (nonlinear_arith);
        assert((a + 0) * c == a * c) by (nonlinear_arith);
    } else {
        assert(0 * counts.last() == 0) by (nonlinear_arith);
    }
}

/// The marginal counts of a variable add up to the number of samples, over any list
/// without repetition of the values that the variable takes. The marginal frequencies
/// of a table whose tuples have a coordinate for the variable therefore sum to one.
pub proof fn lemma_marginals_cover(
    rows: Seq<Seq<u64>>,
    counts: Seq<u64>,
    j: int,
    values: Seq<u64>,
)
    requires
        rows.len() == counts.len(),
        values.no_duplicates(),
        forall|i: int| 0 <= i < rows.len() ==> values.contains(#[trigger] rows[i][j]),
    ensures
        marginal_total(rows, counts, j, values) == sum(counts),
    decreases rows.len(),
{
    if rows.len() == 0 {
        lemma_marginal_total_empty(rows, counts, j, values);
    } else {
        let shorter = rows.drop_last();
        assert forall|i: int| 0 <= i < shorter.len() implies values.contains(
            #[trigger] shorter[i][j],
        ) by {
            assert(shorter[i] == rows[i]);
        }
        lemma_marginals_cover(shorter, counts.drop_last(), j, values);
        lemma_marginal_total_step(rows, counts, j, values);
        assert(values.contains(rows[rows.len() - 1][j]));
        lemma_occurs_once(values, rows.last()[j]);
        assert(1 * counts.last() == counts.last()) by (nonlinear_arith);
    }
}

/// An empty table has no marginal counts.
pub proof fn lemma_marginal_total_empty(
    rows: Seq<Seq<u64>>,
    counts: Seq<u64>,
    j: int,
    values: Seq<u64>,
)
    requires
        rows.len() == 0,
    ensures
        marginal_total(rows, counts, j, values) == 0,
    decreases values.len(),
{
    if values.len() > 0 {
        lemma_marginal_total_empty(rows, counts, j, values.drop_last());
    }
}

/// A table determines what its test needs: two results for one table agree in the
/// number of samples, in the degrees of freedom, in the counts of the observed tuples
/// and in every marginal count.
pub proof fn lemma_independence_determined(
    a: Independence,
    b: Independence,
    rows: Seq<Seq<u64>>,
    counts: Seq<u64>,
    n: nat,
)
    requires
        independence_matches(a, rows, counts, n),
        independence_matches(b, rows, counts, n),
    ensures
        a.num_samples == b.num_samples,
        a.degrees_of_freedom == b.degrees_of_freedom,
        a.counts@ == b.counts@,
        crate::bag::rows(a.marginals@) == crate::bag::rows(b.marginals@),
{
    let seen = seen_rows(rows, counts);
    let weights = seen_counts(counts);
    let x = crate::bag::rows(a.marginals@);
    let y = crate::bag::rows(b.marginals@);
    assert forall|j: int| 0 <= j < x.len() implies x[j] == y[j] by {
        assert(a.marginals@[j]@.len() == seen.len());
        assert(b.marginals@[j]@.len() == seen.len());
        assert forall|i: int| 0 <= i < seen.len() implies x[j][i] == y[j][i] by {
            assert(a.marginals@[j]@[i] == marginal(seen, weights, j, seen[i][j]));
            assert(b.marginals@[j]@[i] == marginal(seen, weights, j, seen[i][j]));
        }
        assert(x[j] =~= y[j]);
    }
    assert(x =~= y);
}

} // verus!
