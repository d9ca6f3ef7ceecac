//! Multisets of recorded outcomes: the mathematical model of an accumulator.

use vstd::prelude::*;
use vstd::multiset::Multiset;

verus! {

/// The multiset that holds `c` copies of `x` and nothing else.
pub open spec fn copies<T>(x: T, c: nat) -> Multiset<T>
    decreases c,
{
    if c == 0 {
        Multiset::empty()
    } else {
        copies(x, (c - 1) as nat).insert(x)
    }
}

/// The sum of a sequence of counters.
pub open spec fn sum(s: Seq<u64>) -> nat
    decreases s.len(),
{
    if s.len() == 0 {
        0
    } else {
        sum(s.drop_last()) + s.last() as nat
    }
}

/// The tuples of a table, each as the sequence of its coordinates.
pub open spec fn rows(tuples: Seq<Vec<u64>>) -> Seq<Seq<u64>> {
    Seq::new(tuples.len(), |i: int| tuples[i]@)
}

/// The multiset that a table of joint counts stands for: `counts[i]` copies of each `rows[i]`.
pub open spec fn joint_tally(rows: Seq<Seq<u64>>, counts: Seq<u64>) -> Multiset<Seq<u64>>
    decreases rows.len(),
{
    if rows.len() == 0 || counts.len() == 0 {
        Multiset::empty()
    } else {
        joint_tally(rows.drop_last(), counts.drop_last()).add(
            copies(rows.last(), counts.last() as nat),
        )
    }
}

/// The sum of the counts of the rows that equal `t`.
pub open spec fn weight(rows: Seq<Seq<u64>>, counts: Seq<u64>, t: Seq<u64>) -> nat
    decreases rows.len(),
{
    if rows.len() == 0 || counts.len() == 0 {
        0
    } else {
        weight(rows.drop_last(), counts.drop_last(), t) + (if rows.last() == t {
            counts.last() as nat
        } else {
            0
        })
    }
}

/// Whether no two rows are equal.
pub open spec fn distinct_rows(rows: Seq<Seq<u64>>) -> bool {
    forall|i: int, j: int| 0 <= i < j < rows.len() ==> rows[i] != rows[j]
}

/// `joint_tally` holds `t` as often as the rows that equal `t` count.
pub proof fn lemma_joint_tally_count(rows: Seq<Seq<u64>>, counts: Seq<u64>, t: Seq<u64>)
    ensures
        joint_tally(rows, counts).count(t) == weight(rows, counts, t),
    decreases rows.len(),
{
    broadcast use vstd::multiset::group_multiset_axioms;

    if rows.len() > 0 && counts.len() > 0 {
        lemma_joint_tally_count(rows.drop_last(), counts.drop_last(), t);
        lemma_copies(rows.last(), counts.last() as nat);
    }
}

/// The size of `joint_tally` is the sum of the counts.
pub proof fn lemma_joint_tally_len(rows: Seq<Seq<u64>>, counts: Seq<u64>)
    requires
        rows.len() == counts.len(),
    ensures
        joint_tally(rows, counts).len() == sum(counts),
    decreases rows.len(),
{
    broadcast use vstd::multiset::group_multiset_axioms;

    if rows.len() > 0 {
        lemma_joint_tally_len(rows.drop_last(), counts.drop_last());
        lemma_copies(rows.last(), counts.last() as nat);
    }
}

/// A tuple that is no row weighs nothing.
pub proof fn lemma_weight_absent(rows: Seq<Seq<u64>>, counts: Seq<u64>, t: Seq<u64>)
    requires
        forall|i: int| 0 <= i < rows.len() ==> rows[i] != t,
    ensures
        weight(rows, counts, t) == 0,
    decreases rows.len(),
{
    if rows.len() > 0 && counts.len() > 0 {
        assert(rows[rows.len() - 1] != t);
        lemma_weight_absent(rows.drop_last(), counts.drop_last(), t);
    }
}

/// Among distinct rows, a row weighs its own count.
pub proof fn lemma_weight_of_row(rows: Seq<Seq<u64>>, counts: Seq<u64>, i: int)
    requires
        rows.len() == counts.len(),
        distinct_rows(rows),
        0 <= i < rows.len(),
    ensures
        weight(rows, counts, rows[i]) == counts[i],
    decreases rows.len(),
{
    let last = rows.len() - 1;
    if i == last {
        assert forall|h: int| 0 <= h < rows.drop_last().len() implies rows.drop_last()[h]
            != rows[i] by {
            assert(rows[h] != rows[last]);
        }
        lemma_weight_absent(rows.drop_last(), counts.drop_last(), rows[i]);
    } else {
        assert(rows[i] != rows[last]);
        assert forall|a: int, b: int| 0 <= a < b < rows.drop_last().len() implies rows.drop_last()[a]
            != rows.drop_last()[b] by {
            assert(rows[a] != rows[b]);
        }
        lemma_weight_of_row(rows.drop_last(), counts.drop_last(), i);
    }
}

/// Changing the count of row `i` changes the weight of that row's tuple alike, and no other.
pub proof fn lemma_weight_update(
    rows: Seq<Seq<u64>>,
    counts: Seq<u64>,
    i: int,
    v: u64,
    t: Seq<u64>,
)
    requires
        rows.len() == counts.len(),
        0 <= i < rows.len(),
    ensures
        weight(rows, counts.update(i, v), t) == (if rows[i] == t {
            weight(rows, counts, t) - counts[i] + v
        } else {
            weight(rows, counts, t) as int
        }),
    decreases rows.len(),
{
    let last = rows.len() - 1;
    if i < last {
        lemma_weight_update(rows.drop_last(), counts.drop_last(), i, v, t);
        assert(counts.update(i, v).drop_last() =~= counts.drop_last().update(i, v));
    } else {
        assert(counts.update(i, v).drop_last() =~= counts.drop_last());
    }
}

/// `copies(x, c)` has `c` elements, all of them `x`.
pub proof fn lemma_copies<T>(x: T, c: nat)
    ensures
        copies(x, c).len() == c,
        copies(x, c).count(x) == c,
        forall|y: T| y != x ==> copies(x, c).count(y) == 0,
    decreases c,
{
    broadcast use vstd::multiset::group_multiset_axioms;

    if c > 0 {
        lemma_copies(x, (c - 1) as nat);
    }
}

/// No counter exceeds the sum of all.
pub proof fn lemma_sum_bounds(s: Seq<u64>, i: int)
    requires
        0 <= i < s.len(),
    ensures
        s[i] <= sum(s),
    decreases s.len(),
{
    if i < s.len() - 1 {
        lemma_sum_bounds(s.drop_last(), i);
    }
}

/// Raising one counter by `d` raises the sum by `d`.
pub proof fn lemma_sum_update(s: Seq<u64>, i: int, v: u64)
    requires
        0 <= i < s.len(),
    ensures
        sum(s.update(i, v)) == sum(s) - s[i] + v,
    decreases s.len(),
{
    if i < s.len() - 1 {
        lemma_sum_update(s.drop_last(), i, v);
        assert(s.update(i, v).drop_last() =~= s.drop_last().update(i, v));
    } else {
        assert(s.update(i, v).drop_last() =~= s.drop_last());
    }
}

/// A sequence of zeros sums to zero.
pub proof fn lemma_sum_zeros(s: Seq<u64>)
    requires
        forall|i: int| 0 <= i < s.len() ==> s[i] == 0,
    ensures
        sum(s) == 0,
    decreases s.len(),
{
    if s.len() > 0 {
        lemma_sum_zeros(s.drop_last());
    }
}

/// The sum over a prefix grows by the element that extends it.
pub proof fn lemma_sum_take(s: Seq<u64>, n: int)
    requires
        0 <= n < s.len(),
    ensures
        sum(s.take(n + 1)) == sum(s.take(n)) + s[n],
{
    assert(s.take(n + 1).drop_last() =~= s.take(n));
}

/// What an accumulator holds after the outcomes `trials` were recorded one by one into
/// an accumulator that held `start`.
pub open spec fn recorded_after<T>(start: Multiset<T>, trials: Seq<T>) -> Multiset<T>
    decreases trials.len(),
{
    if trials.len() == 0 {
        start
    } else {
        recorded_after(start, trials.drop_last()).insert(trials.last())
    }
}

/// Recording into an accumulator adds the recorded outcomes to what it held.
pub proof fn lemma_recorded_after<T>(start: Multiset<T>, trials: Seq<T>)
    ensures
        recorded_after(start, trials) == start.add(trials.to_multiset()),
        recorded_after(start, trials).len() == start.len() + trials.len(),
    decreases trials.len(),
{
    broadcast use vstd::multiset::group_multiset_axioms;

    trials.to_multiset_ensures();
    if trials.len() == 0 {
        assert(trials.to_multiset().len() == 0);
        assert(start.add(trials.to_multiset()) =~= start);
    } else {
        let shorter = trials.drop_last();
        lemma_recorded_after(start, shorter);
        shorter.to_multiset_ensures();
        assert(shorter.push(trials.last()) =~= trials);
        assert(start.add(shorter.to_multiset()).insert(trials.last()) =~= start.add(
            trials.to_multiset(),
        ));
    }
}

/// Merging is commutative: either accumulator may be merged into the other.
pub proof fn lemma_merge_commutative<T>(a: Multiset<T>, b: Multiset<T>)
    ensures
        a.add(b) == b.add(a),
{
    broadcast use vstd::multiset::group_multiset_axioms;

    assert(a.add(b) =~= b.add(a));
}

/// Merging is associative: batches may be merged in any grouping.
pub proof fn lemma_merge_associative<T>(a: Multiset<T>, b: Multiset<T>, c: Multiset<T>)
    ensures
        a.add(b).add(c) == a.add(b.add(c)),
{
    broadcast use vstd::multiset::group_multiset_axioms;

    assert(a.add(b).add(c) =~= a.add(b.add(c)));
}

/// Merging an empty accumulator changes nothing.
pub proof fn lemma_merge_empty<T>(a: Multiset<T>)
    ensures
        a.add(Multiset::empty()) == a,
        Multiset::<T>::empty().add(a) == a,
{
    broadcast use vstd::multiset::group_multiset_axioms;

    assert(a.add(Multiset::empty()) =~= a);
    assert(Multiset::<T>::empty().add(a) =~= a);
}

/// Merging the accumulators of two batches gives what recording all their trials into
/// one accumulator gives.
pub proof fn lemma_merge_of_batches<T>(first: Seq<T>, second: Seq<T>)
    ensures
        recorded_after(Multiset::empty(), first).add(recorded_after(Multiset::empty(), second))
            == recorded_after(Multiset::empty(), first + second),
{
    broadcast use vstd::multiset::group_multiset_axioms;

    lemma_recorded_after(Multiset::<T>::empty(), first);
    lemma_recorded_after(Multiset::<T>::empty(), second);
    lemma_recorded_after(Multiset::<T>::empty(), first + second);
    vstd::seq_lib::lemma_multiset_commutative(first, second);
    lemma_merge_empty(first.to_multiset());
    lemma_merge_empty(second.to_multiset());
    lemma_merge_empty((first + second).to_multiset());
}

/// The order in which trials are recorded does not matter: two runs over the same trials,
/// in whatever order, leave equal accumulators.
pub proof fn lemma_order_of_trials<T>(start: Multiset<T>, trials: Seq<T>, reordered: Seq<T>)
    requires
        trials.to_multiset() == reordered.to_multiset(),
    ensures
        recorded_after(start, trials) == recorded_after(start, reordered),
{
    lemma_recorded_after(start, trials);
    lemma_recorded_after(start, reordered);
}

/// What an accumulator holds after the batches `batches` were merged into it one by
/// one, in order, when it held `start` before.
pub open spec fn merged_after<T>(start: Multiset<T>, batches: Seq<Multiset<T>>) -> Multiset<T>
    decreases batches.len(),
{
    if batches.len() == 0 {
        start
    } else {
        merged_after(start, batches.drop_last()).add(batches.last())
    }
}

/// The trials of the batches `batches`, batch after batch.
pub open spec fn trials_of<T>(batches: Seq<Seq<T>>) -> Seq<T>
    decreases batches.len(),
{
    if batches.len() == 0 {
        Seq::empty()
    } else {
        trials_of(batches.drop_last()) + batches.last()
    }
}

/// The accumulators of the batches `batches`: each holds the trials of its batch,
/// recorded into an empty accumulator.
pub open spec fn accumulators_of<T>(batches: Seq<Seq<T>>) -> Seq<Multiset<T>> {
    Seq::new(batches.len(), |i: int| recorded_after(Multiset::empty(), batches[i]))
}

/// Merging one batch more adds that batch.
pub proof fn lemma_merged_after_push<T>(
    start: Multiset<T>,
    batches: Seq<Multiset<T>>,
    batch: Multiset<T>,
)
    ensures
        merged_after(start, batches.push(batch)) == merged_after(start, batches).add(batch),
{
    assert(batches.push(batch).drop_last() =~= batches);
}

/// The merge of all batches is the merge of all but one, and that one.
pub proof fn lemma_merged_after_remove<T>(start: Multiset<T>, batches: Seq<Multiset<T>>, k: int)
    requires
        0 <= k < batches.len(),
    ensures
        merged_after(start, batches) == merged_after(start, batches.remove(k)).add(batches[k]),
    decreases batches.len(),
{
    broadcast use vstd::multiset::group_multiset_axioms;

    let last = batches.len() - 1;
    if k == last {
        assert(batches.remove(k) =~= batches.drop_last());
    } else {
        let shorter = batches.drop_last();
        lemma_merged_after_remove(start, shorter, k);
        assert(batches.remove(k).drop_last() =~= shorter.remove(k));
        assert(batches.remove(k).last() == batches.last());
        assert(merged_after(start, shorter.remove(k)).add(batches[k]).add(batches.last())
            =~= merged_after(start, shorter.remove(k)).add(batches.last()).add(batches[k]));
    }
}

/// Batches may arrive in any order: two sequences of the same batches, each as often
/// in the one as in the other, leave equal accumulators.
pub proof fn lemma_merge_in_any_order<T>(
    start: Multiset<T>,
    batches: Seq<Multiset<T>>,
    reordered: Seq<Multiset<T>>,
)
    requires
        batches.to_multiset() == reordered.to_multiset(),
    ensures
        merged_after(start, batches) == merged_after(start, reordered),
    decreases batches.len(),
{
    broadcast use vstd::multiset::group_multiset_axioms;

    batches.to_multiset_ensures();
    reordered.to_multiset_ensures();
    if batches.len() == 0 {
        assert(reordered.len() == 0);
    } else {
        let last = batches.len() - 1;
        let batch = batches[last];
        assert(batches.contains(batch));
        assert(reordered.to_multiset().count(batch) > 0);
        assert(reordered.contains(batch));
        let k = choose|k: int| 0 <= k < reordered.len() && reordered[k] == batch;
        assert(batches.remove(last) =~= batches.drop_last());
        assert(batches.drop_last().to_multiset() =~= reordered.remove(k).to_multiset());
        lemma_merge_in_any_order(start, batches.drop_last(), reordered.remove(k));
        lemma_merged_after_remove(start, reordered, k);
    }
}

/// However a run of trials is cut into batches, merging the accumulators of the batches
/// into an empty accumulator gives what recording all the trials into one gives.
pub proof fn lemma_merge_of_partition<T>(batches: Seq<Seq<T>>)
    ensures
        merged_after(Multiset::empty(), accumulators_of(batches)) == recorded_after(
            Multiset::empty(),
            trials_of(batches),
        ),
        merged_after(Multiset::empty(), accumulators_of(batches)).len() == trials_of(
            batches,
        ).len(),
    decreases batches.len(),
{
    lemma_recorded_after(Multiset::<T>::empty(), trials_of(batches));
    if batches.len() == 0 {
        assert(accumulators_of(batches) =~= Seq::<Multiset<T>>::empty());
    } else {
        let shorter = batches.drop_last();
        lemma_merge_of_partition(shorter);
        assert(accumulators_of(batches).drop_last() =~= accumulators_of(shorter));
        assert(accumulators_of(batches).last() == recorded_after(
            Multiset::empty(),
            batches.last(),
        ));
        lemma_merge_of_batches(trials_of(shorter), batches.last());
    }
}

/// The batches of one run of trials may be merged in any order: the result is what
/// recording all the trials into one accumulator gives.
pub proof fn lemma_merge_of_partition_in_any_order<T>(
    batches: Seq<Seq<T>>,
    arrived: Seq<Multiset<T>>,
)
    requires
        arrived.to_multiset() == accumulators_of(batches).to_multiset(),
    ensures
        merged_after(Multiset::empty(), arrived) == recorded_after(
            Multiset::empty(),
            trials_of(batches),
        ),
{
    lemma_merge_in_any_order(Multiset::<T>::empty(), arrived, accumulators_of(batches));
    lemma_merge_of_partition(batches);
}

} // verus!
