use flip_hash_benchmarks::acc::{Accumulator, AccumulatorError, NumCooccurrences, NumOccurrences};
use flip_hash_benchmarks::domain::{copy_of, equal_sequences, Domain};

fn occurrences(num_buckets: usize, trials: &[u64]) -> NumOccurrences {
    let mut acc = NumOccurrences::new(num_buckets);
    for &bucket in trials {
        assert_eq!(acc.record(bucket), Ok(()));
    }
    acc
}

fn square(side: u64) -> Domain {
    Domain::new(vec![0, 0], vec![side - 1, side - 1]).unwrap()
}

fn cooccurrences(side: u64, trials: &[[u64; 2]]) -> NumCooccurrences {
    let mut acc = NumCooccurrences::new(square(side));
    for tuple in trials {
        assert_eq!(acc.record(tuple.to_vec()), Ok(()));
    }
    acc
}

fn sorted_entries(acc: &NumCooccurrences) -> Vec<(Vec<u64>, u64)> {
    let (tuples, counts) = acc.entries();
    let mut entries: Vec<(Vec<u64>, u64)> =
        tuples.iter().cloned().zip(counts.iter().copied()).collect();
    entries.sort();
    entries
}

#[test]
fn a_new_occurrence_table_is_all_zero() {
    let acc = NumOccurrences::new(5);
    assert_eq!(acc.counts(), &vec![0, 0, 0, 0, 0]);
    assert_eq!(acc.num_iterations(), 0);
    let none = NumOccurrences::new(0);
    assert_eq!(none.counts().len(), 0);
    assert_eq!(none.num_iterations(), 0);
}

#[test]
fn record_increments_the_counter_of_the_bucket() {
    let acc = occurrences(4, &[1, 3, 1, 0, 1]);
    assert_eq!(acc.counts(), &vec![1, 3, 0, 1]);
    assert_eq!(acc.num_iterations(), 5);
}

#[test]
fn record_refuses_a_bucket_beyond_the_table_and_changes_nothing() {
    let mut acc = occurrences(4, &[2, 2]);
    assert_eq!(acc.record(4), Err(AccumulatorError::OutOfRange));
    assert_eq!(acc.record(u64::MAX), Err(AccumulatorError::OutOfRange));
    assert_eq!(acc.counts(), &vec![0, 0, 2, 0]);
    assert_eq!(acc.num_iterations(), 2);
    let mut none = NumOccurrences::new(0);
    assert_eq!(none.record(0), Err(AccumulatorError::OutOfRange));
}

#[test]
fn occurrence_counts_add_up_to_the_number_of_trials() {
    let mut acc = NumOccurrences::new(7);
    let mut state = 12345_u64;
    for step in 0..1000_u64 {
        state = state.wrapping_mul(6364136223846793005).wrapping_add(1442695040888963407);
        assert_eq!(acc.record((state >> 33) % 7), Ok(()));
        assert_eq!(acc.counts().iter().sum::<u64>(), acc.num_iterations());
        assert_eq!(acc.num_iterations(), step + 1);
    }
    let other = occurrences(7, &[0, 6, 6]);
    assert_eq!(acc.merge(&other), Ok(()));
    assert_eq!(acc.counts().iter().sum::<u64>(), acc.num_iterations());
    assert_eq!(acc.num_iterations(), 1003);
}

#[test]
fn merging_occurrence_tables_adds_counter_by_counter() {
    let mut left = occurrences(3, &[0, 0, 2]);
    let right = occurrences(3, &[1, 2, 2, 2]);
    assert_eq!(left.merge(&right), Ok(()));
    assert_eq!(left.counts(), &vec![2, 1, 4]);
    assert_eq!(left.num_iterations(), 7);
    assert_eq!(right.counts(), &vec![0, 1, 3]);
}

#[test]
fn merging_occurrence_tables_of_different_sizes_is_refused() {
    let mut left = occurrences(3, &[0, 1]);
    let right = occurrences(4, &[3]);
    assert_eq!(left.merge(&right), Err(AccumulatorError::Mismatch));
    assert_eq!(left.counts(), &vec![1, 1, 0]);
    assert_eq!(left.num_iterations(), 2);
}

#[test]
fn merging_batches_in_any_order_equals_recording_all_trials() {
    let trials: Vec<u64> = (0..600_u64).map(|i| (i * i + 3 * i) % 5).collect();
    let whole = occurrences(5, &trials);
    let batches = [&trials[..100], &trials[100..101], &trials[101..450], &trials[450..]];
    let orders: [[usize; 4]; 4] = [[0, 1, 2, 3], [3, 2, 1, 0], [2, 0, 3, 1], [1, 3, 0, 2]];
    for order in orders {
        let mut merged = NumOccurrences::new(5);
        for &b in &order {
            assert_eq!(merged.merge(&occurrences(5, batches[b])), Ok(()));
        }
        assert_eq!(merged.counts(), whole.counts());
        assert_eq!(merged.num_iterations(), whole.num_iterations());
    }
    // Grouping does not matter either: (a + b) + (c + d) against ((a + b) + c) + d.
    let mut ab = occurrences(5, batches[0]);
    assert_eq!(ab.merge(&occurrences(5, batches[1])), Ok(()));
    let mut cd = occurrences(5, batches[2]);
    assert_eq!(cd.merge(&occurrences(5, batches[3])), Ok(()));
    assert_eq!(ab.merge(&cd), Ok(()));
    assert_eq!(ab.counts(), whole.counts());
}

#[test]
fn merging_an_empty_table_changes_nothing() {
    let mut acc = occurrences(3, &[2, 2, 1]);
    assert_eq!(acc.merge(&NumOccurrences::new(3)), Ok(()));
    assert_eq!(acc.counts(), &vec![0, 1, 2]);
    let mut empty = NumOccurrences::new(3);
    assert_eq!(empty.merge(&acc), Ok(()));
    assert_eq!(empty.counts(), acc.counts());
}

#[test]
fn a_domain_needs_matching_ordered_bounds() {
    assert!(matches!(
        Domain::new(vec![0, 0], vec![1]),
        Err(AccumulatorError::InvalidDomain)
    ));
    assert!(matches!(
        Domain::new(vec![0, 5], vec![3, 4]),
        Err(AccumulatorError::InvalidDomain)
    ));
    assert!(Domain::new(vec![0, 4], vec![3, 4]).is_ok());
    assert!(Domain::new(vec![], vec![]).is_ok());
}

#[test]
fn a_domain_with_too_many_tuples_is_refused() {
    let full = u64::MAX;
    assert!(Domain::new(vec![0, 0], vec![full, full - 1]).is_ok());
    assert!(matches!(
        Domain::new(vec![0, 0], vec![full, full]),
        Err(AccumulatorError::DomainTooLarge)
    ));
    assert!(matches!(
        Domain::new(vec![0, 0, 0], vec![full, full, full]),
        Err(AccumulatorError::DomainTooLarge)
    ));
}

#[test]
fn a_domain_numbers_its_tuples_in_mixed_radix() {
    let domain = Domain::new(vec![0, 4, 10], vec![3, 7, 12]).unwrap();
    assert_eq!(domain.num_coordinates(), 3);
    assert_eq!(domain.lower_bounds(), &vec![0, 4, 10]);
    assert_eq!(domain.upper_bounds(), &vec![3, 7, 12]);
    assert_eq!(domain.encode(&vec![0, 4, 10]), Some(0));
    assert_eq!(domain.encode(&vec![3, 4, 10]), Some(3));
    assert_eq!(domain.encode(&vec![0, 5, 10]), Some(4));
    assert_eq!(domain.encode(&vec![0, 4, 11]), Some(16));
    assert_eq!(domain.encode(&vec![3, 7, 12]), Some(3 + 4 * 3 + 16 * 2));
    assert_eq!(domain.encode(&vec![4, 4, 10]), None);
    assert_eq!(domain.encode(&vec![0, 3, 10]), None);
    assert_eq!(domain.encode(&vec![0, 4, 13]), None);
    assert_eq!(domain.encode(&vec![0, 4]), None);
    assert_eq!(domain.encode(&vec![0, 4, 10, 0]), None);
    let mut seen = std::collections::HashSet::new();
    for a in 0..=3 {
        for b in 4..=7 {
            for c in 10..=12 {
                let code = domain.encode(&vec![a, b, c]).unwrap();
                assert!(code < 48);
                assert!(seen.insert(code));
            }
        }
    }
    assert_eq!(seen.len(), 48);
}

#[test]
fn a_domain_of_full_width_numbers_its_extreme_tuples() {
    let full = u64::MAX;
    let domain = Domain::new(vec![0, 0], vec![full, full - 1]).unwrap();
    assert_eq!(domain.encode(&vec![full, 0]), Some(full as u128));
    assert_eq!(
        domain.encode(&vec![full, full - 1]),
        Some(full as u128 + (1_u128 << 64) * (full as u128 - 1))
    );
    assert_eq!(domain.encode(&vec![0, full]), None);
}

#[test]
fn domains_compare_by_their_bounds() {
    let a = Domain::new(vec![0, 4], vec![3, 7]).unwrap();
    let b = Domain::new(vec![0, 4], vec![3, 7]).unwrap();
    let c = Domain::new(vec![0, 4], vec![3, 8]).unwrap();
    let d = Domain::new(vec![0], vec![3]).unwrap();
    assert!(a.same_as(&b));
    assert!(!a.same_as(&c));
    assert!(!a.same_as(&d));
    assert!(equal_sequences(&vec![1, 2, 3], &vec![1, 2, 3]));
    assert!(!equal_sequences(&vec![1, 2, 3], &vec![1, 2, 4]));
    assert!(!equal_sequences(&vec![1, 2, 3], &vec![1, 2]));
    assert!(equal_sequences(&vec![], &vec![]));
    assert_eq!(copy_of(&vec![9, 8, 7]), vec![9, 8, 7]);
    assert_eq!(copy_of(&vec![]), Vec::<u64>::new());
}

#[test]
fn a_new_cooccurrence_table_lists_nothing() {
    let acc = NumCooccurrences::new(square(3));
    let (tuples, counts) = acc.entries();
    assert!(tuples.is_empty());
    assert!(counts.is_empty());
    assert_eq!(acc.num_iterations(), 0);
    assert!(acc.valid_tuples().same_as(&square(3)));
}

#[test]
fn record_inserts_a_tuple_with_count_one_and_then_increments() {
    let acc = cooccurrences(3, &[[1, 2], [0, 0], [1, 2], [2, 1], [1, 2]]);
    let (tuples, counts) = acc.entries();
    assert_eq!(tuples, &vec![vec![1, 2], vec![0, 0], vec![2, 1]]);
    assert_eq!(counts, &vec![3, 1, 1]);
    assert_eq!(acc.num_iterations(), 5);
}

#[test]
fn record_refuses_a_tuple_outside_the_domain_and_changes_nothing() {
    let mut acc = cooccurrences(3, &[[1, 2]]);
    assert_eq!(acc.record(vec![3, 0]), Err(AccumulatorError::OutOfRange));
    assert_eq!(acc.record(vec![0, 3]), Err(AccumulatorError::OutOfRange));
    assert_eq!(acc.record(vec![0]), Err(AccumulatorError::OutOfRange));
    assert_eq!(acc.record(vec![0, 0, 0]), Err(AccumulatorError::OutOfRange));
    assert_eq!(sorted_entries(&acc), vec![(vec![1, 2], 1)]);
    assert_eq!(acc.num_iterations(), 1);
}

#[test]
fn cooccurrence_counts_add_up_to_the_number_of_trials() {
    let mut acc = NumCooccurrences::new(square(4));
    let mut state = 777_u64;
    for step in 0..500_u64 {
        state = state.wrapping_mul(6364136223846793005).wrapping_add(1442695040888963407);
        let tuple = vec![(state >> 40) % 4, (state >> 20) % 4];
        assert_eq!(acc.record(tuple), Ok(()));
        assert_eq!(acc.entries().1.iter().sum::<u64>(), acc.num_iterations());
        assert_eq!(acc.num_iterations(), step + 1);
    }
    let (tuples, counts) = acc.entries();
    assert!(counts.iter().all(|&c| c >= 1));
    let distinct: std::collections::HashSet<&Vec<u64>> = tuples.iter().collect();
    assert_eq!(distinct.len(), tuples.len());
}

#[test]
fn merging_cooccurrence_tables_adds_tuple_by_tuple() {
    let mut left = cooccurrences(3, &[[0, 1], [0, 1], [2, 2]]);
    let right = cooccurrences(3, &[[2, 2], [1, 0], [2, 2], [0, 1]]);
    assert_eq!(left.merge(&right), Ok(()));
    assert_eq!(
        sorted_entries(&left),
        vec![(vec![0, 1], 3), (vec![1, 0], 1), (vec![2, 2], 3)]
    );
    assert_eq!(left.num_iterations(), 7);
    assert_eq!(sorted_entries(&right), vec![(vec![0, 1], 1), (vec![1, 0], 1), (vec![2, 2], 2)]);
}

#[test]
fn merging_cooccurrence_tables_of_different_domains_is_refused() {
    let mut left = cooccurrences(3, &[[0, 1]]);
    let right = cooccurrences(4, &[[3, 3]]);
    assert_eq!(left.merge(&right), Err(AccumulatorError::Mismatch));
    assert_eq!(sorted_entries(&left), vec![(vec![0, 1], 1)]);
    assert_eq!(left.num_iterations(), 1);
}

#[test]
fn merging_cooccurrence_batches_in_any_order_equals_recording_all_trials() {
    let trials: Vec<[u64; 2]> = (0..400_u64).map(|i| [(i * 7) % 5, (i * i) % 5]).collect();
    let whole = cooccurrences(5, &trials);
    let batches = [&trials[..50], &trials[50..320], &trials[320..]];
    let orders: [[usize; 3]; 6] =
        [[0, 1, 2], [0, 2, 1], [1, 0, 2], [1, 2, 0], [2, 0, 1], [2, 1, 0]];
    for order in orders {
        let mut merged = NumCooccurrences::new(square(5));
        for &b in &order {
            assert_eq!(merged.merge(&cooccurrences(5, batches[b])), Ok(()));
        }
        assert_eq!(sorted_entries(&merged), sorted_entries(&whole));
        assert_eq!(merged.num_iterations(), whole.num_iterations());
    }
}

#[test]
fn a_table_can_be_made_from_its_counters() {
    let acc = NumOccurrences::from_counts(vec![3, 0, 4]).unwrap();
    assert_eq!(acc.counts(), &vec![3, 0, 4]);
    assert_eq!(acc.num_iterations(), 7);
    let same = occurrences(3, &[0, 2, 2, 0, 2, 0, 2]);
    assert_eq!(acc.counts(), same.counts());
    let empty = NumOccurrences::from_counts(vec![]).unwrap();
    assert_eq!(empty.num_iterations(), 0);
    let full = NumOccurrences::from_counts(vec![u64::MAX - 1, 1]).unwrap();
    assert_eq!(full.num_iterations(), u64::MAX);
    assert_eq!(
        NumOccurrences::from_counts(vec![u64::MAX, 1]).map(|a| a.num_iterations()),
        Err(AccumulatorError::Overflow)
    );
    assert_eq!(
        NumOccurrences::from_counts(vec![u64::MAX, u64::MAX, u64::MAX]).map(|a| a.num_iterations()),
        Err(AccumulatorError::Overflow)
    );
}

#[test]
fn a_full_table_takes_no_further_trial() {
    let mut acc = NumOccurrences::from_counts(vec![u64::MAX - 1, 0]).unwrap();
    assert_eq!(acc.record(1), Ok(()));
    assert_eq!(acc.num_iterations(), u64::MAX);
    assert_eq!(acc.record(1), Err(AccumulatorError::Overflow));
    assert_eq!(acc.record(0), Err(AccumulatorError::Overflow));
    // Out of range comes first.
    assert_eq!(acc.record(2), Err(AccumulatorError::OutOfRange));
    assert_eq!(acc.counts(), &vec![u64::MAX - 1, 1]);
    assert_eq!(acc.num_iterations(), u64::MAX);
}

#[test]
fn a_merge_that_would_overflow_changes_nothing() {
    let mut left = NumOccurrences::from_counts(vec![u64::MAX - 5, 2]).unwrap();
    let right = occurrences(2, &[0, 1, 1, 1]);
    assert_eq!(left.merge(&right), Err(AccumulatorError::Overflow));
    assert_eq!(left.counts(), &vec![u64::MAX - 5, 2]);
    assert_eq!(left.num_iterations(), u64::MAX - 3);
    let fits = occurrences(2, &[0, 1, 1]);
    assert_eq!(left.merge(&fits), Ok(()));
    assert_eq!(left.counts(), &vec![u64::MAX - 4, 4]);
    assert_eq!(left.num_iterations(), u64::MAX);
    // A mismatch comes first.
    let other = occurrences(3, &[0]);
    assert_eq!(left.merge(&other), Err(AccumulatorError::Mismatch));
}
