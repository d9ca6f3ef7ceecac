use flip_hash_benchmarks::acc::{Accumulator, AccumulatorError, NumCooccurrences, NumOccurrences};
use flip_hash_benchmarks::algo::{Algorithm, JumpHash};
use flip_hash_benchmarks::control::{Constant, FirstByte, SeedBit};
use flip_hash_benchmarks::exp::{
    CollisionSummary, Collisions, ExperimentError, IndependenceAcrossRanges,
    IndependenceAcrossSeeds, Regularity,
};
use flip_hash_benchmarks::stats::{Independence, StatsError};
use statrs::distribution::{ChiSquared, ContinuousCDF};
use std::ops::RangeToInclusive;

fn p_value(statistic: f64, degrees_of_freedom: f64) -> f64 {
    1.0 - ChiSquared::new(degrees_of_freedom).unwrap().cdf(statistic)
}

fn independence_p_value(table: &Independence) -> f64 {
    let n = table.num_samples as f64;
    let statistic: f64 = table
        .counts
        .iter()
        .enumerate()
        .map(|(i, &o)| {
            let joint: f64 = table.marginals.iter().map(|column| column[i] as f64 / n).product();
            let e = joint * n;
            (o as f64 - e).powi(2) / e
        })
        .sum();
    p_value(statistic, table.degrees_of_freedom as f64)
}

fn ranges(ends: &[u64]) -> Vec<RangeToInclusive<u64>> {
    ends.iter().map(|&end| ..=end).collect()
}

fn sorted_entries(acc: &NumCooccurrences) -> Vec<(Vec<u64>, u64)> {
    let (tuples, counts) = acc.entries();
    let mut entries: Vec<(Vec<u64>, u64)> =
        tuples.iter().cloned().zip(counts.iter().copied()).collect();
    entries.sort();
    entries
}

#[test]
fn regularity_of_a_uniform_algorithm() {
    let experiment = Regularity::new(..=3, 1);
    let mut acc = experiment.new_accumulator();
    assert_eq!(acc.counts(), &vec![0, 0, 0, 0]);
    for i in 0..400_u32 {
        let payload = [(i % 4) as u8];
        assert_eq!(experiment.trial(&mut acc, &FirstByte, &payload), Ok(()));
    }
    assert_eq!(acc.counts(), &vec![100, 100, 100, 100]);
    assert_eq!(acc.num_iterations(), 400);
    let summary = experiment.summary(&acc).unwrap();
    let l1 = summary.absolute_deviation as f64 / summary.scale as f64;
    let l2 = (summary.squared_deviation as f64).sqrt() / summary.scale as f64;
    assert_eq!(l1, 0.0);
    assert_eq!(l2, 0.0);
    let p = p_value(
        summary.squared_deviation as f64 / summary.scale as f64,
        summary.degrees_of_freedom() as f64,
    );
    assert!(p > 0.9 && p <= 1.0, "p-value {p}");
}

#[test]
fn regularity_of_a_constant_algorithm() {
    let experiment = Regularity::new(..=3, 1);
    let mut acc = experiment.new_accumulator();
    for i in 0..400_u32 {
        let payload = [(i % 4) as u8];
        assert_eq!(experiment.trial(&mut acc, &Constant, &payload), Ok(()));
    }
    assert_eq!(acc.counts(), &vec![400, 0, 0, 0]);
    let summary = experiment.summary(&acc).unwrap();
    // sum |p_i - 1/k| = |1 - 1/4| + 3 * |0 - 1/4|: (k - 1)/k on the bucket that holds
    // everything and as much again on the buckets that hold nothing.
    let l1 = summary.absolute_deviation as f64 / summary.scale as f64;
    assert_eq!(l1, 2.0 * 0.75);
    let on_the_full_bucket = (4 * 400 - 400) as f64 / summary.scale as f64;
    assert_eq!(on_the_full_bucket, 0.75);
    let l2 = (summary.squared_deviation as f64).sqrt() / summary.scale as f64;
    assert!((l2 - 0.75_f64.sqrt()).abs() < 1e-12);
    let p = p_value(
        summary.squared_deviation as f64 / summary.scale as f64,
        summary.degrees_of_freedom() as f64,
    );
    assert!((0.0..1e-9).contains(&p), "p-value {p}");
}

#[test]
fn collisions_of_four_trials_two_and_two() {
    let experiment = Collisions::new(..=1, 1);
    let mut acc = experiment.new_accumulator();
    for byte in [0_u8, 1, 1, 0] {
        assert_eq!(experiment.trial(&mut acc, &FirstByte, &[byte]), Ok(()));
    }
    let summary = experiment.summary(&acc);
    assert_eq!(
        summary,
        CollisionSummary { num_keys: 4, num_collisions: 2, num_pairs: 6, num_buckets: 2 }
    );
    let c_hat = summary.num_collisions as f64 / summary.num_pairs as f64;
    assert!((c_hat - 2.0 / 6.0).abs() < 1e-15);
    let normalized = c_hat * summary.num_buckets as f64;
    assert!((normalized - 0.667).abs() < 1e-3);
}

#[test]
fn independence_across_seeds_of_a_key_blind_algorithm_has_no_freedom() {
    let experiment = IndependenceAcrossSeeds::with_seeds(..=1, vec![6, 9], 8).unwrap();
    let mut acc = experiment.new_accumulator().unwrap();
    for i in 0..100_u8 {
        let payload = [i; 8];
        assert_eq!(experiment.hashes(&SeedBit, &payload), vec![0, 1]);
        assert_eq!(experiment.trial(&mut acc, &SeedBit, &payload), Ok(()));
    }
    assert_eq!(sorted_entries(&acc), vec![(vec![0, 1], 100)]);
    // Both variables are constant: the table admits no test, and asking for the summary
    // all the same would violate its precondition.
    assert_eq!(experiment.check_summary(&acc), Some(StatsError::NoFreedom));
}

#[test]
fn summaries_are_the_same_when_asked_twice() {
    let regularity = Regularity::new(..=4, 1);
    let mut acc = regularity.new_accumulator();
    for i in 0..57_u8 {
        assert_eq!(regularity.trial(&mut acc, &FirstByte, &[i.wrapping_mul(i)]), Ok(()));
    }
    assert_eq!(regularity.summary(&acc), regularity.summary(&acc));
    let collisions = Collisions::new(..=4, 1);
    assert_eq!(collisions.summary(&acc), collisions.summary(&acc));

    let seeds = IndependenceAcrossSeeds::with_seeds(..=2, vec![1, 2], 8).unwrap();
    let mut joint = seeds.new_accumulator().unwrap();
    for i in 0..200_u64 {
        let payload = (i.wrapping_mul(0x9E37_79B9_7F4A_7C15)).to_le_bytes();
        assert_eq!(seeds.trial(&mut joint, &JumpHash, &payload), Ok(()));
    }
    assert_eq!(seeds.check_summary(&joint), None);
    assert_eq!(seeds.check_summary(&joint), None);
    let first = seeds.summary(&joint);
    let second = seeds.summary(&joint);
    assert_eq!(first.num_samples, second.num_samples);
    assert_eq!(first.degrees_of_freedom, second.degrees_of_freedom);
    assert_eq!(first.marginals, second.marginals);
    assert_eq!(first.counts, second.counts);
    assert_eq!(&first.counts, joint.entries().1);
    assert_eq!(independence_p_value(&first), independence_p_value(&second));
}

#[test]
fn a_summary_refines_as_the_accumulator_grows() {
    let experiment = Collisions::new(..=1, 1);
    let mut acc = experiment.new_accumulator();
    let mut last = experiment.summary(&acc);
    assert_eq!(last, CollisionSummary { num_keys: 0, num_collisions: 0, num_pairs: 0, num_buckets: 2 });
    for i in 0..20_u8 {
        assert_eq!(experiment.trial(&mut acc, &FirstByte, &[i / 3]), Ok(()));
        let next = experiment.summary(&acc);
        assert_eq!(next.num_keys, last.num_keys + 1);
        assert!(next.num_collisions >= last.num_collisions);
        assert!(next.num_collisions <= next.num_pairs);
        last = next;
    }
}

#[test]
fn a_table_has_one_counter_for_each_bucket_of_the_range() {
    assert_eq!(Regularity::new(..=0, 8).new_accumulator().counts(), &vec![0]);
    assert_eq!(Regularity::new(..=6, 8).new_accumulator().counts(), &vec![0; 7]);
    assert_eq!(Collisions::new(..=999, 8).new_accumulator().counts().len(), 1000);
    let experiment = Regularity::new(..=u64::MAX, 8);
    assert_eq!(experiment.range().end, u64::MAX);
    assert_eq!(experiment.payload_size(), 8);
}

#[test]
fn a_trial_into_a_table_of_another_range_is_refused() {
    let experiment = Regularity::new(..=9, 1);
    let mut small = NumOccurrences::new(4);
    assert_eq!(experiment.trial(&mut small, &FirstByte, &[7]), Err(AccumulatorError::OutOfRange));
    assert_eq!(experiment.trial(&mut small, &FirstByte, &[13]), Ok(()));
    assert_eq!(small.counts(), &vec![0, 0, 0, 1]);
}

#[test]
fn regularity_accumulates_random_trials() {
    let experiment = Regularity::new(..=7, 8);
    let acc = experiment.accumulate(&JumpHash, 20_000);
    assert_eq!(acc.num_iterations(), 20_000);
    assert_eq!(acc.counts().len(), 8);
    assert_eq!(acc.counts().iter().sum::<u64>(), 20_000);
    let summary = experiment.summary(&acc).unwrap();
    let l1 = summary.absolute_deviation as f64 / summary.scale as f64;
    assert!(l1 < 0.1, "l1 distance {l1}");
    let p = p_value(
        summary.squared_deviation as f64 / summary.scale as f64,
        summary.degrees_of_freedom() as f64,
    );
    assert!((0.0..=1.0).contains(&p));
    assert!(p > 1e-9, "p-value {p}");
}

#[test]
fn a_random_payload_has_the_size_asked_for() {
    // FirstByte reads one byte and JumpHash eight: a shorter payload would not do.
    let one = Regularity::new(..=255, 1);
    let mut acc = one.new_accumulator();
    for _ in 0..100 {
        assert_eq!(one.run(&mut acc, &FirstByte), Ok(()));
    }
    assert_eq!(acc.num_iterations(), 100);
    let eight = Collisions::new(..=255, 8);
    let mut acc = eight.new_accumulator();
    for _ in 0..100 {
        assert_eq!(eight.run(&mut acc, &JumpHash), Ok(()));
    }
    assert_eq!(acc.num_iterations(), 100);
    // The payloads are not all alike: 2000 random first bytes land in many buckets.
    let spread = one.accumulate(&FirstByte, 2000);
    assert!(spread.counts().iter().filter(|&&c| c > 0).count() > 100);
}

#[test]
fn collisions_accumulates_random_trials() {
    let experiment = Collisions::new(..=99, 8);
    let acc = experiment.accumulate(&JumpHash, 5_000);
    let summary = experiment.summary(&acc);
    assert_eq!(summary.num_keys, 5_000);
    assert_eq!(summary.num_pairs, 5_000 * 4_999 / 2);
    assert_eq!(summary.num_buckets, 100);
    let normalized =
        summary.num_collisions as f64 / summary.num_pairs as f64 * summary.num_buckets as f64;
    assert!((normalized - 1.0).abs() < 0.1, "normalized c hat {normalized}");
}

#[test]
fn ranges_must_end_at_different_buckets() {
    let differ = |ends: &[u64]| IndependenceAcrossRanges::ends_differ(&ranges(ends));
    assert!(!differ(&[3, 3]));
    assert!(!differ(&[3, 7, 3]));
    assert!(!differ(&[0, 1, 2, 3, 4, 5, 6, 7, 0]));
    assert!(differ(&[]));
    assert!(differ(&[3]));
    assert!(differ(&[3, 7, 15]));
    assert!(differ(&[7, 3]));
    assert!(differ(&[0, u64::MAX]));
}

#[test]
fn ranges_are_kept_in_the_order_given() {
    let experiment = IndependenceAcrossRanges::new(ranges(&[3, 7, 15]), 8);
    assert_eq!(experiment.ends(), &vec![3, 7, 15]);
    assert_eq!(experiment.payload_size(), 8);
    assert!(experiment.partitions());
    let unordered = IndependenceAcrossRanges::new(ranges(&[3, 9, 7]), 5);
    assert_eq!(unordered.ends(), &vec![3, 9, 7]);
    assert_eq!(unordered.payload_size(), 5);
    assert!(!unordered.partitions());
    assert_eq!(unordered.hashes(&FirstByte, &[14, 0, 0, 0, 0]), vec![2, 4, 6]);
    let none = IndependenceAcrossRanges::new(ranges(&[]), 8);
    assert!(none.ends().is_empty());
    assert!(!none.partitions());
    assert!(IndependenceAcrossRanges::new(ranges(&[7]), 8).partitions());
    assert!(!IndependenceAcrossRanges::new(ranges(&[7, 3]), 8).partitions());
    assert!(IndependenceAcrossRanges::new(ranges(&[0, u64::MAX]), 8).partitions());
}

#[test]
fn the_tuples_across_ranges_take_one_bucket_from_each_sub_range() {
    let experiment = IndependenceAcrossRanges::new(ranges(&[3, 7, 15]), 8);
    let acc = experiment.new_accumulator().unwrap();
    assert_eq!(acc.valid_tuples().lower_bounds(), &vec![0, 4, 8]);
    assert_eq!(acc.valid_tuples().upper_bounds(), &vec![3, 7, 15]);
    assert_eq!(acc.num_iterations(), 0);
    let huge = IndependenceAcrossRanges::new(ranges(&[u64::MAX - 1, u64::MAX]), 8);
    assert!(huge.new_accumulator().is_ok());
    let too_large =
        IndependenceAcrossRanges::new(ranges(&[1 << 62, 1 << 63, u64::MAX]), 8);
    assert_eq!(
        too_large.new_accumulator().map(|a| a.num_iterations()),
        Err(ExperimentError::DomainTooLarge)
    );
}

#[test]
fn a_tuple_with_equal_buckets_is_rejected_and_never_recorded() {
    let experiment = IndependenceAcrossRanges::new(ranges(&[3, 7]), 8);
    let mut acc = experiment.new_accumulator().unwrap();
    assert_eq!(experiment.record(&mut acc, vec![2, 2]), Ok(false));
    assert_eq!(acc.num_iterations(), 0);
    assert_eq!(experiment.record(&mut acc, vec![2, 5]), Ok(true));
    assert_eq!(experiment.record(&mut acc, vec![3, 3]), Ok(false));
    assert_eq!(experiment.record(&mut acc, vec![2, 5]), Ok(true));
    assert_eq!(experiment.record(&mut acc, vec![0, 7]), Ok(true));
    assert_eq!(sorted_entries(&acc), vec![(vec![0, 7], 1), (vec![2, 5], 2)]);
    assert_eq!(acc.num_iterations(), 3);
    // Distinct buckets that leave their sub-ranges are refused, not rejected.
    assert_eq!(experiment.record(&mut acc, vec![2, 1]), Err(AccumulatorError::OutOfRange));
    assert_eq!(experiment.record(&mut acc, vec![2]), Err(AccumulatorError::OutOfRange));
    assert_eq!(acc.num_iterations(), 3);
}

#[test]
fn a_trial_across_ranges_rejects_the_payloads_that_stay_put() {
    // FirstByte gives byte % 4 and byte % 8: equal exactly when byte % 8 < 4.
    let experiment = IndependenceAcrossRanges::new(ranges(&[3, 7]), 1);
    let mut acc = experiment.new_accumulator().unwrap();
    for byte in 0..=255_u8 {
        assert_eq!(experiment.hashes(&FirstByte, &[byte]), vec![(byte % 4) as u64, (byte % 8) as u64]);
        assert_eq!(experiment.trial(&mut acc, &FirstByte, &[byte]), Ok(byte % 8 >= 4));
    }
    assert_eq!(
        sorted_entries(&acc),
        vec![(vec![0, 4], 32), (vec![1, 5], 32), (vec![2, 6], 32), (vec![3, 7], 32)]
    );
    // Both variables take four values but are fully dependent.
    assert_eq!(experiment.check_summary(&acc), None);
    let table = experiment.summary(&acc);
    assert_eq!(table.num_samples, 128);
    assert_eq!(table.degrees_of_freedom, 4 * 4 - 1 - 6);
    let p = independence_p_value(&table);
    assert!((0.0..1e-9).contains(&p), "p-value {p}");
}

#[test]
fn every_tuple_recorded_across_ranges_has_distinct_buckets() {
    let experiment = IndependenceAcrossRanges::new(ranges(&[3, 7, 15]), 8);
    let acc = experiment.accumulate(&JumpHash, 3_000).unwrap();
    assert_eq!(acc.num_iterations(), 3_000);
    let (tuples, counts) = acc.entries();
    assert_eq!(counts.iter().sum::<u64>(), 3_000);
    for tuple in tuples {
        assert_eq!(tuple.len(), 3);
        assert!(tuple[0] != tuple[1] && tuple[1] != tuple[2] && tuple[0] != tuple[2]);
        assert!(tuple[0] <= 3 && (4..=7).contains(&tuple[1]) && (8..=15).contains(&tuple[2]));
    }
    assert_eq!(experiment.check_summary(&acc), None);
    let table = experiment.summary(&acc);
    assert_eq!(table.num_samples, 3_000);
    assert_eq!(table.degrees_of_freedom, 4 * 4 * 8 - 1 - (3 + 3 + 7));
    let p = independence_p_value(&table);
    assert!((0.0..=1.0).contains(&p));
}

#[test]
fn a_run_across_ranges_records_exactly_one_tuple() {
    let experiment = IndependenceAcrossRanges::new(ranges(&[1, 3]), 8);
    let mut acc = experiment.new_accumulator().unwrap();
    for done in 1..=200_u64 {
        assert_eq!(experiment.run(&mut acc, &JumpHash), Ok(()));
        assert_eq!(acc.num_iterations(), done);
    }
}

#[test]
fn a_run_across_ranges_reports_what_the_accumulator_refuses() {
    // Constant puts every key in bucket 0 of the only range; an accumulator made for
    // another range refuses that tuple.
    let experiment = IndependenceAcrossRanges::new(ranges(&[5]), 8);
    let other = IndependenceAcrossRanges::new(ranges(&[5, 9]), 8);
    let mut acc = other.new_accumulator().unwrap();
    assert_eq!(
        experiment.run(&mut acc, &Constant),
        Err(ExperimentError::Refused(AccumulatorError::OutOfRange))
    );
    assert_eq!(acc.num_iterations(), 0);
}

#[test]
fn seeds_given_must_differ() {
    assert_eq!(
        IndependenceAcrossSeeds::with_seeds(..=9, vec![1, 2, 1], 8).err(),
        Some(ExperimentError::DuplicateSeeds)
    );
    assert!(IndependenceAcrossSeeds::with_seeds(..=9, vec![1, 2, 3], 8).is_ok());
    assert!(IndependenceAcrossSeeds::with_seeds(..=9, vec![], 8).is_ok());
}

#[test]
fn random_seeds_are_as_many_as_asked_for_and_differ() {
    for num_seeds in [0_usize, 1, 2, 5, 40] {
        let experiment = IndependenceAcrossSeeds::new(..=3, num_seeds, 8).unwrap();
        let hashes = experiment.hashes(&JumpHash, &[1, 2, 3, 4, 5, 6, 7, 8]);
        assert_eq!(hashes.len(), num_seeds);
        assert!(hashes.iter().all(|&h| h <= 3));
        let acc = experiment.new_accumulator().unwrap();
        assert_eq!(acc.valid_tuples().num_coordinates(), num_seeds);
        assert_eq!(acc.valid_tuples().lower_bounds(), &vec![0; num_seeds]);
        assert_eq!(acc.valid_tuples().upper_bounds(), &vec![3; num_seeds]);
    }
    // Two experiments do not share their seeds: the same key hashes differently.
    let key = [9_u8; 8];
    let a = IndependenceAcrossSeeds::new(..=u32::MAX as u64, 4, 8).unwrap();
    let b = IndependenceAcrossSeeds::new(..=u32::MAX as u64, 4, 8).unwrap();
    let ha = a.hashes(&JumpHash, &key);
    assert_ne!(ha, b.hashes(&JumpHash, &key));
    assert!(ha[0] != ha[1] || ha[1] != ha[2] || ha[2] != ha[3]);
}

#[test]
fn independence_across_seeds_accumulates_random_trials() {
    let experiment = IndependenceAcrossSeeds::with_seeds(..=3, vec![11, 22], 8).unwrap();
    let acc = experiment.accumulate(&JumpHash, 8_000).unwrap();
    assert_eq!(acc.num_iterations(), 8_000);
    let (tuples, counts) = acc.entries();
    assert_eq!(counts.iter().sum::<u64>(), 8_000);
    assert!(tuples.iter().all(|t| t.len() == 2 && t[0] <= 3 && t[1] <= 3));
    assert_eq!(tuples.len(), 16);
    assert_eq!(experiment.check_summary(&acc), None);
    let table = experiment.summary(&acc);
    assert_eq!(table.num_samples, 8_000);
    assert_eq!(table.degrees_of_freedom, 16 - 1 - 6);
    let p = independence_p_value(&table);
    assert!((0.0..=1.0).contains(&p), "p-value {p}");
}

#[test]
fn a_domain_across_seeds_can_be_too_large() {
    let experiment =
        IndependenceAcrossSeeds::with_seeds(..=u64::MAX, vec![1, 2, 3], 8).unwrap();
    assert_eq!(
        experiment.new_accumulator().map(|a| a.num_iterations()),
        Err(ExperimentError::DomainTooLarge)
    );
    let two = IndependenceAcrossSeeds::with_seeds(..=u64::MAX - 1, vec![1, 2], 8).unwrap();
    assert!(two.new_accumulator().is_ok());
}

#[test]
fn merged_batches_of_an_experiment_equal_one_long_run() {
    let experiment = Regularity::new(..=5, 1);
    let payloads: Vec<u8> = (0..=255_u8).collect();
    let mut whole = experiment.new_accumulator();
    for &byte in &payloads {
        assert_eq!(experiment.trial(&mut whole, &FirstByte, &[byte]), Ok(()));
    }
    let mut merged = experiment.new_accumulator();
    for chunk in payloads.chunks(37).rev() {
        let mut batch = experiment.new_accumulator();
        for &byte in chunk {
            assert_eq!(experiment.trial(&mut batch, &FirstByte, &[byte]), Ok(()));
        }
        assert_eq!(merged.merge(&batch), Ok(()));
    }
    assert_eq!(merged.counts(), whole.counts());
    assert_eq!(merged.num_iterations(), whole.num_iterations());
    assert_eq!(experiment.summary(&merged), experiment.summary(&whole));
}

#[test]
fn the_control_algorithms_stay_in_range() {
    for end in [0_u64, 1, 3, 254, 255, 256, u64::MAX] {
        for byte in [0_u8, 1, 127, 255] {
            assert!(FirstByte.hash(&[byte], 5, ..=end) <= end);
            assert_eq!(Constant.hash(&[byte], 5, ..=end), 0);
            assert!(SeedBit.hash(&[byte], 5, ..=end) <= end);
        }
    }
    assert_eq!(FirstByte.hash(&[200], 0, ..=255), 200);
    assert_eq!(FirstByte.hash(&[200], 0, ..=99), 0);
    assert_eq!(FirstByte.hash(&[200], 0, ..=u64::MAX), 200);
    assert_eq!(SeedBit.hash(&[], 7, ..=1), 1);
    assert_eq!(SeedBit.hash(&[], 8, ..=1), 0);
    assert_eq!(SeedBit.hash(&[], 7, ..=0), 0);
}

#[test]
fn with_a_single_range_no_draw_is_rejected() {
    let experiment = IndependenceAcrossRanges::new(ranges(&[5]), 8);
    let mut acc = experiment.new_accumulator().unwrap();
    for done in 1..=50_u64 {
        assert_eq!(experiment.run(&mut acc, &Constant), Ok(()));
        assert_eq!(acc.num_iterations(), done);
    }
    assert_eq!(sorted_entries(&acc), vec![(vec![0], 50)]);
    let batch = experiment.accumulate(&Constant, 70).unwrap();
    assert_eq!(sorted_entries(&batch), vec![(vec![0], 70)]);
    let random = experiment.accumulate(&JumpHash, 500).unwrap();
    assert_eq!(random.num_iterations(), 500);
    assert!(random.entries().0.iter().all(|t| t.len() == 1 && t[0] <= 5));
}

#[test]
fn a_domain_too_large_is_refused_before_any_trial() {
    let experiment =
        IndependenceAcrossRanges::new(ranges(&[1 << 62, 1 << 63, u64::MAX]), 8);
    for trials in [0_u64, 1, 1000] {
        assert_eq!(
            experiment.accumulate(&Constant, trials).map(|a| a.num_iterations()),
            Err(ExperimentError::DomainTooLarge)
        );
    }
}

#[test]
fn experiments_across_ranges_and_seeds_can_be_cloned() {
    let ranges_experiment = IndependenceAcrossRanges::new(ranges(&[3, 7]), 8);
    let copy = ranges_experiment.clone();
    assert_eq!(copy.ends(), ranges_experiment.ends());
    assert_eq!(copy.payload_size(), 8);
    let seeds_experiment = IndependenceAcrossSeeds::with_seeds(..=9, vec![4, 5, 6], 16).unwrap();
    let copy = seeds_experiment.clone();
    assert_eq!(copy.seed_list(), &vec![4, 5, 6]);
    assert_eq!(copy.range().end, 9);
    assert_eq!(copy.payload_size(), 16);
}
