use flip_hash_benchmarks::stats::{
    check_independence, collisions, independence, pairs_of, total, uniformity, Independence,
    StatsError, Uniformity,
};
use statrs::distribution::{ChiSquared, ContinuousCDF};

fn p_value(statistic: f64, degrees_of_freedom: f64) -> f64 {
    1.0 - ChiSquared::new(degrees_of_freedom).unwrap().cdf(statistic)
}

fn uniformity_p_value(u: &Uniformity) -> f64 {
    p_value(
        u.squared_deviation as f64 / u.scale as f64,
        u.degrees_of_freedom() as f64,
    )
}

/// The test of a table that admits one, and else the reason why it admits none.
fn examined(
    tuples: &Vec<Vec<u64>>,
    counts: &Vec<u64>,
    n: usize,
) -> Result<Independence, StatsError> {
    match check_independence(tuples, counts, n) {
        Some(reason) => Err(reason),
        None => Ok(independence(tuples, counts, n)),
    }
}

fn independence_statistic(table: &Independence) -> f64 {
    let n = table.num_samples as f64;
    table
        .counts
        .iter()
        .enumerate()
        .map(|(i, &o)| {
            let joint: f64 = table.marginals.iter().map(|column| column[i] as f64 / n).product();
            let e = joint * n;
            (o as f64 - e).powi(2) / e
        })
        .sum()
}

#[test]
fn total_adds_the_counts() {
    assert_eq!(total(&vec![]), 0);
    assert_eq!(total(&vec![1, 2, 3, 4]), 10);
    assert_eq!(total(&vec![u64::MAX, u64::MAX, 2]), 2 * (u64::MAX as u128) + 2);
}

#[test]
fn uniformity_of_a_uniform_table_has_no_deviation() {
    let u = uniformity(&vec![1000, 1000, 1000, 1000]).unwrap();
    assert_eq!(
        u,
        Uniformity {
            num_samples: 4000,
            num_categories: 4,
            absolute_deviation: 0,
            squared_deviation: 0,
            scale: 16000,
        }
    );
    assert_eq!(u.degrees_of_freedom(), 3);
    let p = uniformity_p_value(&u);
    assert!(p > 0.999 && p <= 1.0, "p-value {p}");
}

#[test]
fn uniformity_of_a_maximally_skewed_table() {
    let u = uniformity(&vec![4000, 0, 0, 0]).unwrap();
    // k * o - n is 12000 once and -4000 three times.
    assert_eq!(u.num_samples, 4000);
    assert_eq!(u.absolute_deviation, 24_000);
    assert_eq!(u.squared_deviation, 144_000_000 + 3 * 16_000_000);
    assert_eq!(u.scale, 16_000);
    // The chi-squared statistic is (4000 - 1000)^2 / 1000 + 3 * 1000 = 12000.
    assert_eq!(u.squared_deviation as f64 / u.scale as f64, 12_000.0);
    let p = uniformity_p_value(&u);
    assert!((0.0..1e-9).contains(&p), "p-value {p}");
}

#[test]
fn uniformity_matches_the_textbook_formulas() {
    let counts: Vec<u64> = vec![18, 25, 31, 26];
    let u = uniformity(&counts).unwrap();
    let n = 100.0_f64;
    let k = 4.0_f64;
    let l1: f64 = counts.iter().map(|&c| (c as f64 / n - 1.0 / k).abs()).sum();
    let l2: f64 = counts.iter().map(|&c| (c as f64 / n - 1.0 / k).powi(2)).sum::<f64>().sqrt();
    let expected = n / k;
    let chi: f64 = counts.iter().map(|&c| (c as f64 - expected).powi(2) / expected).sum();
    assert_eq!(u.absolute_deviation, 7 * 4 + 0 + 6 * 4 + 4);
    assert_eq!(u.squared_deviation, 28 * 28 + 0 + 24 * 24 + 4 * 4);
    assert_eq!(u.scale, 400);
    assert!((u.absolute_deviation as f64 / u.scale as f64 - l1).abs() < 1e-12);
    assert!(((u.squared_deviation as f64).sqrt() / u.scale as f64 - l2).abs() < 1e-12);
    assert!((u.squared_deviation as f64 / u.scale as f64 - chi).abs() < 1e-12);
    let p = uniformity_p_value(&u);
    assert!((0.0..=1.0).contains(&p));
    assert!((p - p_value(chi, 3.0)).abs() < 1e-12);
}

#[test]
fn uniformity_takes_two_categories() {
    let u = uniformity(&vec![17, 0]).unwrap();
    assert_eq!(u.num_categories, 2);
    assert_eq!(u.degrees_of_freedom(), 1);
    assert_eq!(u.absolute_deviation, 17 + 17);
    assert_eq!(u.squared_deviation, 2 * 17 * 17);
    assert_eq!(u.scale, 34);
    assert_eq!(uniformity(&vec![1, 1]).unwrap().squared_deviation, 0);
}

#[test]
fn uniformity_of_an_empty_sample_is_zero_over_zero() {
    let u = uniformity(&vec![0, 0, 0]).unwrap();
    assert_eq!(u.num_samples, 0);
    assert_eq!(u.absolute_deviation, 0);
    assert_eq!(u.squared_deviation, 0);
    assert_eq!(u.scale, 0);
}

#[test]
fn uniformity_reports_overflow() {
    // 2 * u64::MAX - u64::MAX squares to just under 2^128; two such terms exceed it.
    assert_eq!(uniformity(&vec![u64::MAX, 0]), Err(StatsError::Overflow));
    let big = 1_u64 << 62;
    assert!(uniformity(&vec![big, big]).is_ok());
    // k * n exceeds 2^128 only with more counts than a test can hold; the squared
    // deviation overflows first here.
    assert_eq!(uniformity(&vec![u64::MAX, u64::MAX, 0]), Err(StatsError::Overflow));
}

#[test]
fn p_values_lie_between_zero_and_one() {
    let tables: [Vec<u64>; 6] = [
        vec![1, 0],
        vec![0, 1, 0],
        vec![5, 5],
        vec![10, 20, 30, 40, 50],
        vec![1_000_000, 1_000_001],
        vec![3, 3, 3, 3, 3, 3, 3, 4],
    ];
    for counts in tables {
        let u = uniformity(&counts).unwrap();
        let p = uniformity_p_value(&u);
        assert!((0.0..=1.0).contains(&p), "{counts:?} gives {p}");
    }
}

#[test]
fn pairs_counts_unordered_pairs() {
    assert_eq!(pairs_of(0), 0);
    assert_eq!(pairs_of(1), 0);
    assert_eq!(pairs_of(2), 1);
    assert_eq!(pairs_of(4), 6);
    assert_eq!(pairs_of(5), 10);
    assert_eq!(
        pairs_of(u64::MAX),
        (u64::MAX as u128) * (u64::MAX as u128 - 1) / 2
    );
}

#[test]
fn collisions_counts_pairs_within_buckets() {
    assert_eq!(collisions(&vec![]), Ok(0));
    assert_eq!(collisions(&vec![1, 1, 1, 0]), Ok(0));
    assert_eq!(collisions(&vec![2, 2]), Ok(2));
    assert_eq!(collisions(&vec![4, 0]), Ok(6));
    assert_eq!(collisions(&vec![3, 1, 5]), Ok(3 + 0 + 10));
    let most = (u64::MAX as u128) * (u64::MAX as u128 - 1) / 2;
    assert_eq!(collisions(&vec![0, u64::MAX]), Ok(most));
    assert_eq!(collisions(&vec![u64::MAX, u64::MAX]), Ok(2 * most));
    assert_eq!(collisions(&vec![u64::MAX, u64::MAX, u64::MAX]), Err(StatsError::Overflow));
}

#[test]
fn independence_computes_marginals_and_degrees_of_freedom() {
    let tuples = vec![vec![0, 0], vec![0, 1], vec![1, 0], vec![1, 1]];
    let counts = vec![10, 20, 30, 40];
    let table = examined(&tuples, &counts, 2).unwrap();
    assert_eq!(table.num_samples, 100);
    assert_eq!(table.degrees_of_freedom, 1);
    assert_eq!(table.counts, counts);
    assert_eq!(table.marginals, vec![vec![30, 30, 70, 70], vec![40, 60, 40, 60]]);
    // Expected counts 12, 18, 28, 42.
    let statistic = independence_statistic(&table);
    let by_hand = 4.0 / 12.0 + 4.0 / 18.0 + 4.0 / 28.0 + 4.0 / 42.0;
    assert!((statistic - by_hand).abs() < 1e-12);
    let p = p_value(statistic, table.degrees_of_freedom as f64);
    assert!((0.0..=1.0).contains(&p));
    assert!(p > 0.3 && p < 0.5, "p-value {p}");
}

#[test]
fn independence_of_a_product_table_has_p_value_one() {
    // counts[i][j] = row[i] * column[j]: the variables are exactly independent.
    let tuples = vec![vec![5, 7], vec![5, 8], vec![5, 9], vec![6, 7], vec![6, 8], vec![6, 9]];
    let counts = vec![2 * 3, 2 * 4, 2 * 5, 10 * 3, 10 * 4, 10 * 5];
    let table = examined(&tuples, &counts, 2).unwrap();
    assert_eq!(table.num_samples, 144);
    assert_eq!(table.degrees_of_freedom, 2 * 3 - 1 - (1 + 2));
    assert_eq!(
        table.marginals,
        vec![vec![24, 24, 24, 120, 120, 120], vec![36, 48, 60, 36, 48, 60]]
    );
    let statistic = independence_statistic(&table);
    assert!(statistic.abs() < 1e-9);
    assert!(p_value(statistic, 2.0) > 0.999);
}

#[test]
fn independence_of_fully_dependent_variables_has_p_value_zero() {
    let tuples = vec![vec![0, 0], vec![1, 1]];
    let counts = vec![500, 500];
    let table = examined(&tuples, &counts, 2).unwrap();
    assert_eq!(table.degrees_of_freedom, 1);
    assert_eq!(table.marginals, vec![vec![500, 500], vec![500, 500]]);
    let statistic = independence_statistic(&table);
    // Two observed cells with expected count 250 each; unobserved cells add nothing.
    assert!((statistic - 500.0).abs() < 1e-9);
    let p = p_value(statistic, 1.0);
    assert!((0.0..1e-9).contains(&p));
}

#[test]
fn independence_counts_only_the_values_that_occur() {
    let tuples = vec![vec![0, 10, 3], vec![0, 11, 3], vec![2, 10, 3], vec![2, 12, 3]];
    let counts = vec![1, 2, 3, 4];
    let table = examined(&tuples, &counts, 3).unwrap();
    // Levels 2, 3 and 1: 2 * 3 * 1 - 1 - (1 + 2 + 0) = 2.
    assert_eq!(table.degrees_of_freedom, 2);
    assert_eq!(table.num_samples, 10);
    assert_eq!(
        table.marginals,
        vec![vec![3, 3, 7, 7], vec![4, 2, 4, 4], vec![10, 10, 10, 10]]
    );
}

#[test]
fn a_tuple_listed_with_count_zero_was_never_observed() {
    let with_zero = examined(&vec![vec![0, 0], vec![1, 1], vec![2, 2]], &vec![1, 1, 0], 2)
        .unwrap();
    let without = examined(&vec![vec![0, 0], vec![1, 1]], &vec![1, 1], 2).unwrap();
    for table in [&with_zero, &without] {
        assert_eq!(table.num_samples, 2);
        assert_eq!(table.degrees_of_freedom, 1);
        assert_eq!(table.counts, vec![1, 1]);
        assert_eq!(table.marginals, vec![vec![1, 1], vec![1, 1]]);
    }
    assert_eq!(independence_statistic(&with_zero), independence_statistic(&without));

    // Zero counts anywhere in the list, and with any number of coordinates.
    let tuples = vec![vec![9], vec![0, 0], vec![0, 1], vec![7, 7, 7], vec![1, 0], vec![1, 1], vec![]];
    let counts = vec![0, 10, 20, 0, 30, 40, 0];
    let table = examined(&tuples, &counts, 2).unwrap();
    assert_eq!(table.num_samples, 100);
    assert_eq!(table.degrees_of_freedom, 1);
    assert_eq!(table.counts, vec![10, 20, 30, 40]);
    assert_eq!(table.marginals, vec![vec![30, 30, 70, 70], vec![40, 60, 40, 60]]);

    // Values that only zero counts show give no freedom.
    assert_eq!(
        examined(&vec![vec![0, 0], vec![1, 1], vec![0, 1]], &vec![5, 0, 0], 2)
            .map(|t| t.degrees_of_freedom),
        Err(StatsError::NoFreedom)
    );
}

#[test]
fn independence_needs_a_degree_of_freedom() {
    // One tuple only: every variable is constant.
    assert_eq!(
        examined(&vec![vec![1, 0]], &vec![1000], 2).map(|t| t.degrees_of_freedom),
        Err(StatsError::NoFreedom)
    );
    // One variable varies, the other is constant: 3 * 1 - 1 - 2 = 0.
    assert_eq!(
        examined(&vec![vec![0, 7], vec![1, 7], vec![2, 7]], &vec![1, 1, 1], 2)
            .map(|t| t.degrees_of_freedom),
        Err(StatsError::NoFreedom)
    );
    // A single variable never has a degree of freedom: d - 1 - (d - 1) = 0.
    assert_eq!(
        examined(&vec![vec![0], vec![1]], &vec![3, 4], 1).map(|t| t.degrees_of_freedom),
        Err(StatsError::NoFreedom)
    );
}

#[test]
fn independence_refuses_malformed_tables() {
    let err = |tuples: Vec<Vec<u64>>, counts: Vec<u64>, n: usize| {
        examined(&tuples, &counts, n).map(|t| t.degrees_of_freedom)
    };
    assert_eq!(err(vec![vec![0, 0]], vec![1], 0), Err(StatsError::NoVariables));
    assert_eq!(err(vec![], vec![], 0), Err(StatsError::NoVariables));
    assert_eq!(err(vec![vec![0, 0]], vec![1, 2], 2), Err(StatsError::MalformedTable));
    assert_eq!(
        err(vec![vec![0, 0], vec![1]], vec![1, 2], 2),
        Err(StatsError::MalformedTable)
    );
    assert_eq!(
        err(vec![vec![0, 0], vec![1, 1, 1]], vec![1, 2], 2),
        Err(StatsError::MalformedTable)
    );
    // A tuple that was never observed is not looked at.
    assert_eq!(err(vec![vec![0, 0], vec![1, 1], vec![1]], vec![1, 2, 0], 2), Ok(1));
    assert_eq!(err(vec![], vec![], 2), Err(StatsError::NoObservations));
    assert_eq!(
        err(vec![vec![0, 0], vec![1, 1]], vec![0, 0], 2),
        Err(StatsError::NoObservations)
    );
}

#[test]
fn independence_reports_overflow() {
    let err = |tuples: Vec<Vec<u64>>, counts: Vec<u64>, n: usize| {
        examined(&tuples, &counts, n).map(|t| t.degrees_of_freedom)
    };
    // More than u64::MAX observations.
    assert_eq!(
        err(vec![vec![0, 0], vec![1, 1]], vec![u64::MAX, 1], 2),
        Err(StatsError::Overflow)
    );
    // 64 variables of two levels each span 2^64 cells.
    assert_eq!(
        err(vec![vec![0; 64], vec![1; 64]], vec![1, 1], 64),
        Err(StatsError::Overflow)
    );
    // 63 variables do not: 2^63 - 1 - 63 degrees of freedom.
    assert_eq!(
        err(vec![vec![0; 63], vec![1; 63]], vec![1, 1], 63),
        Ok((1_u64 << 63) - 1 - 63)
    );
}

#[test]
fn marginal_counts_of_every_variable_add_up_to_the_samples() {
    let tuples = vec![
        vec![0, 10, 3],
        vec![0, 11, 3],
        vec![2, 10, 4],
        vec![2, 12, 3],
        vec![1, 12, 5],
        vec![1, 10, 3],
    ];
    let counts = vec![1, 2, 3, 4, 5, 6];
    let table = examined(&tuples, &counts, 3).unwrap();
    assert_eq!(table.num_samples, 21);
    for (j, column) in table.marginals.iter().enumerate() {
        let mut by_value = std::collections::BTreeMap::new();
        for (i, tuple) in tuples.iter().enumerate() {
            let known = by_value.insert(tuple[j], column[i]);
            assert!(known.is_none() || known == Some(column[i]));
        }
        assert_eq!(by_value.values().sum::<u64>(), table.num_samples);
    }
    assert_eq!(table.degrees_of_freedom, 3 * 3 * 3 - 1 - 6);
}

#[test]
fn a_table_that_admits_a_test_is_not_refused() {
    let tuples = vec![vec![0, 0], vec![0, 1], vec![1, 0], vec![1, 1]];
    let counts = vec![10, 20, 30, 40];
    assert_eq!(check_independence(&tuples, &counts, 2), None);
    let table = independence(&tuples, &counts, 2);
    assert!(table.degrees_of_freedom >= 1 && table.num_samples >= 1);
    // One constant pair of buckets, ten times: no variable varies.
    assert_eq!(
        check_independence(&vec![vec![0, 1]], &vec![10], 2),
        Some(StatsError::NoFreedom)
    );
    assert_eq!(check_independence(&vec![], &vec![], 2), Some(StatsError::NoObservations));
}
