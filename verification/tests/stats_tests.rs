use scale_search::stats::RunningStats;

fn stats_of(values: &[i32]) -> RunningStats {
    let mut st = RunningStats::new();
    for &v in values {
        st = st.pushed(v);
    }
    st
}

#[test]
fn scaled_accumulator_of_equal_pair_is_zero() {
    let st = stats_of(&[4, 4]);
    assert_eq!(st.m2k_value(), 0);
}

#[test]
fn scaled_accumulator_small_example() {
    // [1, 2, 3]: sum 6, sum of squares 14, m2k = 3 * 14 - 36 = 6,
    // so m2 = 2 and the sample variance is 2 / (3 - 1) = 1
    let st = stats_of(&[1, 2, 3]);
    assert_eq!(st.sum, 6);
    assert_eq!(st.sumsq, 14);
    assert_eq!(st.m2k_value(), 6);
}

#[test]
fn incremental_matches_direct_up_to_length_thirty() {
    // the incrementally kept (sum, m2) must equal the two-pass computation
    let values: Vec<i32> = (0..30).map(|x| (x * 37 % 13) - 4).collect();
    let mut st = RunningStats::new();
    for k in 0..values.len() {
        st = st.pushed(values[k]);
        let prefix = &values[..k + 1];
        let count = prefix.len() as f64;
        let direct_sum: f64 = prefix.iter().map(|&v| v as f64).sum();
        let mean = direct_sum / count;
        let direct_m2: f64 = prefix.iter().map(|&v| (v as f64 - mean) * (v as f64 - mean)).sum();
        let incremental_m2 = st.m2k_value() as f64 / count;
        assert_eq!(st.sum as f64, direct_sum);
        assert!((incremental_m2 - direct_m2).abs() < 1e-9);
    }
}

#[test]
fn welford_update_matches_formula() {
    // one update step: delta * delta2 with exact bookkeeping
    let st = stats_of(&[2, 4]);
    let next = st.pushed(9);
    let count = 2.0_f64;
    let sum = st.sum as f64;
    let m2 = st.m2k_value() as f64 / count;
    let v = 9.0_f64;
    let next_mean = (sum + v) / (count + 1.0);
    let delta = v - sum / count;
    let delta2 = v - next_mean;
    let expected_m2 = m2 + delta * delta2;
    let got_m2 = next.m2k_value() as f64 / (count + 1.0);
    assert!((got_m2 - expected_m2).abs() < 1e-9);
}
