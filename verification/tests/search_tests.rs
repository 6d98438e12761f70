use scale_search::frac::Frac;
use scale_search::params::Params;
use scale_search::pipeline::run_search;
use scale_search::search::dfs_branch;
use scale_search::tables::BoundTables;

fn frac(num: i64, den: i64) -> Frac {
    Frac::new(num, den)
}

/// The exact acceptance check the contracts state, replicated over i128:
/// full length, non-decreasing, in range, sum inside the sum window, and
/// scaled accumulator inside the standard-deviation window.
fn exact_qualifies(p: &Params, s: &[i32]) -> bool {
    if s.len() != p.n {
        return false;
    }
    for x in 1..s.len() {
        if s[x - 1] > s[x] {
            return false;
        }
    }
    for &v in s {
        if v < p.min_scale || v > p.max_scale {
            return false;
        }
    }
    let sum: i128 = s.iter().map(|&v| v as i128).sum();
    let sumsq: i128 = s.iter().map(|&v| v as i128 * v as i128).sum();
    let n = s.len() as i128;
    let m2k = n * sumsq - sum * sum;
    if sum * (p.sum_lower.den as i128) < p.sum_lower.num as i128 {
        return false;
    }
    if sum * (p.sum_upper.den as i128) > p.sum_upper.num as i128 {
        return false;
    }
    let lo = &p.sd_lower;
    let sd_ge = lo.num <= 0
        || m2k * (lo.den as i128) * (lo.den as i128)
            >= (lo.num as i128) * (lo.num as i128) * n * (n - 1);
    let hi = &p.sd_upper;
    let sd_le = hi.num >= 0
        && m2k * (hi.den as i128) * (hi.den as i128)
            <= (hi.num as i128) * (hi.num as i128) * n * (n - 1);
    sd_ge && sd_le
}

fn brute_force(p: &Params) -> Vec<Vec<i32>> {
    let mut found = Vec::new();
    let mut current: Vec<i32> = Vec::new();
    extend(p, &mut current, &mut found);
    found.sort();
    found
}

fn extend(p: &Params, current: &mut Vec<i32>, found: &mut Vec<Vec<i32>>) {
    if current.len() == p.n {
        if exact_qualifies(p, current) {
            found.push(current.clone());
        }
        return;
    }
    let start = *current.last().unwrap_or(&p.min_scale);
    for c in start..=p.max_scale {
        current.push(c);
        extend(p, current, found);
        current.pop();
    }
}

#[test]
fn single_candidate_accepted_when_both_windows_allow() {
    // n = 2 with a one-value scale: the only candidate is [4, 4], whose sum
    // is 8 and whose sample standard deviation is zero; both fit the windows
    let p = Params::new(4, 4, 2, frac(80, 10), frac(1, 10), frac(0, 1), frac(0, 1));
    let rows = run_search(&p);
    assert_eq!(rows, vec![vec![4, 4]]);
}

#[test]
fn single_candidate_rejected_when_mean_outside_window() {
    // the same candidate fails once the sum window [20, 20] excludes its sum 8
    let p = Params::new(4, 4, 2, frac(20, 1), frac(0, 1), frac(0, 1), frac(0, 1));
    let rows = run_search(&p);
    assert!(rows.is_empty());
}

#[test]
fn single_candidate_rejected_when_lower_bound_positive() {
    // the same candidate fails once the window demands a deviation >= 4
    let p = Params::new(4, 4, 2, frac(80, 10), frac(1, 10), frac(5, 1), frac(1, 1));
    let rows = run_search(&p);
    assert!(rows.is_empty());
}

#[test]
fn accepted_rows_have_shape_and_windows() {
    // every produced row: full length, non-decreasing, in range, and the
    // mean and sample standard deviation inside their tolerances
    let p = Params::new(1, 5, 5, frac(15, 1), frac(1, 1), frac(15, 10), frac(5, 10));
    let rows = run_search(&p);
    assert!(!rows.is_empty());
    for row in &rows {
        assert_eq!(row.len(), 5);
        for x in 1..row.len() {
            assert!(row[x - 1] <= row[x]);
        }
        for &v in row {
            assert!((1..=5).contains(&v));
        }
        let count = row.len() as f64;
        let sum: f64 = row.iter().map(|&v| v as f64).sum();
        let mean = sum / count;
        let m2: f64 = row.iter().map(|&v| (v as f64 - mean) * (v as f64 - mean)).sum();
        let sd = (m2 / (count - 1.0)).sqrt();
        assert!((mean - 3.0).abs() <= 0.2 + 1e-9);
        assert!((sd - 1.5).abs() <= 0.5 + 1e-9);
    }
}

#[test]
fn pruned_search_equals_brute_force() {
    // the pruned search neither misses nor invents rows
    let p = Params::new(1, 4, 4, frac(10, 1), frac(2, 1), frac(10, 10), frac(5, 10));
    let mut rows = run_search(&p);
    rows.sort();
    let expected = brute_force(&p);
    assert!(!expected.is_empty());
    assert_eq!(rows, expected);
}

#[test]
fn pruned_search_equals_brute_force_wider() {
    let p = Params::new(-2, 3, 5, frac(2, 1), frac(3, 1), frac(20, 10), frac(8, 10));
    let mut rows = run_search(&p);
    rows.sort();
    let expected = brute_force(&p);
    assert_eq!(rows, expected);
}

#[test]
fn repeated_runs_produce_the_same_set() {
    let p = Params::new(1, 5, 6, frac(18, 1), frac(2, 1), frac(12, 10), frac(6, 10));
    let mut first = run_search(&p);
    let mut second = run_search(&p);
    first.sort();
    second.sort();
    assert_eq!(first, second);
}

#[test]
fn branches_partition_the_result_set() {
    // each row comes from exactly the branch of its first two elements
    let p = Params::new(1, 4, 4, frac(10, 1), frac(2, 1), frac(10, 10), frac(5, 10));
    let tables = BoundTables::new(&p);
    let mut merged: Vec<Vec<i32>> = Vec::new();
    for a in 1..=4 {
        for b in a..=4 {
            let batch = dfs_branch(&p, &tables, a, b);
            for row in &batch {
                assert_eq!(row[0], a);
                assert_eq!(row[1], b);
            }
            merged.extend(batch);
        }
    }
    merged.sort();
    assert_eq!(merged, brute_force(&p));
}

#[test]
fn large_scenario_terminates_with_valid_rows() {
    // scale 1..7, length 30, mean 5.0 +/- 0.01, deviation 2.78 +/- 0.01
    let p = Params::new(1, 7, 30, frac(1500, 10), frac(3, 10), frac(278, 100), frac(1, 100));
    let rows = run_search(&p);
    for row in &rows {
        assert_eq!(row.len(), 30);
        for &v in row {
            assert!((1..=7).contains(&v));
        }
        assert!(exact_qualifies(&p, row));
    }
}
