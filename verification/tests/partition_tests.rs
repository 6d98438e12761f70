use scale_search::partition::count_initial_combinations;
use scale_search::partition::enumerate_partitions;

#[test]
fn count_matches_formula_one_to_seven() {
    // a range of 7 values gives 7 * 8 / 2 = 28 starting pairs
    assert_eq!(count_initial_combinations(1, 7), 28);
}

#[test]
fn count_single_value_range() {
    assert_eq!(count_initial_combinations(3, 3), 1);
}

#[test]
fn count_two_value_range() {
    assert_eq!(count_initial_combinations(1, 2), 3);
}

#[test]
fn count_negative_range() {
    // 9 values from -3 to 5: 9 * 10 / 2 = 45
    assert_eq!(count_initial_combinations(-3, 5), 45);
}

#[test]
fn enumerate_lists_every_pair_once() {
    let parts = enumerate_partitions(1, 3);
    let expected = vec![(1, 1), (1, 2), (1, 3), (2, 2), (2, 3), (3, 3)];
    assert_eq!(parts, expected);
}

#[test]
fn enumerate_length_matches_count() {
    let parts = enumerate_partitions(1, 7);
    assert_eq!(parts.len() as i64, count_initial_combinations(1, 7));
    for &(a, b) in &parts {
        assert!(1 <= a && a <= b && b <= 7);
    }
    for x in 0..parts.len() {
        for y in (x + 1)..parts.len() {
            assert_ne!(parts[x], parts[y]);
        }
    }
}
