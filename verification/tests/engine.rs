use random_karma::{
    accept_attempt, calculate_min_max_sums, calculate_subset_sum, find_approximate_subset,
    get_target_range_for_subset, perform_multiple_runs, sorted_indexes, within_tolerance, Car,
    SubsetError, Tolerance,
};
use std::collections::HashSet;

fn pool(lap_times: &[u32]) -> Vec<Car> {
    lap_times
        .iter()
        .enumerate()
        .map(|(i, &t)| Car { id: format!("car{}", i), lap_time: t })
        .collect()
}

fn percent(p: u32) -> Tolerance {
    Tolerance { millipercent: p * 1000 }
}

fn assert_valid_subset(subset: &[usize], lap_count: usize, pool_len: usize) {
    assert_eq!(subset.len(), lap_count);
    let distinct: HashSet<usize> = subset.iter().copied().collect();
    assert_eq!(distinct.len(), lap_count);
    assert!(subset.iter().all(|&i| i < pool_len));
}

#[test]
fn feasible_range_of_ten_cars() {
    let cars = pool(&[50, 10, 100, 20, 90, 30, 80, 40, 70, 60]);
    assert_eq!(get_target_range_for_subset(&cars, 3), (60, 270));
    assert_eq!(get_target_range_for_subset(&cars, 1), (10, 100));
    assert_eq!(get_target_range_for_subset(&cars, 10), (550, 550));
    assert_eq!(get_target_range_for_subset(&cars, 25), (550, 550));
}

#[test]
fn feasible_range_is_zero_for_no_cars_or_no_laps() {
    let cars = pool(&[50, 10, 100]);
    assert_eq!(get_target_range_for_subset(&cars, 0), (0, 0));
    assert_eq!(get_target_range_for_subset(&[], 0), (0, 0));
    assert_eq!(get_target_range_for_subset(&[], 4), (0, 0));
}

#[test]
fn feasible_range_gives_the_same_answer_twice() {
    let cars = pool(&[31_000, 45_500, 45_500, 62_250, 38_125]);
    for count in 0..7 {
        let first = get_target_range_for_subset(&cars, count);
        let second = get_target_range_for_subset(&cars, count);
        assert_eq!(first, second);
    }
}

#[test]
fn sorted_indexes_orders_by_lap_time_and_keeps_equal_cars_in_pool_order() {
    let cars = pool(&[30, 10, 20, 10, 30, 5]);
    assert_eq!(sorted_indexes(&cars), vec![5, 1, 3, 2, 0, 4]);
    assert_eq!(sorted_indexes(&[]), Vec::<usize>::new());
}

#[test]
fn min_max_sums_take_the_first_and_the_last_entries() {
    let cars = pool(&[10, 20, 30, 40, 50]);
    assert_eq!(calculate_min_max_sums(&cars, &[0, 1, 2, 3, 4], 2), (30, 90));
    assert_eq!(calculate_min_max_sums(&cars, &[0, 1, 2, 3, 4], 0), (0, 0));
    assert_eq!(calculate_min_max_sums(&cars, &[0, 1, 2, 3, 4], 9), (150, 150));
    assert_eq!(calculate_min_max_sums(&cars, &[], 3), (0, 0));
    assert_eq!(calculate_min_max_sums(&cars, &[4, 0], 1), (50, 10));
}

#[test]
fn subset_sum_adds_the_lap_times() {
    let cars = pool(&[10, 20, 30, 40, 50]);
    assert_eq!(calculate_subset_sum(&cars, &[4, 0, 2]), 90);
    assert_eq!(calculate_subset_sum(&cars, &[]), 0);
}

#[test]
fn tolerance_band_includes_both_ends() {
    assert!(within_tolerance(57, 60, percent(5)));
    assert!(within_tolerance(63, 60, percent(5)));
    assert!(!within_tolerance(56, 60, percent(5)));
    assert!(!within_tolerance(64, 60, percent(5)));
    assert!(within_tolerance(1005, 1000, Tolerance { millipercent: 500 }));
    assert!(!within_tolerance(1006, 1000, Tolerance { millipercent: 500 }));
    assert!(within_tolerance(995, 1000, Tolerance { millipercent: 500 }));
    assert!(!within_tolerance(994, 1000, Tolerance { millipercent: 500 }));
    assert!(within_tolerance(60, 60, Tolerance { millipercent: 0 }));
    assert!(within_tolerance(0, 60, percent(100)));
    assert!(within_tolerance(u32::MAX, u32::MAX, Tolerance { millipercent: u32::MAX }));
}

#[test]
fn nothing_is_within_tolerance_of_a_target_of_zero() {
    assert!(!within_tolerance(0, 0, percent(5)));
    assert!(!within_tolerance(10, 0, Tolerance { millipercent: u32::MAX }));
}

#[test]
fn accept_attempt_judges_the_sum_of_the_subset() {
    let cars = pool(&[10, 20, 30, 40, 50]);
    assert!(accept_attempt(&cars, &[0, 1, 2], 60, percent(5)));
    assert!(accept_attempt(&cars, &[0, 1, 2], 62, percent(5)));
    assert!(!accept_attempt(&cars, &[0, 1, 2], 70, percent(5)));
    assert!(!accept_attempt(&cars, &[], 70, percent(5)));
}

#[test]
fn search_returns_distinct_cars_of_the_pool() {
    let cars = pool(&[10, 20, 30, 40, 50, 60, 70, 80, 90, 100]);
    let previous = HashSet::new();
    let mut successes = 0;
    for _ in 0..200 {
        match find_approximate_subset(&cars, 150, 3, &previous, percent(5)) {
            Ok(subset) => {
                assert_valid_subset(&subset, 3, cars.len());
                successes += 1;
            }
            Err(e) => assert!(matches!(e, SubsetError::TargetUnreachable { .. }), "{:?}", e),
        }
    }
    assert!(successes > 0);
}

#[test]
fn search_for_no_car_finds_the_empty_subset() {
    let cars = pool(&[10, 20, 30]);
    let previous = HashSet::new();
    assert_eq!(find_approximate_subset(&cars, 60, 0, &previous, percent(5)), Ok(vec![]));
    assert_eq!(find_approximate_subset(&[], 0, 0, &previous, percent(5)), Ok(vec![]));
}

#[test]
fn search_for_one_car_takes_the_closest() {
    let cars = pool(&[10, 20, 30]);
    let previous = HashSet::new();
    assert_eq!(find_approximate_subset(&cars, 20, 1, &previous, percent(5)), Ok(vec![1]));
    assert_eq!(find_approximate_subset(&cars, 10, 1, &previous, percent(5)), Ok(vec![0]));
    assert_eq!(find_approximate_subset(&cars, 30, 1, &previous, percent(5)), Ok(vec![2]));
}

#[test]
fn search_fails_when_the_pool_is_too_small() {
    let cars = pool(&[10, 20, 30]);
    let previous = HashSet::new();
    assert_eq!(
        find_approximate_subset(&cars, 60, 5, &previous, percent(5)),
        Err(SubsetError::InsufficientCandidates(5, 3))
    );
    assert_eq!(
        find_approximate_subset(&[], 60, 1, &previous, percent(5)),
        Err(SubsetError::InsufficientCandidates(1, 0))
    );
}

#[test]
fn search_fails_when_reuse_does_not_make_up_the_shortfall() {
    let cars = pool(&[10, 20, 30]);
    let previous: HashSet<usize> = [0].into_iter().collect();
    assert_eq!(
        find_approximate_subset(&cars, 60, 5, &previous, percent(5)),
        Err(SubsetError::PreviouslySelectedInsufficient { needed: 5, available: 3 })
    );
}

#[test]
fn search_goes_among_the_cars_of_no_earlier_subset() {
    let cars = pool(&[10, 20, 30]);
    let previous: HashSet<usize> = [1].into_iter().collect();
    let ten = Tolerance { millipercent: 10_000 };
    for _ in 0..20 {
        assert_eq!(find_approximate_subset(&cars, 11, 1, &previous, ten), Ok(vec![0]));
        assert_eq!(find_approximate_subset(&cars, 30, 1, &previous, ten), Ok(vec![2]));
        assert_eq!(find_approximate_subset(&cars, 22, 1, &previous, ten), Ok(vec![1]));
    }
    let all: HashSet<usize> = [0, 1, 2].into_iter().collect();
    for _ in 0..50 {
        if let Ok(subset) = find_approximate_subset(&cars, 30, 2, &previous, percent(5)) {
            assert_valid_subset(&subset, 2, 3);
        }
        if let Ok(subset) = find_approximate_subset(&cars, 30, 1, &all, percent(5)) {
            assert_eq!(subset, vec![2]);
        }
    }
}

#[test]
fn runs_share_no_car_while_the_cars_left_reach_the_target() {
    let cars = pool(&[20, 20, 20, 20]);
    for _ in 0..50 {
        let subsets = perform_multiple_runs(&cars, 40, 2, 2, 5000, percent(5)).unwrap();
        assert_eq!(subsets.len(), 2);
        let mut all: Vec<usize> = subsets.concat();
        all.sort();
        assert_eq!(all, vec![0, 1, 2, 3]);
    }
    let spread = pool(&[10, 30, 20, 20, 30, 10]);
    for _ in 0..50 {
        if let Ok(subsets) = perform_multiple_runs(&spread, 40, 2, 3, 5000, percent(0)) {
            let mut all: Vec<usize> = subsets.concat();
            all.sort();
            assert_eq!(all, vec![0, 1, 2, 3, 4, 5]);
        }
    }
}

#[test]
fn session_passes_on_a_search_that_needs_more_cars_than_there_are() {
    let cars = pool(&[10, 20]);
    assert_eq!(
        perform_multiple_runs(&cars, 30, 3, 1, 5000, percent(5)),
        Err(SubsetError::InsufficientCandidates(3, 2))
    );
}

#[test]
fn search_never_returns_more_cars_than_the_pool_holds() {
    let cars = pool(&[10, 20, 30]);
    let previous: HashSet<usize> = [0, 1, 2].into_iter().collect();
    for _ in 0..50 {
        assert!(find_approximate_subset(&cars, 70, 4, &previous, percent(50)).is_err());
    }
}

#[test]
fn search_fails_when_the_target_is_out_of_reach() {
    let cars = pool(&[10, 20, 30]);
    let previous = HashSet::new();
    assert_eq!(
        find_approximate_subset(&cars, 100, 2, &previous, percent(5)),
        Err(SubsetError::TargetUnreachable {
            target: 100,
            current_sum: 0,
            min_possible: 30,
            max_possible: 50
        })
    );
    assert_eq!(
        find_approximate_subset(&cars, 5, 1, &previous, percent(5)),
        Err(SubsetError::TargetUnreachable {
            target: 5,
            current_sum: 0,
            min_possible: 10,
            max_possible: 30
        })
    );
}

#[test]
fn search_returns_its_subsets_in_more_than_one_order() {
    let cars = pool(&[10, 20, 30, 40]);
    let previous = HashSet::new();
    let mut orders: HashSet<Vec<usize>> = HashSet::new();
    for _ in 0..300 {
        if let Ok(subset) = find_approximate_subset(&cars, 100, 4, &previous, percent(5)) {
            assert_valid_subset(&subset, 4, 4);
            orders.insert(subset);
        }
    }
    assert!(orders.len() > 1);
}

#[test]
fn scenario_three_of_ten_within_five_percent() {
    let cars = pool(&[10, 20, 30, 40, 50, 60, 70, 80, 90, 100]);
    let mut successes = 0;
    for _ in 0..50 {
        match perform_multiple_runs(&cars, 60, 3, 1, 2000, percent(5)) {
            Ok(subsets) => {
                successes += 1;
                assert_eq!(subsets.len(), 1);
                for subset in &subsets {
                    assert_valid_subset(subset, 3, cars.len());
                    let sum: u32 = subset.iter().map(|&i| cars[i].lap_time).sum();
                    assert!((57..=63).contains(&sum), "sum {} outside 57..=63", sum);
                }
            }
            Err(e) => assert!(
                matches!(
                    e,
                    SubsetError::NotEnoughSuccessfulRuns { .. } | SubsetError::TargetUnreachable { .. }
                ),
                "unexpected error {:?}",
                e
            ),
        }
    }
    assert!(successes > 0);
}

#[test]
fn scenario_more_players_than_disjoint_subsets() {
    let cars = pool(&[10, 20, 30, 40]);
    for _ in 0..20 {
        match perform_multiple_runs(&cars, 50, 2, 5, 1000, percent(5)) {
            Ok(subsets) => {
                assert_eq!(subsets.len(), 5);
                for subset in &subsets {
                    assert_valid_subset(subset, 2, cars.len());
                    let sum: u32 = subset.iter().map(|&i| cars[i].lap_time).sum();
                    assert!(within_tolerance(sum, 50, percent(5)));
                }
            }
            Err(e) => assert!(
                matches!(
                    e,
                    SubsetError::NotEnoughSuccessfulRuns { required: 5, .. }
                        | SubsetError::InsufficientCandidates(..)
                        | SubsetError::TargetUnreachable { .. }
                ),
                "unexpected error {:?}",
                e
            ),
        }
    }
}

#[test]
fn session_for_no_player_returns_no_subset() {
    let cars = pool(&[10, 20, 30]);
    assert_eq!(perform_multiple_runs(&cars, 60, 2, 0, 1000, percent(5)), Ok(vec![]));
    assert_eq!(perform_multiple_runs(&[], 0, 0, 0, 0, percent(5)), Ok(vec![]));
}

#[test]
fn session_passes_on_the_error_of_a_search() {
    let cars = pool(&[10, 20, 30]);
    assert_eq!(
        perform_multiple_runs(&cars, 60, 5, 2, 1000, percent(5)),
        Err(SubsetError::InsufficientCandidates(5, 3))
    );
    assert_eq!(
        perform_multiple_runs(&cars, 0, 1, 2, 1000, percent(5)),
        Err(SubsetError::TargetUnreachable {
            target: 0,
            current_sum: 0,
            min_possible: 10,
            max_possible: 30
        })
    );
}

#[test]
fn session_gives_up_when_the_time_is_spent() {
    let cars = pool(&[10, 20, 30]);
    assert_eq!(
        perform_multiple_runs(&cars, 60, 0, 3, 0, percent(5)),
        Err(SubsetError::NotEnoughSuccessfulRuns { required: 3, found: 0 })
    );
}

#[test]
fn session_accepts_the_empty_subset_within_a_full_tolerance() {
    let cars = pool(&[10, 20, 30]);
    assert_eq!(
        perform_multiple_runs(&cars, 60, 0, 2, 1000, percent(100)),
        Ok(vec![vec![], vec![]])
    );
}

#[test]
fn session_with_real_lap_times() {
    let cars = pool(&[
        61_250, 58_900, 63_410, 59_995, 60_120, 62_480, 57_730, 64_005, 60_860, 59_310, 61_775,
        58_240, 62_935, 60_505, 59_640, 63_120,
    ]);
    let (low, high) = get_target_range_for_subset(&cars, 4);
    let target = (low + high) / 2;
    match perform_multiple_runs(&cars, target, 4, 3, 3000, Tolerance { millipercent: 500 }) {
        Ok(subsets) => {
            assert_eq!(subsets.len(), 3);
            for subset in &subsets {
                assert_valid_subset(subset, 4, cars.len());
                let sum = calculate_subset_sum(&cars, subset);
                assert!(within_tolerance(sum, target, Tolerance { millipercent: 500 }));
            }
        }
        Err(e) => assert!(
            matches!(
                e,
                SubsetError::NotEnoughSuccessfulRuns { required: 3, .. }
                    | SubsetError::TargetUnreachable { .. }
            ),
            "unexpected error {:?}",
            e
        ),
    }
}

#[test]
fn errors_in_words() {
    assert_eq!(SubsetError::NoValidSubset.message(), "Failed to find a valid subset");
    assert_eq!(
        SubsetError::OutsideTolerance(98_500).message(),
        "Found subset is outside tolerance: 98.5% of target (acceptable range: 99-101%)"
    );
    assert_eq!(
        SubsetError::OutsideTolerance(102_000).message(),
        "Found subset is outside tolerance: 102% of target (acceptable range: 99-101%)"
    );
    assert_eq!(
        SubsetError::OutsideTolerance(101_050).message(),
        "Found subset is outside tolerance: 101.05% of target (acceptable range: 99-101%)"
    );
    assert_eq!(
        SubsetError::OutsideTolerance(7).message(),
        "Found subset is outside tolerance: 0.007% of target (acceptable range: 99-101%)"
    );
    assert_eq!(
        SubsetError::InsufficientCandidates(5, 3).message(),
        "Insufficient candidates: needed 5, but only 3 available"
    );
    assert_eq!(
        SubsetError::TargetUnreachable {
            target: 100,
            current_sum: 20,
            min_possible: 30,
            max_possible: 50
        }
        .message(),
        "Target 100 is unreachable. Current sum: 20. Possible range: [50 to 70]"
    );
    assert_eq!(
        SubsetError::NoPreviouslySelectedAvailable.message(),
        "No previously selected numbers available to use when needed"
    );
    assert_eq!(
        SubsetError::PreviouslySelectedInsufficient { needed: 12, available: 10 }.message(),
        "Even with previously selected numbers, still insufficient: needed 12, but only 10 available"
    );
    assert_eq!(
        SubsetError::NotEnoughSuccessfulRuns { required: 32, found: 7 }.message(),
        "Only 7/32 satisfactory subsets found within tolerance"
    );
}

#[test]
fn search_on_lap_times_whose_total_exceeds_31_bits() {
    let cars = pool(&[2_000_000_000, 1_000_000_000, 500_000_000]);
    let previous = HashSet::new();
    for _ in 0..50 {
        let mut subset =
            find_approximate_subset(&cars, 1_500_000_000, 2, &previous, percent(5)).unwrap();
        subset.sort();
        assert_eq!(subset, vec![1, 2]);
    }
    assert_eq!(
        perform_multiple_runs(&cars, 2_000_000_000, 1, 1, 5000, percent(5)),
        Ok(vec![vec![0]])
    );
    assert_eq!(get_target_range_for_subset(&cars, 2), (1_500_000_000, 3_000_000_000));
}

#[test]
fn search_for_three_of_three_cars_takes_them_all() {
    let cars = pool(&[10, 20, 30]);
    let previous = HashSet::new();
    for _ in 0..100 {
        let mut subset = find_approximate_subset(&cars, 60, 3, &previous, percent(5)).unwrap();
        subset.sort();
        assert_eq!(subset, vec![0, 1, 2]);
    }
}

#[test]
fn session_of_two_players_on_three_cars_reuses_them() {
    let cars = pool(&[10, 20, 30]);
    for _ in 0..50 {
        let subsets = perform_multiple_runs(&cars, 60, 3, 2, 60_000, percent(5)).unwrap();
        assert_eq!(subsets.len(), 2);
        for subset in subsets {
            let mut sorted = subset.clone();
            sorted.sort();
            assert_eq!(sorted, vec![0, 1, 2]);
        }
    }
}

#[test]
fn search_for_three_of_ten_cars_reaches_the_least_sum() {
    let cars = pool(&[10, 20, 30, 40, 50, 60, 70, 80, 90, 100]);
    let previous = HashSet::new();
    for _ in 0..200 {
        let mut subset = find_approximate_subset(&cars, 60, 3, &previous, percent(5)).unwrap();
        subset.sort();
        assert_eq!(subset, vec![0, 1, 2]);
    }
}

#[test]
fn session_on_ten_cars_succeeds_while_time_is_left() {
    let cars = pool(&[10, 20, 30, 40, 50, 60, 70, 80, 90, 100]);
    for _ in 0..50 {
        let subsets = perform_multiple_runs(&cars, 60, 3, 1, 60_000, percent(5)).unwrap();
        assert_eq!(subsets.len(), 1);
        let mut subset = subsets[0].clone();
        subset.sort();
        assert_eq!(subset, vec![0, 1, 2]);
    }
}

#[test]
fn unreachable_target_reports_the_bounds_of_the_candidates_used() {
    let cars = pool(&[10, 20, 30, 40]);
    let previous: HashSet<usize> = [3].into_iter().collect();
    assert_eq!(
        find_approximate_subset(&cars, 500, 2, &previous, percent(5)),
        Err(SubsetError::TargetUnreachable {
            target: 500,
            current_sum: 0,
            min_possible: 30,
            max_possible: 70
        })
    );
}
