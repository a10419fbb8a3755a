use random_karma::{
    analyze_multiple_runs, budget_check, budget_spent, candidates_in_window, contains_index, effective_timeout, fallback_strategy,
    find_closest_time, gap_of, handle_last_number, ideal_average_of, leftover_indexes, mark_selected, nearest_to,
    position_of, prepare_candidates, reusable_cars, select_candidate,
    set_members, time_distance, try_extend_with_previous, weight_of, weights_of, Car, CarUse,
    LapTimeBand, RunSession, SessionStep, SubsetCalculationConfig, SubsetError, Tolerance,
    WEIGHT_SCALE,
};
use std::collections::HashSet;

fn pool(lap_times: &[u32]) -> Vec<Car> {
    lap_times
        .iter()
        .enumerate()
        .map(|(i, &t)| Car { id: format!("car{}", i), lap_time: t })
        .collect()
}

fn set_of(items: &[usize]) -> HashSet<usize> {
    items.iter().copied().collect()
}

#[test]
fn closest_time_prefers_the_lower_of_two_equally_close() {
    let cars = pool(&[10, 20, 30, 40]);
    let all = [0, 1, 2, 3];
    assert_eq!(find_closest_time(&cars, &all, 24), 1);
    assert_eq!(find_closest_time(&cars, &all, 25), 1);
    assert_eq!(find_closest_time(&cars, &all, 26), 2);
    assert_eq!(find_closest_time(&cars, &all, 30), 2);
    assert_eq!(find_closest_time(&cars, &all, 5), 0);
    assert_eq!(find_closest_time(&cars, &all, 10), 0);
    assert_eq!(find_closest_time(&cars, &all, 100), 3);
    assert_eq!(find_closest_time(&cars, &[2], 1000), 2);
    assert_eq!(find_closest_time(&cars, &[1, 3], 29), 1);
    assert_eq!(find_closest_time(&cars, &[1, 3], 31), 3);
}

#[test]
fn time_distance_is_symmetric() {
    assert_eq!(time_distance(10, 25), 15);
    assert_eq!(time_distance(25, 10), 15);
    assert_eq!(time_distance(7, 7), 0);
    assert_eq!(time_distance(0, u32::MAX), u32::MAX);
}

#[test]
fn ideal_average_divides_the_remainder() {
    assert_eq!(ideal_average_of(60, 0, 2), 30);
    assert_eq!(ideal_average_of(100, 30, 3), 23);
    assert_eq!(ideal_average_of(60, 60, 2), 0);
    assert_eq!(ideal_average_of(60, 90, 2), 0);
    assert_eq!(ideal_average_of(u32::MAX, 0, 1), u32::MAX);
}

#[test]
fn nearest_takes_the_first_of_the_closest() {
    let cars = pool(&[10, 20, 30, 40, 50]);
    assert_eq!(nearest_to(&cars, &[0, 1, 4], 30), 1);
    assert_eq!(nearest_to(&cars, &[1, 3], 30), 1);
    assert_eq!(nearest_to(&cars, &[3, 1], 30), 3);
    assert_eq!(nearest_to(&cars, &[4], 0), 4);
}

#[test]
fn reusable_cars_are_those_not_in_the_subset() {
    let previous = set_of(&[1, 3, 5]);
    let mut found = reusable_cars(&previous, &[3, 4]);
    found.sort();
    assert_eq!(found, vec![1, 5]);
    assert_eq!(reusable_cars(&HashSet::new(), &[3]), Vec::<usize>::new());
    let mut members = set_members(&previous);
    members.sort();
    assert_eq!(members, vec![1, 3, 5]);
    assert!(contains_index(&[3, 4], 4));
    assert!(!contains_index(&[3, 4], 5));
    assert_eq!(position_of(&[7, 8, 7], 7), Some(0));
    assert_eq!(position_of(&[7, 8, 7], 8), Some(1));
    assert_eq!(position_of(&[7, 8, 7], 9), None);
}

#[test]
fn fallback_prefers_a_strictly_closer_reusable_car() {
    let cars = pool(&[10, 20, 30, 40, 50]);
    let previous = set_of(&[2]);
    assert_eq!(fallback_strategy(&cars, &[0, 1, 4], &previous, &[], 0, false, 60, 2), (2, true));
    assert_eq!(fallback_strategy(&cars, &[0, 1, 4], &previous, &[], 0, true, 60, 2), (1, true));
    assert_eq!(fallback_strategy(&cars, &[0, 1, 4], &previous, &[2], 0, false, 60, 2), (1, true));
    let equally_close = set_of(&[3]);
    assert_eq!(
        fallback_strategy(&cars, &[0, 1, 4], &equally_close, &[], 0, false, 60, 2),
        (1, true)
    );
    assert_eq!(
        fallback_strategy(&cars, &[0, 1, 4], &HashSet::new(), &[], 70, false, 60, 2),
        (0, true)
    );
}

#[test]
fn extension_adds_the_reusable_cars_behind_the_candidates() {
    let previous = set_of(&[1, 3, 5]);
    let mut candidates = vec![0, 2];
    assert!(try_extend_with_previous(&mut candidates, &previous, &[3]));
    assert_eq!(&candidates[..2], &[0, 2]);
    let mut added = candidates[2..].to_vec();
    added.sort();
    assert_eq!(added, vec![1, 5]);

    let mut untouched = vec![0, 2];
    assert!(!try_extend_with_previous(&mut untouched, &HashSet::new(), &[]));
    assert_eq!(untouched, vec![0, 2]);
    assert!(!try_extend_with_previous(&mut untouched, &previous, &[1, 3, 5]));
    assert_eq!(untouched, vec![0, 2]);
}

#[test]
fn window_keeps_the_candidates_between_its_ends() {
    let cars = pool(&[10, 20, 30, 40, 50]);
    assert_eq!(candidates_in_window(&cars, &[0, 1, 2, 3, 4], 20, 40), vec![1, 2, 3]);
    assert_eq!(candidates_in_window(&cars, &[4, 2, 0, 2], 25, 60), vec![4, 2, 2]);
    assert_eq!(candidates_in_window(&cars, &[0, 1], 30, 40), Vec::<usize>::new());
    assert_eq!(candidates_in_window(&cars, &[0, 1], 20, 10), Vec::<usize>::new());
    assert_eq!(gap_of(60, 25), 35);
    assert_eq!(gap_of(60, 60), 0);
    assert_eq!(gap_of(60, 75), 0);
}

#[test]
fn weight_is_the_scaled_inverse_of_the_distance_plus_one() {
    assert_eq!(weight_of(30, 60, 2), WEIGHT_SCALE);
    assert_eq!(weight_of(31, 60, 2), WEIGHT_SCALE / 2);
    assert_eq!(weight_of(29, 60, 2), WEIGHT_SCALE / 2);
    assert_eq!(weight_of(33, 60, 2), WEIGHT_SCALE / 4);
    assert_eq!(weight_of(30, 61, 2), WEIGHT_SCALE * 2 / 3);
    assert_eq!(weight_of(0, 0, 1), WEIGHT_SCALE);
    assert_eq!(weight_of(u32::MAX, 0, 1), WEIGHT_SCALE / (1u128 << 32));
    assert!(weight_of(u32::MAX, 0, usize::MAX) >= 1);
    let cars = pool(&[10, 20, 30, 40, 50]);
    assert_eq!(
        weights_of(&cars, &[2, 3], 60, 2),
        vec![WEIGHT_SCALE, WEIGHT_SCALE / 11]
    );
}

#[test]
fn choice_lies_in_the_window_where_candidates_do() {
    let cars = pool(&[10, 20, 30, 40, 50]);
    let mut rng = rand::rng();
    let mut chosen = HashSet::new();
    for _ in 0..300 {
        let (car, fallback) = select_candidate(
            &cars,
            &[0, 1, 2, 3, 4],
            &HashSet::new(),
            &[],
            0,
            false,
            70,
            2,
            &mut rng,
        );
        assert!(!fallback);
        assert!((1..=4).contains(&car), "car {} outside the window", car);
        chosen.insert(car);
    }
    assert!(chosen.len() > 1);
}

#[test]
fn choice_falls_back_where_the_window_is_empty() {
    let cars = pool(&[10, 20, 30, 40, 50]);
    let mut rng = rand::rng();
    assert_eq!(
        select_candidate(&cars, &[0, 1, 2, 3, 4], &HashSet::new(), &[], 0, false, 1000, 2, &mut rng),
        (4, true)
    );
    assert_eq!(
        select_candidate(&cars, &[0, 1, 2, 3, 4], &HashSet::new(), &[], 0, false, 5, 2, &mut rng),
        (0, true)
    );
}

#[test]
fn last_slot_takes_the_closest_match_or_the_fallback() {
    let cars = pool(&[10, 20, 30, 40]);
    let five = Tolerance { millipercent: 5000 };
    assert_eq!(
        handle_last_number(&cars, &[0, 1, 2, 3], &HashSet::new(), &[], 35, 65, five),
        (2, 65)
    );
    assert_eq!(
        handle_last_number(&cars, &[0, 1, 2, 3], &HashSet::new(), &[], 35, 60, five),
        (1, 55)
    );
    assert_eq!(
        handle_last_number(&cars, &[0, 3], &set_of(&[2]), &[1], 20, 52, five),
        (2, 50)
    );
}

#[test]
fn candidates_of_a_slot() {
    let cars = pool(&[10, 20, 30]);
    let remaining = vec![0, 1, 2];
    assert_eq!(
        prepare_candidates(&cars, &remaining, &HashSet::new(), &[], 0, 40, 2),
        Ok((vec![0, 1, 2], false))
    );
    assert_eq!(
        prepare_candidates(&cars, &remaining, &HashSet::new(), &[], 0, 100, 2),
        Err(SubsetError::TargetUnreachable {
            target: 100,
            current_sum: 0,
            min_possible: 30,
            max_possible: 50
        })
    );
    assert_eq!(
        prepare_candidates(&cars, &remaining, &HashSet::new(), &[], 0, 40, 4),
        Err(SubsetError::InsufficientCandidates(4, 3))
    );
    assert_eq!(
        prepare_candidates(&cars, &remaining, &set_of(&[1]), &[], 0, 40, 5),
        Err(SubsetError::PreviouslySelectedInsufficient { needed: 5, available: 4 })
    );
    assert_eq!(
        prepare_candidates(&cars, &remaining, &set_of(&[2]), &[], 0, 90, 4),
        Ok((vec![0, 1, 2, 2], true))
    );
    assert_eq!(
        prepare_candidates(&cars, &vec![0, 1], &set_of(&[2]), &[], 0, 45, 2),
        Ok((vec![0, 1, 2], true))
    );
    assert_eq!(
        prepare_candidates(&cars, &vec![0, 1], &set_of(&[2]), &[], 0, 100, 2),
        Err(SubsetError::TargetUnreachable {
            target: 100,
            current_sum: 0,
            min_possible: 30,
            max_possible: 50
        })
    );
}

#[test]
fn accepted_cars_join_the_cars_for_reuse() {
    let mut previous = set_of(&[1]);
    mark_selected(&mut previous, &[3, 1, 4]);
    assert_eq!(previous, set_of(&[1, 3, 4]));
}

#[test]
fn leftover_cars_are_those_of_no_earlier_subset() {
    let cars = pool(&[30, 10, 20, 10, 30, 5]);
    assert_eq!(leftover_indexes(&cars, &HashSet::new()), vec![5, 1, 3, 2, 0, 4]);
    assert_eq!(leftover_indexes(&cars, &set_of(&[1, 0])), vec![5, 3, 2, 4]);
    assert_eq!(leftover_indexes(&cars, &set_of(&[0, 1, 2, 3, 4, 5])), Vec::<usize>::new());
    assert_eq!(leftover_indexes(&[], &HashSet::new()), Vec::<usize>::new());
}

#[test]
fn the_clock_decides_when_a_session_gives_up() {
    assert_eq!(budget_check(5000, 5000, 4, 1), None);
    assert_eq!(
        budget_check(5001, 5000, 4, 1),
        Some(SubsetError::NotEnoughSuccessfulRuns { required: 4, found: 1 })
    );
    assert_eq!(
        budget_check(u128::MAX, u64::MAX, 2, 0),
        Some(SubsetError::NotEnoughSuccessfulRuns { required: 2, found: 0 })
    );
    assert_eq!(budget_check(0, 0, 2, 0), None);
}

fn session(target: u32, lap_count: usize, player_count: usize, timeout_ms: u64) -> RunSession {
    RunSession::new(SubsetCalculationConfig {
        target,
        lap_count,
        player_count,
        timeout_ms,
        tolerance: Tolerance { millipercent: 5000 },
    })
}

#[test]
fn a_session_reports_the_subsets_accepted_when_the_time_is_up() {
    let cars = pool(&[20, 20, 20, 20, 20, 20]);
    let mut running = session(40, 2, 3, 1000);
    assert_eq!(running.accepted_count(), 0);
    assert_eq!(running.step(&cars, 0), SessionStep::Searching);
    assert_eq!(running.accepted_count(), 1);
    assert_eq!(
        running.step(&cars, 1001),
        SessionStep::Failed(SubsetError::NotEnoughSuccessfulRuns { required: 3, found: 1 })
    );
    assert_eq!(running.accepted_count(), 1);
    assert_eq!(running.step(&cars, 1000), SessionStep::Searching);
    assert_eq!(running.accepted_count(), 2);
    assert_eq!(
        running.step(&cars, 5000),
        SessionStep::Failed(SubsetError::NotEnoughSuccessfulRuns { required: 3, found: 2 })
    );
    assert_eq!(running.step(&cars, 7), SessionStep::Complete);
    assert_eq!(running.step(&cars, u128::MAX), SessionStep::Complete);
    let subsets = running.into_results();
    assert_eq!(subsets.len(), 3);
    let mut all: Vec<usize> = subsets.concat();
    all.sort();
    assert_eq!(all, vec![0, 1, 2, 3, 4, 5]);
}

#[test]
fn a_session_runs_under_a_budget_of_at_least_a_tenth_of_a_second() {
    let cars = pool(&[20, 20]);
    let mut running = session(40, 2, 1, 0);
    assert_eq!(
        running.step(&cars, 101),
        SessionStep::Failed(SubsetError::NotEnoughSuccessfulRuns { required: 1, found: 0 })
    );
    assert_eq!(running.step(&cars, 100), SessionStep::Complete);
}

#[test]
fn a_session_passes_on_the_error_of_its_search() {
    let cars = pool(&[10, 20]);
    let mut short = session(30, 3, 1, 1000);
    assert_eq!(
        short.step(&cars, 0),
        SessionStep::Failed(SubsetError::InsufficientCandidates(3, 2))
    );
    assert_eq!(short.accepted_count(), 0);
    let mut far = session(100, 2, 1, 1000);
    assert_eq!(
        far.step(&cars, 0),
        SessionStep::Failed(SubsetError::TargetUnreachable {
            target: 100,
            current_sum: 0,
            min_possible: 30,
            max_possible: 30
        })
    );
    let mut none = session(30, 2, 0, 1000);
    assert_eq!(none.step(&cars, u128::MAX), SessionStep::Complete);
    assert_eq!(none.into_results(), Vec::<Vec<usize>>::new());
}

#[test]
fn a_session_searches_on_after_a_subset_outside_the_tolerance() {
    let cars = pool(&[10, 20, 30]);
    let mut running = session(60, 0, 1, 1000);
    assert_eq!(running.step(&cars, 0), SessionStep::Searching);
    assert_eq!(running.accepted_count(), 0);
}

#[test]
fn time_budget() {
    assert_eq!(effective_timeout(0), 100);
    assert_eq!(effective_timeout(99), 100);
    assert_eq!(effective_timeout(100), 100);
    assert_eq!(effective_timeout(5000), 5000);
    assert!(!budget_spent(5000, 5000));
    assert!(budget_spent(5001, 5000));
    assert!(!budget_spent(0, 0));
    assert!(budget_spent(u128::MAX, u64::MAX));
}

#[test]
fn default_configuration() {
    let config = SubsetCalculationConfig::default();
    assert_eq!(config.target, 0);
    assert_eq!(config.lap_count, 0);
    assert_eq!(config.player_count, 0);
    assert_eq!(config.timeout_ms, 5000);
    assert_eq!(config.tolerance, Tolerance { millipercent: 500 });
}

#[test]
fn analysis_ranks_the_most_used_cars() {
    let cars = vec![
        Car { id: "b".to_string(), lap_time: 35_000 },
        Car { id: "a".to_string(), lap_time: 45_000 },
        Car { id: "c".to_string(), lap_time: 95_000 },
        Car { id: "a".to_string(), lap_time: 45_500 },
        Car { id: "unused".to_string(), lap_time: 50_000 },
    ];
    let results = vec![vec![0, 1], vec![1, 2], vec![3, 0]];
    let analysis = analyze_multiple_runs(&cars, &results);
    assert_eq!(
        analysis.most_used,
        vec![
            CarUse { car: 1, count: 3 },
            CarUse { car: 0, count: 2 },
            CarUse { car: 2, count: 1 },
        ]
    );
    assert_eq!(analysis.fastest, Some(35_000));
    assert_eq!(analysis.slowest, Some(95_000));
    assert_eq!(
        analysis.bands,
        vec![
            LapTimeBand { start: 30_000, end: 40_000, count: 2 },
            LapTimeBand { start: 40_000, end: 50_000, count: 3 },
            LapTimeBand { start: 50_000, end: 60_000, count: 0 },
            LapTimeBand { start: 60_000, end: 70_000, count: 0 },
            LapTimeBand { start: 70_000, end: 80_000, count: 0 },
            LapTimeBand { start: 80_000, end: 90_000, count: 0 },
        ]
    );
}

#[test]
fn analysis_orders_equally_used_cars_by_identifier_and_lists_ten() {
    let names = ["k", "b", "j", "a", "i", "c", "h", "d", "g", "e", "f", "ab"];
    let cars: Vec<Car> =
        names.iter().map(|n| Car { id: n.to_string(), lap_time: 60_000 }).collect();
    let results = vec![(0..12).collect::<Vec<usize>>(), vec![0]];
    let analysis = analyze_multiple_runs(&cars, &results);
    let listed: Vec<usize> = analysis.most_used.iter().map(|u| u.car).collect();
    assert_eq!(listed, vec![0, 3, 11, 1, 5, 7, 9, 10, 8, 6]);
    assert_eq!(analysis.most_used[0], CarUse { car: 0, count: 2 });
    assert_eq!(analysis.most_used[1], CarUse { car: 3, count: 1 });
}

#[test]
fn analysis_of_nothing() {
    let analysis = analyze_multiple_runs(&[], &[]);
    assert!(analysis.most_used.is_empty());
    assert_eq!(analysis.fastest, None);
    assert_eq!(analysis.slowest, None);
    assert_eq!(analysis.bands.len(), 6);
    assert!(analysis.bands.iter().all(|b| b.count == 0));
    let cars = pool(&[10]);
    let empty = analyze_multiple_runs(&cars, &[vec![], vec![]]);
    assert!(empty.most_used.is_empty());
    assert_eq!(empty.fastest, None);
}

#[test]
fn cars_are_ordered_by_lap_time() {
    let fast = Car { id: "z".to_string(), lap_time: 10 };
    let slow = Car { id: "a".to_string(), lap_time: 20 };
    let twin = Car { id: "b".to_string(), lap_time: 10 };
    assert!(fast < slow);
    assert!(slow > fast);
    assert!(fast <= twin && fast >= twin);
    assert_eq!(fast.partial_cmp(&twin), Some(std::cmp::Ordering::Equal));
    assert_eq!(fast.partial_cmp(&slow), Some(std::cmp::Ordering::Less));
    assert_eq!(slow.partial_cmp(&twin), Some(std::cmp::Ordering::Greater));
    assert!(fast != twin);
    assert!(fast == fast.clone());
}

#[test]
fn every_subset_sums_within_the_feasible_range() {
    let cars = pool(&[40, 10, 30, 10, 50, 20]);
    for mask in 0u32..64 {
        let subset: Vec<usize> = (0..6).filter(|i| mask & (1 << i) != 0).collect();
        let (low, high) = random_karma::get_target_range_for_subset(&cars, subset.len());
        let sum = random_karma::calculate_subset_sum(&cars, &subset);
        assert!(low <= sum && sum <= high, "subset {:?}", subset);
    }
}
