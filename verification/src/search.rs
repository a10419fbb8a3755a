//! The search for one subset: `lap_count` distinct cars whose lap times sum
//! to about the target.

use vstd::prelude::*;
use std::collections::HashSet;
use crate::bounds::{
    calculate_min_max_sums, feasible_max, feasible_min, head_sum, lemma_head_tail_bounded,
    sorted_indexes, sorted_lap_times, tail_sum,
};
use crate::car::{get_lap_time, in_pool, lap_times_of, set_in_pool, Car, CarIndex};
use crate::closest::{closest_position, distance, find_closest_time};
use crate::error::SubsetError;
use crate::fallback::{
    fallback_choice, fallback_strategy, lemma_hash_set_finite, reusable, try_extend_with_previous,
};
use crate::picker::{gap, gap_of, select_candidate};
use crate::random::{shuffle_indexes, thread_rng};
use crate::sums::{
    lemma_lap_times_non_negative, lemma_lap_times_of_concat, lemma_lap_times_of_push,
    lemma_sum_push, lemma_sum_subrange, subset_sum, sum,
};
use crate::tolerance::{accuracy_within, within_tolerance, Tolerance};

verus! {

broadcast use vstd::std_specs::hash::group_hash_axioms;

/// `subset` holds `lap_count` distinct cars of a pool of `pool_len` cars.
pub open spec fn is_subset_of_pool(subset: Seq<CarIndex>, lap_count: nat, pool_len: nat) -> bool {
    &&& subset.len() == lap_count
    &&& subset.no_duplicates()
    &&& in_pool(subset, pool_len)
}

/// The bounds of an unreachable target: `min_possible` and `max_possible`
/// are the least and the greatest sum of `needed` of the candidates, which
/// are distinct cars of the pool, and the target lies outside them once
/// `current_sum` is added.
pub open spec fn shuts_out(
    cars: Seq<Car>,
    candidates: Seq<CarIndex>,
    needed: nat,
    current_sum: int,
    target: u32,
    min_possible: int,
    max_possible: int,
) -> bool {
    let times = lap_times_of(cars, candidates);
    &&& candidates.no_duplicates()
    &&& in_pool(candidates, cars.len())
    &&& 1 <= needed <= candidates.len()
    &&& min_possible == head_sum(times, needed)
    &&& max_possible == tail_sum(times, needed)
    &&& !(current_sum + min_possible <= target <= current_sum + max_possible)
}

/// The errors that a search can end in, with what each one reports: how
/// many cars were still needed and how many candidates there were (the cars
/// of the pool that the subset did not hold yet, each counted once), or the
/// bounds that shut the target out.
pub open spec fn is_search_error(
    cars: Seq<Car>,
    target: u32,
    lap_count: nat,
    error: SubsetError,
) -> bool {
    match error {
        SubsetError::InsufficientCandidates(needed, available) => {
            &&& 1 <= needed <= lap_count
            &&& available < needed
            &&& available + lap_count == cars.len() + needed
        },
        SubsetError::PreviouslySelectedInsufficient { needed, available } => {
            &&& 1 <= needed <= lap_count
            &&& available < needed
            &&& available + lap_count == cars.len() + needed
        },
        SubsetError::TargetUnreachable { target: wanted, current_sum, min_possible, max_possible } => {
            &&& wanted == target
            &&& exists|candidates: Seq<CarIndex>, needed: nat| #[trigger]
                shuts_out(
                    cars,
                    candidates,
                    needed,
                    current_sum as int,
                    target,
                    min_possible as int,
                    max_possible as int,
                ) && needed <= lap_count
        },
        _ => false,
    }
}

/// More cars are asked for than the pool holds, and none can be reused.
pub open spec fn too_few_cars(pool_len: nat, previous_len: nat, lap_count: nat) -> bool {
    lap_count > pool_len && previous_len == 0
}

/// More cars are asked for than the pool holds, the cars of earlier subsets
/// counted in.
pub open spec fn too_few_with_reuse(pool_len: nat, previous_len: nat, lap_count: nat) -> bool {
    previous_len > 0 && lap_count > pool_len
}

/// The target lies outside what `lap_count` cars of the pool can sum to, and
/// none can be reused.
pub open spec fn out_of_reach(cars: Seq<Car>, previous_len: nat, target: u32, lap_count: nat) -> bool {
    &&& 1 <= lap_count <= cars.len()
    &&& previous_len == 0
    &&& !(feasible_min(cars, lap_count) <= target <= feasible_max(cars, lap_count))
}

/// Two lists with the same entries: one is free of repetitions and within the
/// pool if the other is.
pub proof fn lemma_same_entries(a: Seq<CarIndex>, b: Seq<CarIndex>, pool_len: nat)
    requires
        a.to_multiset() == b.to_multiset(),
        b.no_duplicates(),
        in_pool(b, pool_len),
    ensures
        a.len() == b.len(),
        a.no_duplicates(),
        in_pool(a, pool_len),
{
    broadcast use vstd::seq_lib::group_to_multiset_ensures;

    a.to_multiset_ensures();
    b.to_multiset_ensures();
    b.lemma_multiset_has_no_duplicates();
    a.lemma_multiset_has_no_duplicates_conv();
    assert forall|i: int| 0 <= i < a.len() implies (#[trigger] a[i]) < pool_len by {
        assert(a.contains(a[i]));
        assert(b.to_multiset().count(a[i]) > 0);
        assert(b.contains(a[i]));
    }
}

/// Distinct cars of a pool are no more than the pool holds.
pub proof fn lemma_subset_fits_pool(indexes: Seq<CarIndex>, pool_len: nat)
    requires
        indexes.no_duplicates(),
        in_pool(indexes, pool_len),
    ensures
        indexes.len() <= pool_len,
    decreases pool_len,
{
    if pool_len == 0 {
        if indexes.len() > 0 {
            assert(indexes[0] < pool_len);
        }
    } else if exists|p: int| 0 <= p < indexes.len() && indexes[p] == pool_len - 1 {
        let p = choose|p: int| 0 <= p < indexes.len() && indexes[p] == pool_len - 1;
        let others = indexes.remove(p);
        lemma_remove_keeps(indexes, p, pool_len);
        assert forall|i: int| 0 <= i < others.len() implies (#[trigger] others[i]) < pool_len
            - 1 by {
            let oi = if i < p { i } else { i + 1 };
            assert(others[i] == indexes[oi]);
            assert(indexes[oi] != indexes[p]);
        }
        lemma_subset_fits_pool(others, (pool_len - 1) as nat);
    } else {
        assert forall|i: int| 0 <= i < indexes.len() implies (#[trigger] indexes[i]) < pool_len
            - 1 by {
            assert(indexes[i] < pool_len);
        }
        lemma_subset_fits_pool(indexes, (pool_len - 1) as nat);
    }
}

/// The first position of `x` in `list`.
pub fn position_of(list: &[CarIndex], x: CarIndex) -> (found: Option<usize>)
    ensures
        match found {
            Some(p) => p < list@.len() && list@[p as int] == x && forall|j: int|
                0 <= j < p ==> list@[j] != x,
            None => !list@.contains(x),
        },
{
    let mut i: usize = 0;
    while i < list.len()
        invariant
            i <= list@.len(),
            forall|j: int| 0 <= j < i ==> list@[j] != x,
        decreases list@.len() - i,
    {
        if list[i] == x {
            return Some(i);
        }
        i += 1;
    }
    None
}

/// Total lap time of the cars of a subset.
pub fn calculate_subset_sum(cars: &[Car], subset: &[CarIndex]) -> (total: u32)
    requires
        in_pool(subset@, cars@.len()),
        subset_sum(cars@, subset@) <= u32::MAX,
    ensures
        total == subset_sum(cars@, subset@),
{
    let ghost times = lap_times_of(cars@, subset@);
    proof {
        lemma_lap_times_non_negative(cars@, subset@);
    }
    let mut total: u32 = 0;
    let mut i: usize = 0;
    while i < subset.len()
        invariant
            i <= subset@.len(),
            in_pool(subset@, cars@.len()),
            times == lap_times_of(cars@, subset@),
            crate::sums::non_negative(times),
            sum(times) <= u32::MAX,
            total == sum(times.take(i as int)),
        decreases subset@.len() - i,
    {
        proof {
            lemma_sum_subrange(times, 0, i + 1);
            assert(times.take(i + 1) =~= times.take(i as int).push(times[i as int]));
            lemma_sum_push(times.take(i as int), times[i as int]);
        }
        total = total + get_lap_time(cars, subset[i]);
        i += 1;
    }
    assert(times.take(subset@.len() as int) =~= times);
    total
}

/// What the choice for the last slot may be: the candidate that the search
/// by halving finds for the exact remainder, if the sum then lies within
/// tolerance; otherwise whatever the fallback chooses for one open slot with
/// reuse not yet active.
pub open spec fn last_choice(
    cars: Seq<Car>,
    candidates: Seq<CarIndex>,
    previous: Set<CarIndex>,
    selected: Seq<CarIndex>,
    current_sum: int,
    target: int,
    millipercent: int,
    chosen: CarIndex,
) -> bool {
    let needed = gap(target, current_sum);
    let best = candidates[closest_position(lap_times_of(cars, candidates), needed)];
    if accuracy_within(current_sum + cars[best as int].lap_time, target, millipercent) {
        chosen == best
    } else {
        fallback_choice(cars, candidates, previous, selected, current_sum, false, target, 1, chosen)
    }
}

/// Chooses the car for the last slot, and returns it with the sum that the
/// subset then has. The fallback's answer is taken as it is: whether the
/// subset lies within tolerance is judged where subsets are accepted.
pub fn handle_last_number(
    cars: &[Car],
    candidates: &[CarIndex],
    previously_selected: &HashSet<CarIndex>,
    selected: &[CarIndex],
    current_sum: u32,
    target: u32,
    tolerance: Tolerance,
) -> (choice: (CarIndex, u32))
    requires
        candidates@.len() > 0,
        in_pool(candidates@, cars@.len()),
        set_in_pool(previously_selected@, cars@.len()),
        forall|x: CarIndex|
            #![trigger candidates@.contains(x)]
            #![trigger reusable(previously_selected@, selected@, x)]
            candidates@.contains(x) || reusable(previously_selected@, selected@, x) ==> current_sum
                + cars@[x as int].lap_time <= u32::MAX,
    ensures
        last_choice(
            cars@,
            candidates@,
            previously_selected@,
            selected@,
            current_sum as int,
            target as int,
            tolerance.millipercent as int,
            choice.0,
        ),
        choice.0 < cars@.len(),
        choice.1 == current_sum + cars@[choice.0 as int].lap_time,
        candidates@.contains(choice.0) || reusable(previously_selected@, selected@, choice.0),
{
    let needed = gap_of(target, current_sum);
    let best_match_idx = find_closest_time(cars, candidates, needed);
    let best_match_sum = current_sum + get_lap_time(cars, best_match_idx);
    if !within_tolerance(best_match_sum, target, tolerance) {
        let (fallback_idx, _) = fallback_strategy(
            cars,
            candidates,
            previously_selected,
            selected,
            current_sum,
            false,
            target,
            1,
        );
        return (fallback_idx, current_sum + get_lap_time(cars, fallback_idx));
    }
    (best_match_idx, best_match_sum)
}

/// The cars of earlier subsets that are not in the current one.
pub open spec fn reusable_set(previous: Set<CarIndex>, selected: Seq<CarIndex>) -> Set<CarIndex> {
    Set::new(|x: CarIndex| reusable(previous, selected, x))
}

/// With these candidates the open slots can still bring the sum to the
/// target: it lies between the least and the greatest sum within reach.
pub open spec fn target_within_reach(
    cars: Seq<Car>,
    candidates: Seq<CarIndex>,
    current_sum: int,
    target: int,
    remaining_needed: nat,
) -> bool {
    let times = lap_times_of(cars, candidates);
    current_sum + head_sum(times, remaining_needed) <= target <= current_sum + tail_sum(
        times,
        remaining_needed,
    )
}

/// What the candidates of one slot are, given the cars that are left.
///
/// The cars that are left come first, as they stand. Behind them stand the
/// reusable cars, each once, if they were called in: that happens where the
/// cars that are left are too few, or cannot reach the target.
pub open spec fn candidates_for_slot(
    remaining: Seq<CarIndex>,
    previous: Set<CarIndex>,
    selected: Seq<CarIndex>,
    candidates: Seq<CarIndex>,
    using_previous_cars: bool,
) -> bool {
    let added = candidates.skip(remaining.len() as int);
    &&& candidates.len() >= remaining.len()
    &&& candidates.take(remaining.len() as int) == remaining
    &&& added.no_duplicates()
    &&& forall|x: CarIndex| added.contains(x) ==> reusable(previous, selected, x)
    &&& using_previous_cars == (added.len() > 0)
    &&& using_previous_cars ==> added.to_set() == reusable_set(previous, selected)
}

/// The sums that a slot forms fit in 32 bits: the sum so far with the least
/// and with the greatest sum that the candidates give to `needed` slots.
pub open spec fn slot_sums_fit(
    cars: Seq<Car>,
    candidates: Seq<CarIndex>,
    current_sum: int,
    needed: nat,
) -> bool {
    let times = lap_times_of(cars, candidates);
    current_sum + head_sum(times, needed) <= u32::MAX && current_sum + tail_sum(times, needed)
        <= u32::MAX
}

/// The rule of the candidates of one slot.
///
/// `candidates` are the cars that are left and, behind them, the reusable
/// cars if they were called in (`using_previous_cars`). They are called in
/// where there is a reusable car and the cars that are left are fewer than
/// the open slots or cannot reach the target. With fewer candidates than
/// open slots the slot fails, with `PreviouslySelectedInsufficient` if the
/// reusable cars were called in and with `InsufficientCandidates` if not.
/// With a target out of the candidates' reach it fails with
/// `TargetUnreachable`, which reports the least and the greatest sum that
/// the candidates give to the open slots. Otherwise the slot has its
/// candidates.
pub open spec fn slot_rule(
    cars: Seq<Car>,
    remaining: Seq<CarIndex>,
    previous: Set<CarIndex>,
    selected: Seq<CarIndex>,
    current_sum: int,
    target: u32,
    needed: int,
    candidates: Seq<CarIndex>,
    using_previous_cars: bool,
    prepared: Result<(Vec<CarIndex>, bool), SubsetError>,
) -> bool {
    let short = remaining.len() < needed || !target_within_reach(
        cars,
        remaining,
        current_sum,
        target as int,
        needed as nat,
    );
    let times = lap_times_of(cars, candidates);
    &&& candidates_for_slot(remaining, previous, selected, candidates, using_previous_cars)
    &&& using_previous_cars <==> short && exists|x: CarIndex| reusable(previous, selected, x)
    &&& if candidates.len() < needed {
        if using_previous_cars {
            prepared matches Err(SubsetError::PreviouslySelectedInsufficient { needed: n, available })
                && n == needed && available == candidates.len()
        } else {
            prepared matches Err(SubsetError::InsufficientCandidates(n, available)) && n == needed
                && available == candidates.len()
        }
    } else if !target_within_reach(cars, candidates, current_sum, target as int, needed as nat) {
        prepared matches Err(
            SubsetError::TargetUnreachable { target: wanted, current_sum: reached, min_possible, max_possible },
        ) && wanted == target && reached == current_sum && min_possible == head_sum(
            times,
            needed as nat,
        ) && max_possible == tail_sum(times, needed as nat)
    } else {
        prepared matches Ok((list, flag)) && list@ == candidates && flag == using_previous_cars
    }
}

/// `prepared` is what the rule of the candidates gives for some order of the
/// reusable cars.
pub open spec fn is_prepared(
    cars: Seq<Car>,
    remaining: Seq<CarIndex>,
    previous: Set<CarIndex>,
    selected: Seq<CarIndex>,
    current_sum: int,
    target: u32,
    needed: int,
    prepared: Result<(Vec<CarIndex>, bool), SubsetError>,
) -> bool {
    exists|candidates: Seq<CarIndex>, using_previous_cars: bool| #[trigger]
        slot_rule(
            cars,
            remaining,
            previous,
            selected,
            current_sum,
            target,
            needed,
            candidates,
            using_previous_cars,
            prepared,
        )
}

/// The rule of the choice for one slot: the last slot takes what
/// `last_choice` allows; any other slot takes a candidate in the valid
/// window if there is one, and what the fallback allows if there is none.
pub open spec fn slot_choice(
    cars: Seq<Car>,
    candidates: Seq<CarIndex>,
    previous: Set<CarIndex>,
    selected: Seq<CarIndex>,
    current_sum: int,
    using_previous_cars: bool,
    target: u32,
    needed: int,
    tolerance: Tolerance,
    chosen: CarIndex,
) -> bool {
    if needed == 1 {
        last_choice(
            cars,
            candidates,
            previous,
            selected,
            current_sum,
            target as int,
            tolerance.millipercent as int,
            chosen,
        )
    } else if crate::picker::window_has_candidate(
        cars,
        candidates,
        current_sum,
        target as int,
        needed,
    ) {
        let (low, high) = crate::picker::window(cars, candidates, current_sum, target as int, needed);
        candidates.contains(chosen) && low <= cars[chosen as int].lap_time <= high
    } else {
        fallback_choice(
            cars,
            candidates,
            previous,
            selected,
            current_sum,
            using_previous_cars,
            target as int,
            needed,
            chosen,
        )
    }
}

/// A list without the car, if it holds it.
pub open spec fn without(list: Seq<CarIndex>, car: CarIndex) -> Seq<CarIndex> {
    if list.contains(car) {
        list.remove(list.index_of(car))
    } else {
        list
    }
}

/// What a search returns from a slot on, with `selected` chosen so far and
/// `remaining` left of the cars that no earlier subset holds.
///
/// With the subset full, it returns the subset in some order. Otherwise the
/// candidates of the slot are prepared by `slot_rule`; if that fails, the
/// search fails with that error; if not, a car is chosen by `slot_choice`,
/// joins the subset, leaves the cars that are left if it was one of them,
/// and the search goes on from the next slot.
pub open spec fn search_from(
    cars: Seq<Car>,
    target: u32,
    lap_count: int,
    previous: Set<CarIndex>,
    tolerance: Tolerance,
    selected: Seq<CarIndex>,
    remaining: Seq<CarIndex>,
    found: Result<Vec<CarIndex>, SubsetError>,
) -> bool
    decreases lap_count - selected.len(),
{
    if selected.len() >= lap_count {
        found matches Ok(subset) && subset@.to_multiset() == selected.to_multiset()
    } else {
        exists|prepared: Result<(Vec<CarIndex>, bool), SubsetError>| #[trigger]
            is_prepared(
                cars,
                remaining,
                previous,
                selected,
                subset_sum(cars, selected),
                target,
                lap_count - selected.len(),
                prepared,
            ) && match prepared {
                Err(error) => found == Err::<Vec<CarIndex>, SubsetError>(error),
                Ok((candidates, using_previous_cars)) => exists|chosen: CarIndex| #[trigger]
                    slot_choice(
                        cars,
                        candidates@,
                        previous,
                        selected,
                        subset_sum(cars, selected),
                        using_previous_cars,
                        target,
                        lap_count - selected.len(),
                        tolerance,
                        chosen,
                    ) && search_from(
                        cars,
                        target,
                        lap_count,
                        previous,
                        tolerance,
                        selected.push(chosen),
                        without(remaining, chosen),
                        found,
                    ),
            }
    }
}

/// A search that fails at a slot is a search from that slot.
proof fn lemma_search_from_error(
    cars: Seq<Car>,
    target: u32,
    lap_count: int,
    previous: Set<CarIndex>,
    tolerance: Tolerance,
    selected: Seq<CarIndex>,
    remaining: Seq<CarIndex>,
    prepared: Result<(Vec<CarIndex>, bool), SubsetError>,
)
    requires
        selected.len() < lap_count,
        is_prepared(
            cars,
            remaining,
            previous,
            selected,
            subset_sum(cars, selected),
            target,
            lap_count - selected.len(),
            prepared,
        ),
        prepared is Err,
    ensures
        search_from(
            cars,
            target,
            lap_count,
            previous,
            tolerance,
            selected,
            remaining,
            Err::<Vec<CarIndex>, SubsetError>(prepared->Err_0),
        ),
{
}

/// A search from the next slot is a search from this slot, by the candidates
/// and the choice of this slot.
proof fn lemma_search_from_step(
    cars: Seq<Car>,
    target: u32,
    lap_count: int,
    previous: Set<CarIndex>,
    tolerance: Tolerance,
    selected: Seq<CarIndex>,
    remaining: Seq<CarIndex>,
    prepared: Result<(Vec<CarIndex>, bool), SubsetError>,
    chosen: CarIndex,
)
    requires
        selected.len() < lap_count,
        is_prepared(
            cars,
            remaining,
            previous,
            selected,
            subset_sum(cars, selected),
            target,
            lap_count - selected.len(),
            prepared,
        ),
        prepared matches Ok((candidates, using_previous_cars)) && slot_choice(
            cars,
            candidates@,
            previous,
            selected,
            subset_sum(cars, selected),
            using_previous_cars,
            target,
            lap_count - selected.len(),
            tolerance,
            chosen,
        ),
    ensures
        forall|found: Result<Vec<CarIndex>, SubsetError>| #[trigger]
            search_from(
                cars,
                target,
                lap_count,
                previous,
                tolerance,
                selected.push(chosen),
                without(remaining, chosen),
                found,
            ) ==> search_from(cars, target, lap_count, previous, tolerance, selected, remaining, found),
{
}

/// Builds the candidates of one slot, and says whether reuse is active.
///
/// Fails where there are fewer candidates than open slots, and where the
/// target is out of reach, in either case after the reusable cars were
/// called in, if there are any.
pub fn prepare_candidates(
    cars: &[Car],
    remaining_indexes: &Vec<CarIndex>,
    previously_selected: &HashSet<CarIndex>,
    selected: &[CarIndex],
    current_sum: u32,
    target: u32,
    remaining_needed: usize,
) -> (prepared: Result<(Vec<CarIndex>, bool), SubsetError>)
    requires
        remaining_needed >= 1,
        in_pool(remaining_indexes@, cars@.len()),
        set_in_pool(previously_selected@, cars@.len()),
        forall|candidates: Seq<CarIndex>, using_previous_cars: bool| #[trigger]
            candidates_for_slot(
                remaining_indexes@,
                previously_selected@,
                selected@,
                candidates,
                using_previous_cars,
            ) && candidates.len() >= remaining_needed ==> slot_sums_fit(
                cars@,
                candidates,
                current_sum as int,
                remaining_needed as nat,
            ),
    ensures
        is_prepared(
            cars@,
            remaining_indexes@,
            previously_selected@,
            selected@,
            current_sum as int,
            target,
            remaining_needed as int,
            prepared,
        ),
        prepared matches Ok((candidates, using_previous_cars)) ==> {
            &&& candidates_for_slot(
                remaining_indexes@,
                previously_selected@,
                selected@,
                candidates@,
                using_previous_cars,
            )
            &&& candidates@.len() >= remaining_needed
            &&& in_pool(candidates@, cars@.len())
            &&& slot_sums_fit(cars@, candidates@, current_sum as int, remaining_needed as nat)
            &&& target_within_reach(
                cars@,
                candidates@,
                current_sum as int,
                target as int,
                remaining_needed as nat,
            )
        },
{
    let ghost left = remaining_indexes@;
    let ghost pool_len = cars@.len();
    let mut candidates = remaining_indexes.clone();
    let mut using_previous_cars = false;
    proof {
        assert(candidates@ =~= left);
        lemma_hash_set_finite(previously_selected);
        lemma_reusable_set(previously_selected@, selected@);
        assert(left.take(left.len() as int) =~= left);
        assert(left.skip(left.len() as int) =~= Seq::<CarIndex>::empty());
    }
    if remaining_needed > candidates.len() {
        let extended = try_extend_with_previous(&mut candidates, previously_selected, selected);
        let ghost added = candidates@.skip(left.len() as int);
        proof {
            lemma_added_is_spare(previously_selected@, selected@, added);
        }
        if !extended {
            assert(candidates@ =~= left);
            let outcome = Err(
                SubsetError::InsufficientCandidates(remaining_needed, candidates.len()),
            );
            proof {
                assert(slot_rule(
                    cars@,
                    left,
                    previously_selected@,
                    selected@,
                    current_sum as int,
                    target,
                    remaining_needed as int,
                    candidates@,
                    false,
                    outcome,
                ));
            }
            return outcome;
        }
        using_previous_cars = true;
        proof {
            assert(candidates@ =~= left + added);
            lemma_added_in_pool(previously_selected@, selected@, added, pool_len);
        }
        if candidates.len() < remaining_needed {
            let outcome = Err(
                SubsetError::PreviouslySelectedInsufficient {
                    needed: remaining_needed,
                    available: candidates.len(),
                },
            );
            proof {
                assert(slot_rule(
                    cars@,
                    left,
                    previously_selected@,
                    selected@,
                    current_sum as int,
                    target,
                    remaining_needed as int,
                    candidates@,
                    true,
                    outcome,
                ));
            }
            return outcome;
        }
    }
    proof {
        assert(candidates_for_slot(
            left,
            previously_selected@,
            selected@,
            candidates@,
            using_previous_cars,
        ));
        lemma_lap_times_non_negative(cars@, candidates@);
        lemma_head_tail_bounded(lap_times_of(cars@, candidates@), remaining_needed as nat);
    }
    let (min_possible, max_possible) = calculate_min_max_sums(
        cars,
        candidates.as_slice(),
        remaining_needed,
    );
    if current_sum + min_possible > target || current_sum + max_possible < target {
        if using_previous_cars {
            let outcome = Err(
                SubsetError::TargetUnreachable { target, current_sum, min_possible, max_possible },
            );
            proof {
                assert(slot_rule(
                    cars@,
                    left,
                    previously_selected@,
                    selected@,
                    current_sum as int,
                    target,
                    remaining_needed as int,
                    candidates@,
                    true,
                    outcome,
                ));
            }
            return outcome;
        }
        let extended = try_extend_with_previous(&mut candidates, previously_selected, selected);
        let ghost added = candidates@.skip(left.len() as int);
        proof {
            lemma_added_is_spare(previously_selected@, selected@, added);
        }
        if !extended {
            assert(candidates@ =~= left);
            let outcome = Err(
                SubsetError::TargetUnreachable { target, current_sum, min_possible, max_possible },
            );
            proof {
                assert(slot_rule(
                    cars@,
                    left,
                    previously_selected@,
                    selected@,
                    current_sum as int,
                    target,
                    remaining_needed as int,
                    candidates@,
                    false,
                    outcome,
                ));
            }
            return outcome;
        }
        using_previous_cars = true;
        proof {
            assert(candidates@ =~= left + added);
            lemma_added_in_pool(previously_selected@, selected@, added, pool_len);
            assert(candidates_for_slot(left, previously_selected@, selected@, candidates@, true));
            lemma_lap_times_non_negative(cars@, candidates@);
            lemma_head_tail_bounded(lap_times_of(cars@, candidates@), remaining_needed as nat);
        }
        let (new_min, new_max) = calculate_min_max_sums(
            cars,
            candidates.as_slice(),
            remaining_needed,
        );
        if current_sum + new_min <= target && current_sum + new_max >= target {
        } else {
            let outcome = Err(
                SubsetError::TargetUnreachable {
                    target,
                    current_sum,
                    min_possible: new_min,
                    max_possible: new_max,
                },
            );
            proof {
                assert(slot_rule(
                    cars@,
                    left,
                    previously_selected@,
                    selected@,
                    current_sum as int,
                    target,
                    remaining_needed as int,
                    candidates@,
                    true,
                    outcome,
                ));
            }
            return outcome;
        }
    }
    let ghost list = candidates@;
    let outcome = Ok((candidates, using_previous_cars));
    proof {
        assert(slot_rule(
            cars@,
            left,
            previously_selected@,
            selected@,
            current_sum as int,
            target,
            remaining_needed as int,
            list,
            using_previous_cars,
            outcome,
        ));
    }
    outcome
}

/// What holds between the slots of a search: the cars that are left are the
/// cars of the pool that neither an earlier subset nor the subset so far
/// holds, each standing once, and `current_sum` is the sum of the subset so
/// far.
pub open spec fn search_state(
    cars: Seq<Car>,
    previous: Set<CarIndex>,
    selected: Seq<CarIndex>,
    remaining: Seq<CarIndex>,
    current_sum: int,
) -> bool {
    &&& selected.no_duplicates()
    &&& in_pool(selected, cars.len())
    &&& remaining.no_duplicates()
    &&& in_pool(remaining, cars.len())
    &&& forall|i: int, j: int|
        0 <= i < selected.len() && 0 <= j < remaining.len() ==> selected[i] != remaining[j]
    &&& forall|j: int| 0 <= j < remaining.len() ==> !previous.contains(#[trigger] remaining[j])
    &&& forall|x: CarIndex|
        x < cars.len() && !selected.contains(x) && !previous.contains(x) ==> remaining.contains(x)
    &&& current_sum == subset_sum(cars, selected)
}

/// The cars that no earlier subset holds, each once, in ascending order of
/// lap time.
pub open spec fn is_leftover(cars: Seq<Car>, previous: Set<CarIndex>, left: Seq<CarIndex>) -> bool {
    &&& left.no_duplicates()
    &&& in_pool(left, cars.len())
    &&& crate::bounds::sorted_by_lap_time(cars, left)
    &&& forall|j: int| 0 <= j < left.len() ==> !previous.contains(#[trigger] left[j])
    &&& forall|x: CarIndex| x < cars.len() && !previous.contains(x) ==> left.contains(x)
}

/// The cars that no earlier subset holds, in ascending order of lap time,
/// cars with equal lap times in pool order.
pub fn leftover_indexes(cars: &[Car], previously_selected: &HashSet<CarIndex>) -> (left: Vec<
    CarIndex,
>)
    ensures
        is_leftover(cars@, previously_selected@, left@),
        previously_selected@.len() == 0 ==> left@.len() == cars@.len() && lap_times_of(
            cars@,
            left@,
        ) == sorted_lap_times(cars@),
{
    let sorted = sorted_indexes(cars);
    let mut left: Vec<CarIndex> = Vec::new();
    let mut i: usize = 0;
    proof {
        lemma_hash_set_finite(previously_selected);
        if previously_selected@.len() == 0 {
            previously_selected@.lemma_len0_is_empty();
        }
        assert(sorted@.take(0) =~= Seq::<CarIndex>::empty());
    }
    while i < sorted.len()
        invariant
            i <= sorted@.len(),
            sorted@.len() == cars@.len(),
            sorted@.no_duplicates(),
            in_pool(sorted@, cars@.len()),
            crate::bounds::sorted_by_lap_time(cars@, sorted@),
            left@.no_duplicates(),
            in_pool(left@, cars@.len()),
            crate::bounds::sorted_by_lap_time(cars@, left@),
            forall|k: int| 0 <= k < left@.len() ==> !previously_selected@.contains(#[trigger] left@[k]),
            forall|k: int|
                0 <= k < left@.len() ==> exists|j: int| 0 <= j < i && sorted@[j] == #[trigger] left@[k],
            forall|j: int|
                0 <= j < i && !previously_selected@.contains(#[trigger] sorted@[j])
                    ==> left@.contains(sorted@[j]),
            previously_selected@.finite(),
            previously_selected@.len() == 0 ==> left@ == sorted@.take(i as int),
        decreases sorted@.len() - i,
    {
        let x = sorted[i];
        let ghost before = left@;
        if !previously_selected.contains(&x) {
            left.push(x);
            proof {
                assert forall|a: int, b: int|
                    0 <= a < left@.len() && 0 <= b < left@.len() && a != b implies left@[a]
                    != left@[b] by {
                    if a < before.len() && b < before.len() {
                    } else if a < before.len() {
                        let j = choose|j: int| 0 <= j < i && sorted@[j] == before[a];
                        assert(sorted@[j] != sorted@[i as int]);
                    } else {
                        let j = choose|j: int| 0 <= j < i && sorted@[j] == before[b];
                        assert(sorted@[j] != sorted@[i as int]);
                    }
                }
                assert forall|a: int, b: int| 0 <= a < b < left@.len() implies cars@[(
                #[trigger] left@[a]) as int].lap_time <= cars@[(#[trigger] left@[b]) as int].lap_time by {
                    if b < before.len() {
                        assert(left@[a] == before[a] && left@[b] == before[b]);
                    } else {
                        let j = choose|j: int| 0 <= j < i && sorted@[j] == before[a];
                        assert(cars@[sorted@[j] as int].lap_time
                            <= cars@[sorted@[i as int] as int].lap_time);
                    }
                }
                assert forall|k: int| 0 <= k < left@.len() implies exists|j: int|
                    0 <= j < i + 1 && sorted@[j] == #[trigger] left@[k] by {
                    if k < before.len() {
                        let j = choose|j: int| 0 <= j < i && sorted@[j] == before[k];
                        assert(0 <= j < i + 1 && sorted@[j] == left@[k]);
                    } else {
                        assert(sorted@[i as int] == left@[k]);
                    }
                }
                assert forall|j: int|
                    0 <= j < i + 1 && !previously_selected@.contains(
                        #[trigger] sorted@[j],
                    ) implies left@.contains(sorted@[j]) by {
                    if j < i {
                        assert(before.contains(sorted@[j]));
                        let k = choose|k: int| 0 <= k < before.len() && before[k] == sorted@[j];
                        assert(left@[k] == sorted@[j]);
                    } else {
                        assert(left@[before.len() as int] == sorted@[j]);
                    }
                }
                if previously_selected@.len() == 0 {
                    assert(left@ =~= sorted@.take(i + 1));
                }
            }
        } else {
            proof {
                if previously_selected@.len() == 0 {
                    previously_selected@.lemma_len0_is_empty();
                }
                assert forall|k: int| 0 <= k < left@.len() implies exists|j: int|
                    0 <= j < i + 1 && sorted@[j] == #[trigger] left@[k] by {
                    let j = choose|j: int| 0 <= j < i && sorted@[j] == left@[k];
                    assert(0 <= j < i + 1 && sorted@[j] == left@[k]);
                }
            }
        }
        i += 1;
    }
    proof {
        assert forall|x: CarIndex|
            x < cars@.len() && !previously_selected@.contains(x) implies left@.contains(x) by {
            assert(sorted@.contains(x));
            let j = choose|j: int| 0 <= j < sorted@.len() && sorted@[j] == x;
            assert(!previously_selected@.contains(sorted@[j]));
        }
        if previously_selected@.len() == 0 {
            assert(sorted@.take(sorted@.len() as int) =~= sorted@);
        }
    }
    left
}

/// Distinct cars of the pool, no more than `lap_count`, sum within 32 bits
/// where the `lap_count` longest lap times do.
pub proof fn lemma_distinct_sum_fits(cars: Seq<Car>, list: Seq<CarIndex>, lap_count: nat)
    requires
        list.no_duplicates(),
        in_pool(list, cars.len()),
        list.len() <= lap_count <= cars.len(),
        feasible_max(cars, lap_count) <= u32::MAX,
    ensures
        0 <= subset_sum(cars, list) <= u32::MAX,
{
    crate::laws::feasible_range_bounds_every_subset(cars, list);
    crate::laws::feasible_range_is_in_order(cars, list.len());
    crate::bounds::lemma_feasible_max_grows(cars, list.len(), lap_count);
}

/// The candidates of a slot are cars of the pool, each once, and none of them
/// is in the subset so far.
pub proof fn lemma_candidates_distinct(
    cars: Seq<Car>,
    previous: Set<CarIndex>,
    selected: Seq<CarIndex>,
    remaining: Seq<CarIndex>,
    current_sum: int,
    candidates: Seq<CarIndex>,
    using_previous_cars: bool,
)
    requires
        set_in_pool(previous, cars.len()),
        search_state(cars, previous, selected, remaining, current_sum),
        candidates_for_slot(remaining, previous, selected, candidates, using_previous_cars),
    ensures
        candidates.no_duplicates(),
        in_pool(candidates, cars.len()),
        forall|i: int, j: int|
            0 <= i < selected.len() && 0 <= j < candidates.len() ==> selected[i] != candidates[j],
{
    let split = remaining.len() as int;
    let added = candidates.skip(split);
    assert forall|j: int| 0 <= j < candidates.len() implies (if j < split {
        candidates[j] == remaining[j]
    } else {
        added.contains(candidates[j]) && reusable(previous, selected, candidates[j])
    }) by {
        if j < split {
            assert(candidates.take(split)[j] == candidates[j]);
        } else {
            assert(added[j - split] == candidates[j]);
        }
    }
    assert forall|i: int, j: int|
        0 <= i < candidates.len() && 0 <= j < candidates.len() && i != j implies candidates[i]
        != candidates[j] by {
        if i < split && j < split {
            assert(remaining[i] != remaining[j]);
        } else if i >= split && j >= split {
            assert(added[i - split] != added[j - split]);
        } else if i < split {
            assert(!previous.contains(remaining[i]));
        } else {
            assert(!previous.contains(remaining[j]));
        }
    }
    assert forall|j: int| 0 <= j < candidates.len() implies (#[trigger] candidates[j])
        < cars.len() by {
        if j < split {
            assert(remaining[j] < cars.len());
        }
    }
    assert forall|i: int, j: int|
        0 <= i < selected.len() && 0 <= j < candidates.len() implies selected[i]
        != candidates[j] by {
        if j < split {
            assert(selected[i] != remaining[j]);
        } else {
            assert(selected.contains(selected[i]));
        }
    }
}

/// In a search whose sums fit, the sums of a slot fit for its candidates, for
/// all the open slots or fewer, wherever there are candidates for all.
proof fn lemma_slot_sums_fit(
    cars: Seq<Car>,
    previous: Set<CarIndex>,
    selected: Seq<CarIndex>,
    remaining: Seq<CarIndex>,
    current_sum: int,
    lap_count: nat,
    candidates: Seq<CarIndex>,
    using_previous_cars: bool,
    slots: nat,
)
    requires
        set_in_pool(previous, cars.len()),
        search_state(cars, previous, selected, remaining, current_sum),
        crate::bounds::search_sums_fit(cars, lap_count),
        selected.len() < lap_count,
        candidates_for_slot(remaining, previous, selected, candidates, using_previous_cars),
        candidates.len() >= lap_count - selected.len(),
        slots <= lap_count - selected.len(),
    ensures
        lap_count <= cars.len(),
        slot_sums_fit(cars, candidates, current_sum, slots),
        0 <= current_sum <= u32::MAX,
{
    lemma_candidates_distinct(
        cars,
        previous,
        selected,
        remaining,
        current_sum,
        candidates,
        using_previous_cars,
    );
    let needed = (lap_count - selected.len()) as int;
    let all = selected + candidates.take(needed);
    let first = candidates.take(slots as int);
    let last = candidates.skip(candidates.len() - slots);
    let low = selected + first;
    let high = selected + last;
    vstd::seq_lib::lemma_no_dup_in_concat(selected, candidates.take(needed));
    vstd::seq_lib::lemma_no_dup_in_concat(selected, first);
    vstd::seq_lib::lemma_no_dup_in_concat(selected, last);
    assert(in_pool(all, cars.len()));
    assert(in_pool(low, cars.len()));
    assert(in_pool(high, cars.len()));
    lemma_subset_fits_pool(all, cars.len());
    lemma_distinct_sum_fits(cars, low, lap_count);
    lemma_distinct_sum_fits(cars, high, lap_count);
    lemma_distinct_sum_fits(cars, selected, lap_count);
    lemma_lap_times_of_concat(cars, selected, first);
    lemma_lap_times_of_concat(cars, selected, last);
    let times = lap_times_of(cars, candidates);
    assert(lap_times_of(cars, first) =~= times.take(slots as int));
    assert(lap_times_of(cars, last) =~= times.skip(times.len() - slots));
}

/// In a search whose sums fit, a car that is not in the subset so far can
/// join it, once there are candidates for all the open slots.
proof fn lemma_next_car_fits(
    cars: Seq<Car>,
    previous: Set<CarIndex>,
    selected: Seq<CarIndex>,
    remaining: Seq<CarIndex>,
    current_sum: int,
    lap_count: nat,
    car: CarIndex,
)
    requires
        search_state(cars, previous, selected, remaining, current_sum),
        selected.len() < lap_count <= cars.len(),
        feasible_max(cars, lap_count) <= u32::MAX,
        car < cars.len(),
        !selected.contains(car),
    ensures
        current_sum + cars[car as int].lap_time <= u32::MAX,
{
    let longer = selected.push(car);
    assert(longer.no_duplicates()) by {
        assert forall|i: int, j: int|
            0 <= i < longer.len() && 0 <= j < longer.len() && i != j implies longer[i]
            != longer[j] by {
            if i < selected.len() && j < selected.len() {
            } else if i < selected.len() {
                assert(selected.contains(selected[i]));
            } else {
                assert(selected.contains(selected[j]));
            }
        }
    }
    assert(in_pool(longer, cars.len()));
    lemma_distinct_sum_fits(cars, longer, lap_count);
    lemma_lap_times_of_push(cars, selected, car);
}

/// Moving a car from the cars that are left into the subset keeps the search
/// state.
pub proof fn lemma_search_state_step(
    cars: Seq<Car>,
    previous: Set<CarIndex>,
    selected: Seq<CarIndex>,
    remaining: Seq<CarIndex>,
    current_sum: int,
    p: int,
)
    requires
        search_state(cars, previous, selected, remaining, current_sum),
        0 <= p < remaining.len(),
    ensures
        search_state(
            cars,
            previous,
            selected.push(remaining[p]),
            remaining.remove(p),
            current_sum + cars[remaining[p] as int].lap_time,
        ),
{
    let chosen = remaining[p];
    let longer = selected.push(chosen);
    let rest = remaining.remove(p);
    assert forall|j: int| 0 <= j < rest.len() implies !previous.contains(#[trigger] rest[j]) by {
        let oj = if j < p { j } else { j + 1 };
        assert(rest[j] == remaining[oj]);
    }
    lemma_remove_keeps(remaining, p, cars.len());
    lemma_lap_times_of_push(cars, selected, chosen);
    assert(longer.no_duplicates()) by {
        assert forall|i: int, j: int|
            0 <= i < longer.len() && 0 <= j < longer.len() && i != j implies longer[i]
            != longer[j] by {
            if i < selected.len() && j < selected.len() {
            } else if i < selected.len() {
                assert(selected[i] != remaining[p]);
            } else {
                assert(selected[j] != remaining[p]);
            }
        }
    }
    assert forall|i: int, j: int| 0 <= i < longer.len() && 0 <= j < rest.len() implies longer[i]
        != rest[j] by {
        let oj = if j < p { j } else { j + 1 };
        assert(rest[j] == remaining[oj]);
        if i < selected.len() {
            assert(longer[i] == selected[i]);
            assert(selected[i] != remaining[oj]);
        } else {
            assert(longer[i] == remaining[p]);
        }
    }
    assert forall|x: CarIndex|
        x < cars.len() && !longer.contains(x) && !previous.contains(x) implies rest.contains(
        x,
    ) by {
        assert(!selected.contains(x)) by {
            if selected.contains(x) {
                let i = choose|i: int| 0 <= i < selected.len() && selected[i] == x;
                assert(longer[i] == x);
            }
        }
        assert(remaining.contains(x));
        let k = choose|k: int| 0 <= k < remaining.len() && remaining[k] == x;
        assert(longer[selected.len() as int] == chosen);
        assert(k != p);
        let nk = if k < p { k } else { k - 1 };
        assert(rest[nk] == x);
    }
}

/// Taking a reusable car into the subset keeps the search state.
pub proof fn lemma_search_state_reuse(
    cars: Seq<Car>,
    previous: Set<CarIndex>,
    selected: Seq<CarIndex>,
    remaining: Seq<CarIndex>,
    current_sum: int,
    chosen: CarIndex,
)
    requires
        search_state(cars, previous, selected, remaining, current_sum),
        chosen < cars.len(),
        reusable(previous, selected, chosen),
    ensures
        search_state(
            cars,
            previous,
            selected.push(chosen),
            remaining,
            current_sum + cars[chosen as int].lap_time,
        ),
{
    let longer = selected.push(chosen);
    lemma_lap_times_of_push(cars, selected, chosen);
    assert(longer.no_duplicates()) by {
        assert forall|i: int, j: int|
            0 <= i < longer.len() && 0 <= j < longer.len() && i != j implies longer[i]
            != longer[j] by {
            if i < selected.len() && j < selected.len() {
            } else if i < selected.len() {
                assert(selected.contains(selected[i]));
            } else {
                assert(selected.contains(selected[j]));
            }
        }
    }
    assert forall|x: CarIndex|
        x < cars.len() && !longer.contains(x) && !previous.contains(x) implies remaining.contains(
        x,
    ) by {
        if selected.contains(x) {
            let i = choose|i: int| 0 <= i < selected.len() && selected[i] == x;
            assert(longer[i] == x);
        }
    }
}

/// In a search state the subset so far, the cars that are left and the
/// reusable cars are the pool, each car once.
pub proof fn lemma_search_state_count(
    cars: Seq<Car>,
    previous: Set<CarIndex>,
    selected: Seq<CarIndex>,
    remaining: Seq<CarIndex>,
    current_sum: int,
)
    requires
        cars.len() <= usize::MAX,
        previous.finite(),
        set_in_pool(previous, cars.len()),
        search_state(cars, previous, selected, remaining, current_sum),
    ensures
        remaining.len() + reusable_set(previous, selected).len() + selected.len() == cars.len(),
{
    let n = cars.len();
    let spare = reusable_set(previous, selected);
    let taken = selected.to_set();
    let left = remaining.to_set();
    let whole = crate::bounds::identity(n).to_set();
    lemma_reusable_set(previous, selected);
    selected.unique_seq_to_set();
    remaining.unique_seq_to_set();
    assert(crate::bounds::identity(n).no_duplicates());
    crate::bounds::identity(n).unique_seq_to_set();
    vstd::seq_lib::seq_to_set_is_finite(selected);
    vstd::seq_lib::seq_to_set_is_finite(remaining);
    assert(taken.disjoint(left)) by {
        assert forall|x: CarIndex| !(taken.contains(x) && left.contains(x)) by {
            if selected.contains(x) && remaining.contains(x) {
                let i = choose|i: int| 0 <= i < selected.len() && selected[i] == x;
                let j = choose|j: int| 0 <= j < remaining.len() && remaining[j] == x;
                assert(selected[i] != remaining[j]);
            }
        }
    }
    assert((taken + left).disjoint(spare)) by {
        assert forall|x: CarIndex| !((taken + left).contains(x) && spare.contains(x)) by {
            if remaining.contains(x) && spare.contains(x) {
                let j = choose|j: int| 0 <= j < remaining.len() && remaining[j] == x;
                assert(!previous.contains(remaining[j]));
            }
        }
    }
    vstd::set_lib::lemma_set_disjoint_lens(taken, left);
    vstd::set_lib::lemma_set_disjoint_lens(taken + left, spare);
    assert(taken + left + spare =~= whole) by {
        assert forall|x: CarIndex| (taken + left + spare).contains(x) <==> whole.contains(x) by {
            if whole.contains(x) {
                let i = choose|i: int| 0 <= i < n && crate::bounds::identity(n)[i] == x;
                assert(x < n);
            }
            if x < n {
                assert(crate::bounds::identity(n)[x as int] == x);
            }
            if selected.contains(x) {
                let i = choose|i: int| 0 <= i < selected.len() && selected[i] == x;
                assert(selected[i] < n);
            }
            if remaining.contains(x) {
                let j = choose|j: int| 0 <= j < remaining.len() && remaining[j] == x;
                assert(remaining[j] < n);
            }
        }
    }
}

/// A car of the pool that no earlier subset holds.
pub open spec fn is_left(cars: Seq<Car>, previous: Set<CarIndex>, car: CarIndex) -> bool {
    car < cars.len() && !previous.contains(car)
}

/// The target lies between the lap times of two cars that are left.
pub open spec fn single_within_reach(cars: Seq<Car>, previous: Set<CarIndex>, target: u32) -> bool {
    exists|a: CarIndex, b: CarIndex|
        #![trigger is_left(cars, previous, a), is_left(cars, previous, b)]
        is_left(cars, previous, a) && is_left(cars, previous, b) && cars[a as int].lap_time
            <= target <= cars[b as int].lap_time
}

/// Some car that is left lies within tolerance of the target by itself.
pub open spec fn single_within_tolerance(
    cars: Seq<Car>,
    previous: Set<CarIndex>,
    target: u32,
    tolerance: Tolerance,
) -> bool {
    exists|c: CarIndex|
        #![trigger is_left(cars, previous, c)]
        is_left(cars, previous, c) && accuracy_within(
            cars[c as int].lap_time as int,
            target as int,
            tolerance.millipercent as int,
        )
}

/// `car` is a car that is left, and no car that is left has a lap time
/// closer to the target.
pub open spec fn is_closest_left(
    cars: Seq<Car>,
    previous: Set<CarIndex>,
    target: u32,
    car: CarIndex,
) -> bool {
    &&& is_left(cars, previous, car)
    &&& forall|c: CarIndex|
        #![trigger is_left(cars, previous, c)]
        is_left(cars, previous, c) ==> distance(cars[car as int].lap_time as int, target as int)
            <= distance(cars[c as int].lap_time as int, target as int)
}

/// A sum that is no farther from the target than a sum within tolerance is
/// within tolerance.
pub proof fn lemma_closer_is_within(near: int, far: int, target: int, millipercent: int)
    requires
        accuracy_within(far, target, millipercent),
        distance(near, target) <= distance(far, target),
        0 <= millipercent,
    ensures
        accuracy_within(near, target, millipercent),
{
    assert((100_000 - millipercent) * target == 100_000 * target - millipercent * target)
        by (nonlinear_arith);
    assert((100_000 + millipercent) * target == 100_000 * target + millipercent * target)
        by (nonlinear_arith);
    assert(0 <= millipercent * target) by (nonlinear_arith)
        requires
            0 <= millipercent,
            0 < target,
    ;
}

/// Where the target lies between the lap times of two cars that are left,
/// the cars that are left reach it with one car.
proof fn lemma_single_reach(
    cars: Seq<Car>,
    previous: Set<CarIndex>,
    left: Seq<CarIndex>,
    target: u32,
)
    requires
        is_leftover(cars, previous, left),
        single_within_reach(cars, previous, target),
    ensures
        left.len() >= 1,
        target_within_reach(cars, left, 0, target as int, 1),
{
    let (a, b) = choose|a: CarIndex, b: CarIndex|
        #![trigger is_left(cars, previous, a), is_left(cars, previous, b)]
        is_left(cars, previous, a) && is_left(cars, previous, b) && cars[a as int].lap_time
            <= target <= cars[b as int].lap_time;
    assert(left.contains(a));
    assert(left.contains(b));
    let i = choose|i: int| 0 <= i < left.len() && left[i] == a;
    let j = choose|j: int| 0 <= j < left.len() && left[j] == b;
    let times = lap_times_of(cars, left);
    let last = left.len() - 1;
    assert(times.take(1) =~= Seq::<int>::empty().push(times[0]));
    lemma_sum_push(Seq::<int>::empty(), times[0]);
    assert(times.skip(last) =~= Seq::<int>::empty().push(times[last]));
    lemma_sum_push(Seq::<int>::empty(), times[last]);
    if 0 < i {
        assert(cars[left[0] as int].lap_time <= cars[left[i] as int].lap_time);
    }
    if j < last {
        assert(cars[left[j] as int].lap_time <= cars[left[last] as int].lap_time);
    }
}

/// The choice for the one slot of a search for one car: where some car that
/// is left lies within tolerance, it is a car that is left and closest to the
/// target.
proof fn lemma_single_pick(
    cars: Seq<Car>,
    previous: Set<CarIndex>,
    left: Seq<CarIndex>,
    target: u32,
    tolerance: Tolerance,
    chosen: CarIndex,
)
    requires
        is_leftover(cars, previous, left),
        left.len() >= 1,
        last_choice(
            cars,
            left,
            previous,
            Seq::<CarIndex>::empty(),
            0,
            target as int,
            tolerance.millipercent as int,
            chosen,
        ),
        single_within_tolerance(cars, previous, target, tolerance),
    ensures
        is_closest_left(cars, previous, target, chosen),
{
    let times = lap_times_of(cars, left);
    assert(crate::closest::ascending(times)) by {
        assert forall|i: int, j: int| 0 <= i <= j < times.len() implies times[i] <= times[j] by {
            if i < j {
                assert(cars[left[i] as int].lap_time <= cars[left[j] as int].lap_time);
            }
        }
    }
    crate::closest::lemma_closest_position_is_closest(times, target as int);
    let p = closest_position(times, target as int);
    let best = left[p];
    let c = choose|c: CarIndex|
        #![trigger is_left(cars, previous, c)]
        is_left(cars, previous, c) && accuracy_within(
            cars[c as int].lap_time as int,
            target as int,
            tolerance.millipercent as int,
        );
    assert(left.contains(c));
    let k = choose|k: int| 0 <= k < left.len() && left[k] == c;
    assert(distance(times[p], target as int) <= distance(times[k], target as int));
    lemma_closer_is_within(
        cars[best as int].lap_time as int,
        cars[c as int].lap_time as int,
        target as int,
        tolerance.millipercent as int,
    );
    assert(chosen == best);
    assert forall|x: CarIndex| #![trigger is_left(cars, previous, x)] is_left(
        cars,
        previous,
        x,
    ) implies distance(cars[chosen as int].lap_time as int, target as int) <= distance(
        cars[x as int].lap_time as int,
        target as int,
    ) by {
        assert(left.contains(x));
        let m = choose|m: int| 0 <= m < left.len() && left[m] == x;
        assert(distance(times[p], target as int) <= distance(times[m], target as int));
    }
}

/// Two lists with the same entries hold the same cars.
proof fn lemma_rearranged(after: Seq<CarIndex>, before: Seq<CarIndex>)
    requires
        after.to_multiset() == before.to_multiset(),
    ensures
        forall|x: CarIndex| after.contains(x) <==> before.contains(x),
{
    broadcast use vstd::seq_lib::group_to_multiset_ensures;

    after.to_multiset_ensures();
    before.to_multiset_ensures();
    assert forall|x: CarIndex| after.contains(x) <==> before.contains(x) by {
        assert(after.contains(x) <==> after.to_multiset().count(x) > 0);
        assert(before.contains(x) <==> before.to_multiset().count(x) > 0);
    }
}

/// A list of one entry keeps its entry however it is arranged.
proof fn lemma_single_entry(after: Seq<CarIndex>, before: Seq<CarIndex>)
    requires
        after.to_multiset() == before.to_multiset(),
        before.len() == 1,
    ensures
        after.len() == 1,
        after[0] == before[0],
{
    broadcast use vstd::seq_lib::group_to_multiset_ensures;

    after.to_multiset_ensures();
    before.to_multiset_ensures();
    assert(after.contains(after[0]));
    assert(before.to_multiset().count(after[0]) > 0);
    assert(before.contains(after[0]));
}

/// All the cars that are left have the lap time `lap_time`, there are at
/// least `lap_count` of them, and `lap_count` of them sum to the target, which
/// is not zero.
pub open spec fn uniform_search(
    cars: Seq<Car>,
    previous: Set<CarIndex>,
    target: u32,
    lap_count: nat,
    lap_time: u32,
) -> bool {
    &&& forall|c: CarIndex|
        #![trigger is_left(cars, previous, c)]
        is_left(cars, previous, c) ==> cars[c as int].lap_time == lap_time
    &&& lap_count + previous.len() <= cars.len()
    &&& target == lap_count * lap_time
    &&& target > 0
}

/// Every car of the list is a car that is left, with the lap time `lap_time`.
pub open spec fn all_left_with(
    cars: Seq<Car>,
    previous: Set<CarIndex>,
    list: Seq<CarIndex>,
    lap_time: u32,
) -> bool {
    forall|i: int|
        0 <= i < list.len() ==> is_left(cars, previous, #[trigger] list[i])
            && cars[list[i] as int].lap_time == lap_time
}

/// A sequence whose entries are all the same sums to that entry times its
/// length.
pub proof fn lemma_constant_sum(s: Seq<int>, value: int)
    requires
        forall|i: int| 0 <= i < s.len() ==> s[i] == value,
    ensures
        sum(s) == s.len() * value,
    decreases s.len(),
{
    if s.len() > 0 {
        lemma_constant_sum(s.drop_last(), value);
        assert((s.len() - 1) * value + value == s.len() * value) by (nonlinear_arith);
    }
}

/// A slot of a search among cars of one lap time: enough cars are left, and
/// the target is within their reach by exactly the open slots.
proof fn lemma_uniform_slot(
    cars: Seq<Car>,
    previous: Set<CarIndex>,
    selected: Seq<CarIndex>,
    remaining: Seq<CarIndex>,
    current_sum: int,
    target: u32,
    lap_count: nat,
    t: u32,
)
    requires
        cars.len() <= usize::MAX,
        previous.finite(),
        set_in_pool(previous, cars.len()),
        search_state(cars, previous, selected, remaining, current_sum),
        uniform_search(cars, previous, target, lap_count, t),
        all_left_with(cars, previous, selected, t),
        current_sum == selected.len() * t,
        selected.len() < lap_count,
    ensures
        remaining.len() >= lap_count - selected.len(),
        forall|j: int| 0 <= j < remaining.len() ==> cars[(#[trigger] remaining[j]) as int].lap_time == t,
        ({
            let needed = (lap_count - selected.len()) as nat;
            let times = lap_times_of(cars, remaining);
            &&& head_sum(times, needed) == needed * t
            &&& tail_sum(times, needed) == needed * t
            &&& head_sum(times, (needed - 1) as nat) == (needed - 1) * t
            &&& tail_sum(times, (needed - 1) as nat) == (needed - 1) * t
            &&& current_sum + needed * t == target
            &&& target_within_reach(cars, remaining, current_sum, target as int, needed)
        }),
{
    let needed = (lap_count - selected.len()) as nat;
    let times = lap_times_of(cars, remaining);
    lemma_search_state_count(cars, previous, selected, remaining, current_sum);
    assert(reusable_set(previous, selected) =~= previous) by {
        assert forall|x: CarIndex| previous.contains(x) implies !selected.contains(x) by {
            if selected.contains(x) {
                let i = choose|i: int| 0 <= i < selected.len() && selected[i] == x;
                assert(is_left(cars, previous, selected[i]));
            }
        }
    }
    assert forall|j: int| 0 <= j < remaining.len() implies cars[(
    #[trigger] remaining[j]) as int].lap_time == t by {
        assert(is_left(cars, previous, remaining[j]));
    }
    let k = selected.len() as int;
    let l = lap_count as int;
    assert(k * t + (l - k) * t == l * t) by (nonlinear_arith);
    let m = needed as int;
    let from = times.len() - m;
    let head = times.take(m);
    let tail = times.skip(from);
    let short_head = times.take(m - 1);
    let short_tail = times.skip(from + 1);
    assert forall|i: int| 0 <= i < head.len() implies #[trigger] head[i] == t as int by {
        assert(head[i] == cars[remaining[i] as int].lap_time);
    }
    lemma_constant_sum(head, t as int);
    assert forall|i: int| 0 <= i < tail.len() implies #[trigger] tail[i] == t as int by {
        assert(tail[i] == cars[remaining[from + i] as int].lap_time);
    }
    lemma_constant_sum(tail, t as int);
    assert forall|i: int| 0 <= i < short_head.len() implies #[trigger] short_head[i]
        == t as int by {
        assert(short_head[i] == cars[remaining[i] as int].lap_time);
    }
    lemma_constant_sum(short_head, t as int);
    assert forall|i: int| 0 <= i < short_tail.len() implies #[trigger] short_tail[i]
        == t as int by {
        assert(short_tail[i] == cars[remaining[from + 1 + i] as int].lap_time);
    }
    lemma_constant_sum(short_tail, t as int);
}

/// The choice for a slot of a search among cars of one lap time is one of
/// the cars that are left.
proof fn lemma_uniform_choice(
    cars: Seq<Car>,
    previous: Set<CarIndex>,
    selected: Seq<CarIndex>,
    remaining: Seq<CarIndex>,
    current_sum: int,
    target: u32,
    tolerance: Tolerance,
    needed: nat,
    t: u32,
    chosen: CarIndex,
    fell_back: bool,
)
    requires
        needed >= 1,
        remaining.len() >= needed,
        target > 0,
        forall|j: int| 0 <= j < remaining.len() ==> cars[(#[trigger] remaining[j]) as int].lap_time == t,
        head_sum(lap_times_of(cars, remaining), (needed - 1) as nat) == (needed - 1) * t,
        tail_sum(lap_times_of(cars, remaining), (needed - 1) as nat) == (needed - 1) * t,
        current_sum + needed * t == target,
        0 <= current_sum,
        needed == 1 ==> last_choice(
            cars,
            remaining,
            previous,
            selected,
            current_sum,
            target as int,
            tolerance.millipercent as int,
            chosen,
        ),
        needed > 1 ==> fell_back == !crate::picker::window_has_candidate(
            cars,
            remaining,
            current_sum,
            target as int,
            needed as int,
        ) && (!fell_back ==> remaining.contains(chosen)),
    ensures
        remaining.contains(chosen),
{
    let times = lap_times_of(cars, remaining);
    assert((needed - 1) * t + t == needed * t) by (nonlinear_arith);
    if needed == 1 {
        assert(gap(target as int, current_sum) == t);
        crate::closest::lemma_closest_position_in_range(times, t as int);
        let p = closest_position(times, t as int);
        let best = remaining[p];
        assert(cars[best as int].lap_time == t);
        let m = tolerance.millipercent as int;
        assert((100_000 - m) * target <= 100_000 * target <= (100_000 + m) * target)
            by (nonlinear_arith)
            requires
                0 <= m,
                0 < target,
        ;
        assert(chosen == best);
    } else {
        assert(cars[remaining[0] as int].lap_time == t);
        assert(crate::picker::window(cars, remaining, current_sum, target as int, needed as int)
            == (t as int, t as int));
    }
}

/// What a search may return, whatever the draws.
///
/// Success is a subset of `lap_count` distinct cars of the pool; failure is
/// one of the search's errors. The cars to search among are those that no
/// earlier subset holds; the cars of earlier subsets stand by for reuse. So a
/// search for more cars than the pool holds fails, at its first slot with
/// `InsufficientCandidates` if there is nothing to reuse, and with
/// `PreviouslySelectedInsufficient` if there is. A search whose target lies
/// outside the feasible range fails with `TargetUnreachable` if there is
/// nothing to reuse. A search for no car succeeds, and so does a search for
/// one car with a target in the feasible range and nothing to reuse.
///
/// A search for one car succeeds wherever the target lies between the lap
/// times of two cars that are left. If one of them lies within tolerance, the
/// search returns a car that is left and closest to the target: a car of an
/// earlier subset is taken only where no car that is left will do.
///
/// Where all the cars that are left have one lap time, there are enough of
/// them and they hit the target exactly, a search succeeds whatever the
/// draws, and takes cars that are left and no other.
///
/// In every case the result comes about slot by slot as `search_from` says,
/// from the cars that are left in ascending order of lap time and the empty
/// subset: each slot's candidates obey `slot_rule`, each choice obeys
/// `slot_choice`, and a slot's error is the search's error.
pub open spec fn search_outcome(
    cars: Seq<Car>,
    target: u32,
    lap_count: nat,
    previous: Set<CarIndex>,
    tolerance: Tolerance,
    found: Result<Vec<CarIndex>, SubsetError>,
) -> bool {
    &&& found matches Ok(subset) ==> is_subset_of_pool(subset@, lap_count, cars.len())
    &&& found matches Err(error) ==> is_search_error(cars, target, lap_count, error)
    &&& lap_count == 0 ==> found is Ok
    &&& lap_count > cars.len() ==> found is Err
    &&& too_few_cars(cars.len(), previous.len(), lap_count) ==> (found matches Err(
        SubsetError::InsufficientCandidates(needed, available),
    ) && needed == lap_count && available == cars.len())
    &&& too_few_with_reuse(cars.len(), previous.len(), lap_count) ==> (found matches Err(
        SubsetError::PreviouslySelectedInsufficient { needed, available },
    ) && needed == lap_count && available == cars.len())
    &&& out_of_reach(cars, previous.len(), target, lap_count) ==> (found matches Err(
        SubsetError::TargetUnreachable { target: wanted, current_sum, min_possible, max_possible },
    ) && wanted == target && current_sum == 0 && min_possible == feasible_min(cars, lap_count)
        && max_possible == feasible_max(cars, lap_count))
    &&& lap_count == 1 && cars.len() >= 1 && previous.len() == 0 && feasible_min(cars, 1) <= target
        <= feasible_max(cars, 1) ==> found is Ok
    &&& lap_count == 1 && single_within_reach(cars, previous, target) ==> (found matches Ok(subset)
        && (single_within_tolerance(cars, previous, target, tolerance) ==> is_closest_left(
        cars,
        previous,
        target,
        subset@[0],
    )))
    &&& forall|lap_time: u32| #[trigger]
        uniform_search(cars, previous, target, lap_count, lap_time) ==> (found matches Ok(subset)
            && all_left_with(cars, previous, subset@, lap_time))
    &&& exists|left: Seq<CarIndex>| #[trigger]
        is_leftover(cars, previous, left) && search_from(
            cars,
            target,
            lap_count as int,
            previous,
            tolerance,
            Seq::<CarIndex>::empty(),
            left,
            found,
        )
}

/// The start of a search: the cars that are left and the cars of earlier
/// subsets make up the pool, and with no earlier subset the cars that are
/// left are the whole pool in ascending order of lap time.
proof fn lemma_search_start(cars: Seq<Car>, previous: Set<CarIndex>, left: Seq<CarIndex>)
    requires
        cars.len() <= usize::MAX,
        previous.finite(),
        set_in_pool(previous, cars.len()),
        is_leftover(cars, previous, left),
    ensures
        subset_sum(cars, Seq::<CarIndex>::empty()) == 0,
        search_state(cars, previous, Seq::<CarIndex>::empty(), left, 0),
        reusable_set(previous, Seq::<CarIndex>::empty()) == previous,
        left.len() + previous.len() == cars.len(),
        previous.len() == 0 ==> lap_times_of(cars, left) == sorted_lap_times(cars),
{
    let none = Seq::<CarIndex>::empty();
    assert(lap_times_of(cars, none) =~= Seq::<int>::empty());
    assert(reusable_set(previous, none) =~= previous);
    lemma_search_state_count(cars, previous, none, left, 0);
    if previous.len() == 0 {
        previous.lemma_len0_is_empty();
        crate::bounds::lemma_sorted_cover(cars, left);
    }
}

/// With these candidates the search goes on to `found`: by some choice that
/// the slot allows, and the search from the next slot.
pub open spec fn search_goes_on(
    cars: Seq<Car>,
    target: u32,
    lap_count: int,
    previous: Set<CarIndex>,
    tolerance: Tolerance,
    selected: Seq<CarIndex>,
    remaining: Seq<CarIndex>,
    candidates: Seq<CarIndex>,
    using_previous_cars: bool,
    found: Result<Vec<CarIndex>, SubsetError>,
) -> bool {
    exists|chosen: CarIndex| #[trigger]
        slot_choice(
            cars,
            candidates,
            previous,
            selected,
            subset_sum(cars, selected),
            using_previous_cars,
            target,
            lap_count - selected.len(),
            tolerance,
            chosen,
        ) && search_from(
            cars,
            target,
            lap_count,
            previous,
            tolerance,
            selected.push(chosen),
            without(remaining, chosen),
            found,
        )
}

/// One slot of a search, taken apart: the candidates, whether cars of earlier
/// subsets are among them, and what the preparation gave. Where it gave an
/// error the search ends in it; else the search goes on from some choice.
proof fn lemma_search_slot(
    cars: Seq<Car>,
    target: u32,
    lap_count: int,
    previous: Set<CarIndex>,
    tolerance: Tolerance,
    selected: Seq<CarIndex>,
    remaining: Seq<CarIndex>,
    found: Result<Vec<CarIndex>, SubsetError>,
) -> (slot: (Result<(Vec<CarIndex>, bool), SubsetError>, Seq<CarIndex>, bool))
    requires
        selected.len() < lap_count,
        search_from(cars, target, lap_count, previous, tolerance, selected, remaining, found),
    ensures
        slot_rule(
            cars,
            remaining,
            previous,
            selected,
            subset_sum(cars, selected),
            target,
            lap_count - selected.len(),
            slot.1,
            slot.2,
            slot.0,
        ),
        slot.0 matches Err(error) ==> found == Err::<Vec<CarIndex>, SubsetError>(error),
        slot.0 is Ok ==> search_goes_on(
            cars,
            target,
            lap_count,
            previous,
            tolerance,
            selected,
            remaining,
            slot.1,
            slot.2,
            found,
        ),
{
    let needed = lap_count - selected.len();
    let so_far = subset_sum(cars, selected);
    let prepared = choose|prepared: Result<(Vec<CarIndex>, bool), SubsetError>| #[trigger]
        is_prepared(cars, remaining, previous, selected, so_far, target, needed, prepared)
            && match prepared {
            Err(error) => found == Err::<Vec<CarIndex>, SubsetError>(error),
            Ok((candidates, using_previous_cars)) => exists|chosen: CarIndex| #[trigger]
                slot_choice(
                    cars,
                    candidates@,
                    previous,
                    selected,
                    so_far,
                    using_previous_cars,
                    target,
                    needed,
                    tolerance,
                    chosen,
                ) && search_from(
                    cars,
                    target,
                    lap_count,
                    previous,
                    tolerance,
                    selected.push(chosen),
                    without(remaining, chosen),
                    found,
                ),
        };
    let (list, flag) = choose|list: Seq<CarIndex>, flag: bool| #[trigger]
        slot_rule(cars, remaining, previous, selected, so_far, target, needed, list, flag, prepared);
    if prepared is Ok {
        let candidates = prepared->Ok_0.0;
        let using_previous_cars = prepared->Ok_0.1;
        assert(candidates@ == list && using_previous_cars == flag);
        let chosen = choose|chosen: CarIndex| #[trigger]
            slot_choice(
                cars,
                candidates@,
                previous,
                selected,
                so_far,
                using_previous_cars,
                target,
                needed,
                tolerance,
                chosen,
            ) && search_from(
                cars,
                target,
                lap_count,
                previous,
                tolerance,
                selected.push(chosen),
                without(remaining, chosen),
                found,
            );
        assert(slot_choice(
            cars,
            list,
            previous,
            selected,
            so_far,
            flag,
            target,
            needed,
            tolerance,
            chosen,
        ) && search_from(
            cars,
            target,
            lap_count,
            previous,
            tolerance,
            selected.push(chosen),
            without(remaining, chosen),
            found,
        ));
    }
    (prepared, list, flag)
}

/// What the first slot of a search settles: the three errors of a search
/// that cannot succeed, and the search for one car.
proof fn lemma_first_slot(
    cars: Seq<Car>,
    target: u32,
    lap_count: nat,
    previous: Set<CarIndex>,
    tolerance: Tolerance,
    left: Seq<CarIndex>,
    found: Result<Vec<CarIndex>, SubsetError>,
)
    requires
        lap_count >= 1,
        cars.len() <= usize::MAX,
        previous.finite(),
        set_in_pool(previous, cars.len()),
        is_leftover(cars, previous, left),
        search_from(
            cars,
            target,
            lap_count as int,
            previous,
            tolerance,
            Seq::<CarIndex>::empty(),
            left,
            found,
        ),
    ensures
        too_few_cars(cars.len(), previous.len(), lap_count) ==> (found matches Err(
            SubsetError::InsufficientCandidates(needed, available),
        ) && needed == lap_count && available == cars.len()),
        too_few_with_reuse(cars.len(), previous.len(), lap_count) ==> (found matches Err(
            SubsetError::PreviouslySelectedInsufficient { needed, available },
        ) && needed == lap_count && available == cars.len()),
        out_of_reach(cars, previous.len(), target, lap_count) ==> (found matches Err(
            SubsetError::TargetUnreachable { target: wanted, current_sum, min_possible, max_possible },
        ) && wanted == target && current_sum == 0 && min_possible == feasible_min(cars, lap_count)
            && max_possible == feasible_max(cars, lap_count)),
        lap_count == 1 && cars.len() >= 1 && previous.len() == 0 && feasible_min(cars, 1) <= target
            <= feasible_max(cars, 1) ==> found is Ok,
        lap_count == 1 && single_within_reach(cars, previous, target) ==> (found matches Ok(subset)
            && (single_within_tolerance(cars, previous, target, tolerance) ==> is_closest_left(
            cars,
            previous,
            target,
            subset@[0],
        ))),
{
    let none = Seq::<CarIndex>::empty();
    lemma_search_start(cars, previous, left);
    let (prepared, list, flag) = lemma_search_slot(
        cars,
        target,
        lap_count as int,
        previous,
        tolerance,
        none,
        left,
        found,
    );
    let added = list.skip(left.len() as int);
    if previous.len() == 0 {
        previous.lemma_len0_is_empty();
        assert(!flag);
    } else {
        assert(reusable(previous, none, previous.choose()));
        if flag {
            added.unique_seq_to_set();
        }
    }
    if !flag {
        assert(list =~= left);
    }
    if lap_count == 1 && single_within_reach(cars, previous, target) {
        lemma_single_reach(cars, previous, left, target);
    }
    if lap_count == 1 && prepared is Ok {
        let chosen = choose|chosen: CarIndex| #[trigger]
            slot_choice(cars, list, previous, none, 0, flag, target, 1, tolerance, chosen)
                && search_from(
                cars,
                target,
                1,
                previous,
                tolerance,
                none.push(chosen),
                without(left, chosen),
                found,
            );
        lemma_single_entry(found->Ok_0@, none.push(chosen));
        if single_within_reach(cars, previous, target) && single_within_tolerance(
            cars,
            previous,
            target,
            tolerance,
        ) {
            lemma_single_pick(cars, previous, left, target, tolerance, chosen);
        }
    }
}

/// A search among cars of one lap time, from any slot on: it succeeds with
/// cars that are left.
proof fn lemma_uniform_from(
    cars: Seq<Car>,
    target: u32,
    lap_count: nat,
    previous: Set<CarIndex>,
    tolerance: Tolerance,
    t: u32,
    selected: Seq<CarIndex>,
    remaining: Seq<CarIndex>,
    found: Result<Vec<CarIndex>, SubsetError>,
)
    requires
        cars.len() <= usize::MAX,
        previous.finite(),
        set_in_pool(previous, cars.len()),
        uniform_search(cars, previous, target, lap_count, t),
        selected.len() <= lap_count,
        search_state(cars, previous, selected, remaining, subset_sum(cars, selected)),
        all_left_with(cars, previous, selected, t),
        subset_sum(cars, selected) == selected.len() * t,
        search_from(cars, target, lap_count as int, previous, tolerance, selected, remaining, found),
    ensures
        found matches Ok(subset) && all_left_with(cars, previous, subset@, t),
    decreases lap_count - selected.len(),
{
    if selected.len() >= lap_count {
        let subset = found->Ok_0@;
        lemma_rearranged(subset, selected);
        assert forall|i: int| 0 <= i < subset.len() implies is_left(
            cars,
            previous,
            #[trigger] subset[i],
        ) && cars[subset[i] as int].lap_time == t by {
            assert(subset.contains(subset[i]));
            let k = choose|k: int| 0 <= k < selected.len() && selected[k] == subset[i];
            assert(is_left(cars, previous, selected[k]));
        }
    } else {
        let so_far = subset_sum(cars, selected);
        let needed = lap_count - selected.len();
        lemma_uniform_slot(cars, previous, selected, remaining, so_far, target, lap_count, t);
        let (prepared, list, flag) = lemma_search_slot(
            cars,
            target,
            lap_count as int,
            previous,
            tolerance,
            selected,
            remaining,
            found,
        );
        assert(list =~= remaining);
        let chosen = choose|chosen: CarIndex| #[trigger]
            slot_choice(cars, list, previous, selected, so_far, flag, target, needed, tolerance, chosen)
                && search_from(
                cars,
                target,
                lap_count as int,
                previous,
                tolerance,
                selected.push(chosen),
                without(remaining, chosen),
                found,
            );
        assert(0 <= selected.len() * t) by (nonlinear_arith);
        lemma_uniform_choice(
            cars,
            previous,
            selected,
            remaining,
            so_far,
            target,
            tolerance,
            needed as nat,
            t,
            chosen,
            !crate::picker::window_has_candidate(cars, remaining, so_far, target as int, needed),
        );
        let p = remaining.index_of(chosen);
        lemma_search_state_step(cars, previous, selected, remaining, so_far, p);
        lemma_lap_times_of_push(cars, selected, chosen);
        let next = selected.push(chosen);
        assert(selected.len() * t + t == (selected.len() + 1) * t) by (nonlinear_arith);
        assert forall|i: int| 0 <= i < next.len() implies is_left(
            cars,
            previous,
            #[trigger] next[i],
        ) && cars[next[i] as int].lap_time == t by {
            if i < selected.len() {
                assert(next[i] == selected[i]);
            }
        }
        lemma_uniform_from(
            cars,
            target,
            lap_count,
            previous,
            tolerance,
            t,
            next,
            without(remaining, chosen),
            found,
        );
    }
}

/// The error of a slot is one of the search's errors, with what it reports.
proof fn lemma_slot_error(
    cars: Seq<Car>,
    previous: Set<CarIndex>,
    selected: Seq<CarIndex>,
    remaining: Seq<CarIndex>,
    current_sum: int,
    target: u32,
    lap_count: nat,
    prepared: Result<(Vec<CarIndex>, bool), SubsetError>,
)
    requires
        cars.len() <= usize::MAX,
        previous.finite(),
        set_in_pool(previous, cars.len()),
        search_state(cars, previous, selected, remaining, current_sum),
        selected.len() < lap_count,
        is_prepared(
            cars,
            remaining,
            previous,
            selected,
            current_sum,
            target,
            lap_count - selected.len(),
            prepared,
        ),
        prepared is Err,
    ensures
        is_search_error(cars, target, lap_count, prepared->Err_0),
{
    let needed = lap_count - selected.len();
    let (list, flag) = choose|list: Seq<CarIndex>, flag: bool| #[trigger]
        slot_rule(
            cars,
            remaining,
            previous,
            selected,
            current_sum,
            target,
            needed,
            list,
            flag,
            prepared,
        );
    let added = list.skip(remaining.len() as int);
    lemma_search_state_count(cars, previous, selected, remaining, current_sum);
    lemma_reusable_set(previous, selected);
    lemma_candidates_distinct(cars, previous, selected, remaining, current_sum, list, flag);
    if flag {
        added.unique_seq_to_set();
    }
    if let Err(
        SubsetError::TargetUnreachable { target: wanted, current_sum: reached, min_possible, max_possible },
    ) = prepared {
        assert(shuts_out(
            cars,
            list,
            needed as nat,
            reached as int,
            target,
            min_possible as int,
            max_possible as int,
        ));
    }
}

/// What follows of a search from its slots: the whole of `search_outcome`.
proof fn lemma_search_outcome(
    cars: Seq<Car>,
    target: u32,
    lap_count: nat,
    previous: Set<CarIndex>,
    tolerance: Tolerance,
    left: Seq<CarIndex>,
    found: Result<Vec<CarIndex>, SubsetError>,
)
    requires
        cars.len() <= usize::MAX,
        previous.finite(),
        set_in_pool(previous, cars.len()),
        is_leftover(cars, previous, left),
        search_from(
            cars,
            target,
            lap_count as int,
            previous,
            tolerance,
            Seq::<CarIndex>::empty(),
            left,
            found,
        ),
        found matches Ok(subset) ==> is_subset_of_pool(subset@, lap_count, cars.len()),
        found matches Err(error) ==> is_search_error(cars, target, lap_count, error),
    ensures
        search_outcome(cars, target, lap_count, previous, tolerance, found),
{
    let none = Seq::<CarIndex>::empty();
    lemma_search_start(cars, previous, left);
    if let Ok(subset) = found {
        lemma_subset_fits_pool(subset@, cars.len());
    }
    if lap_count >= 1 {
        lemma_first_slot(cars, target, lap_count, previous, tolerance, left, found);
    }
    assert forall|t: u32| #[trigger]
        uniform_search(cars, previous, target, lap_count, t) implies (found matches Ok(subset)
        && all_left_with(cars, previous, subset@, t)) by {
        assert(0 * t == 0) by (nonlinear_arith);
        lemma_uniform_from(cars, target, lap_count, previous, tolerance, t, none, left, found);
    }
}

/// Searches for `lap_count` distinct cars whose lap times sum to about
/// `target`.
///
/// The search goes among the cars that no earlier subset holds, in ascending
/// order of lap time. Slot by slot the candidates are those of them that are
/// not yet in the subset; the cars of earlier subsets are added behind them
/// only where there are too few candidates or the target is out of their
/// reach, and the fallback may take one where it is strictly closer. The last
/// slot takes the closest match; every other slot takes a weighted draw from
/// the valid window, or the fallback. The subset is returned in a random
/// order, and nothing is promised of its sum: the target's tolerance is the
/// caller's to check.
///
/// The draws decide whether a search of two or more cars succeeds;
/// `search_outcome` states what does not depend on them.
pub fn find_approximate_subset(
    cars: &[Car],
    target: u32,
    lap_count: usize,
    previously_selected: &HashSet<CarIndex>,
    tolerance: Tolerance,
) -> (found: Result<Vec<CarIndex>, SubsetError>)
    requires
        crate::bounds::search_sums_fit(cars@, lap_count as nat),
        set_in_pool(previously_selected@, cars@.len()),
    ensures
        search_outcome(cars@, target, lap_count as nat, previously_selected@, tolerance, found),
{
    let mut rng = thread_rng();
    let mut selected: Vec<CarIndex> = Vec::new();
    let mut current_sum: u32 = 0;
    let mut remaining_indexes = leftover_indexes(cars, previously_selected);
    let pool_len = cars.len();
    let ghost left = remaining_indexes@;
    proof {
        lemma_hash_set_finite(previously_selected);
        lemma_search_start(cars@, previously_selected@, left);
    }
    while selected.len() < lap_count
        invariant
            pool_len == cars@.len(),
            crate::bounds::search_sums_fit(cars@, lap_count as nat),
            is_leftover(cars@, previously_selected@, left),
            forall|found: Result<Vec<CarIndex>, SubsetError>| #[trigger]
                search_from(
                    cars@,
                    target,
                    lap_count as int,
                    previously_selected@,
                    tolerance,
                    selected@,
                    remaining_indexes@,
                    found,
                ) ==> search_from(
                    cars@,
                    target,
                    lap_count as int,
                    previously_selected@,
                    tolerance,
                    Seq::<CarIndex>::empty(),
                    left,
                    found,
                ),
            set_in_pool(previously_selected@, cars@.len()),
            previously_selected@.finite(),
            selected@.len() <= lap_count,
            search_state(
                cars@,
                previously_selected@,
                selected@,
                remaining_indexes@,
                current_sum as int,
            ),
        decreases lap_count - selected@.len(),
    {
        let remaining_needed = lap_count - selected.len();
        proof {
            assert forall|c: Seq<CarIndex>, u: bool| #[trigger]
                candidates_for_slot(remaining_indexes@, previously_selected@, selected@, c, u)
                    && c.len() >= remaining_needed implies slot_sums_fit(
                cars@,
                c,
                current_sum as int,
                remaining_needed as nat,
            ) by {
                lemma_slot_sums_fit(
                    cars@,
                    previously_selected@,
                    selected@,
                    remaining_indexes@,
                    current_sum as int,
                    lap_count as nat,
                    c,
                    u,
                    remaining_needed as nat,
                );
            }
            lemma_search_state_count(
                cars@,
                previously_selected@,
                selected@,
                remaining_indexes@,
                current_sum as int,
            );
            lemma_reusable_set(previously_selected@, selected@);
        }
        let ghost left_now = remaining_indexes@;
        let ghost slot_selected = selected@;
        let prepared = prepare_candidates(
            cars,
            &remaining_indexes,
            previously_selected,
            selected.as_slice(),
            current_sum,
            target,
            remaining_needed,
        );
        let ghost outcome = prepared;
        let (candidates, using_previous_cars) = match prepared {
            Ok(ready) => ready,
            Err(error) => {
                proof {
                    lemma_search_from_error(
                        cars@,
                        target,
                        lap_count as int,
                        previously_selected@,
                        tolerance,
                        selected@,
                        remaining_indexes@,
                        outcome,
                    );
                    lemma_slot_error(
                        cars@,
                        previously_selected@,
                        selected@,
                        remaining_indexes@,
                        current_sum as int,
                        target,
                        lap_count as nat,
                        outcome,
                    );
                    lemma_search_outcome(
                        cars@,
                        target,
                        lap_count as nat,
                        previously_selected@,
                        tolerance,
                        left,
                        Err::<Vec<CarIndex>, SubsetError>(error),
                    );
                }
                return Err(error);
            },
        };
        proof {
            lemma_slot_sums_fit(
                cars@,
                previously_selected@,
                selected@,
                remaining_indexes@,
                current_sum as int,
                lap_count as nat,
                candidates@,
                using_previous_cars,
                (remaining_needed - 1) as nat,
            );
            assert forall|x: CarIndex|
                #![trigger candidates@.contains(x)]
                #![trigger reusable(previously_selected@, selected@, x)]
                candidates@.contains(x) || reusable(
                    previously_selected@,
                    selected@,
                    x,
                ) implies current_sum + cars@[x as int].lap_time <= u32::MAX by {
                lemma_candidate_is_new(
                    remaining_indexes@,
                    previously_selected@,
                    selected@,
                    candidates@,
                    using_previous_cars,
                    x,
                );
                if candidates@.contains(x) {
                    let k = choose|k: int| 0 <= k < candidates@.len() && candidates@[k] == x;
                    assert(candidates@[k] < cars@.len());
                }
                lemma_next_car_fits(
                    cars@,
                    previously_selected@,
                    selected@,
                    remaining_indexes@,
                    current_sum as int,
                    lap_count as nat,
                    x,
                );
            }
        }
        let chosen = if remaining_needed == 1 {
            let (final_choice, _) = handle_last_number(
                cars,
                candidates.as_slice(),
                previously_selected,
                selected.as_slice(),
                current_sum,
                target,
                tolerance,
            );
            final_choice
        } else {
            let (picked, _) = select_candidate(
                cars,
                candidates.as_slice(),
                previously_selected,
                selected.as_slice(),
                current_sum,
                using_previous_cars,
                target,
                remaining_needed,
                &mut rng,
            );
            picked
        };
        proof {
            lemma_candidate_is_new(
                remaining_indexes@,
                previously_selected@,
                selected@,
                candidates@,
                using_previous_cars,
                chosen,
            );
            lemma_next_car_fits(
                cars@,
                previously_selected@,
                selected@,
                remaining_indexes@,
                current_sum as int,
                lap_count as nat,
                chosen,
            );
            lemma_search_from_step(
                cars@,
                target,
                lap_count as int,
                previously_selected@,
                tolerance,
                selected@,
                remaining_indexes@,
                outcome,
                chosen,
            );
        }
        match position_of(remaining_indexes.as_slice(), chosen) {
            Some(pos) => {
                proof {
                    assert(remaining_indexes@.index_of(chosen) == pos);
                    lemma_search_state_step(
                        cars@,
                        previously_selected@,
                        selected@,
                        remaining_indexes@,
                        current_sum as int,
                        pos as int,
                    );
                }
                current_sum = current_sum + get_lap_time(cars, chosen);
                selected.push(chosen);
                remaining_indexes.remove(pos);
            },
            None => {
                proof {
                    lemma_candidate_is_reused(
                        remaining_indexes@,
                        previously_selected@,
                        selected@,
                        candidates@,
                        using_previous_cars,
                        chosen,
                    );
                    lemma_search_state_reuse(
                        cars@,
                        previously_selected@,
                        selected@,
                        remaining_indexes@,
                        current_sum as int,
                        chosen,
                    );
                }
                current_sum = current_sum + get_lap_time(cars, chosen);
                selected.push(chosen);
            },
        }
        proof {
            assert(selected@ == slot_selected.push(chosen));
            assert(remaining_indexes@ == without(left_now, chosen));
            assert forall|found: Result<Vec<CarIndex>, SubsetError>| #[trigger]
                search_from(
                    cars@,
                    target,
                    lap_count as int,
                    previously_selected@,
                    tolerance,
                    selected@,
                    remaining_indexes@,
                    found,
                ) implies search_from(
                cars@,
                target,
                lap_count as int,
                previously_selected@,
                tolerance,
                Seq::<CarIndex>::empty(),
                left,
                found,
            ) by {
                assert(search_from(
                    cars@,
                    target,
                    lap_count as int,
                    previously_selected@,
                    tolerance,
                    slot_selected.push(chosen),
                    without(left_now, chosen),
                    found,
                ));
                assert(search_from(
                    cars@,
                    target,
                    lap_count as int,
                    previously_selected@,
                    tolerance,
                    slot_selected,
                    left_now,
                    found,
                ));
            }
        }
    }
    let ghost chosen_cars = selected@;
    let ghost left_over = remaining_indexes@;
    shuffle_indexes(&mut selected, &mut rng);
    proof {
        assert(search_from(
            cars@,
            target,
            lap_count as int,
            previously_selected@,
            tolerance,
            chosen_cars,
            left_over,
            Ok::<Vec<CarIndex>, SubsetError>(selected),
        ));
        lemma_same_entries(selected@, chosen_cars, pool_len as nat);
        lemma_search_outcome(
            cars@,
            target,
            lap_count as nat,
            previously_selected@,
            tolerance,
            left,
            Ok::<Vec<CarIndex>, SubsetError>(selected),
        );
    }
    Ok(selected)
}

/// A car that is a candidate or reusable, and is not among the cars that are
/// left, is reusable.
proof fn lemma_candidate_is_reused(
    remaining: Seq<CarIndex>,
    previous: Set<CarIndex>,
    selected: Seq<CarIndex>,
    candidates: Seq<CarIndex>,
    using_previous_cars: bool,
    chosen: CarIndex,
)
    requires
        candidates_for_slot(remaining, previous, selected, candidates, using_previous_cars),
        candidates.contains(chosen) || reusable(previous, selected, chosen),
        !remaining.contains(chosen),
    ensures
        reusable(previous, selected, chosen),
{
    if candidates.contains(chosen) {
        let k = choose|k: int| 0 <= k < candidates.len() && candidates[k] == chosen;
        let added = candidates.skip(remaining.len() as int);
        if k < remaining.len() {
            assert(candidates.take(remaining.len() as int)[k] == chosen);
            assert(remaining[k] == chosen);
        } else {
            assert(added[k - remaining.len()] == chosen);
            assert(added.contains(chosen));
        }
    }
}

/// The reusable cars form a finite set, no larger than the set of the cars
/// of earlier subsets.
pub proof fn lemma_reusable_set(previous: Set<CarIndex>, selected: Seq<CarIndex>)
    requires
        previous.finite(),
    ensures
        reusable_set(previous, selected).finite(),
        reusable_set(previous, selected).len() <= previous.len(),
        reusable_set(previous, selected).len() == 0 <==> forall|x: CarIndex|
            !reusable(previous, selected, x),
{
    let spare = reusable_set(previous, selected);
    assert(spare.subset_of(previous));
    vstd::set_lib::lemma_len_subset(spare, previous);
    if spare.len() == 0 {
        spare.lemma_len0_is_empty();
        assert forall|x: CarIndex| !reusable(previous, selected, x) by {
            assert(!spare.contains(x));
        }
    }
    if forall|x: CarIndex| !reusable(previous, selected, x) {
        assert(spare =~= Set::<CarIndex>::empty());
    }
}

/// What an extension adds is the set of the reusable cars, each once, or
/// nothing where there is none.
proof fn lemma_added_is_spare(previous: Set<CarIndex>, selected: Seq<CarIndex>, added: Seq<CarIndex>)
    requires
        previous.finite(),
        added.no_duplicates(),
        forall|x: CarIndex| added.contains(x) <==> reusable(previous, selected, x),
    ensures
        added.to_set() == reusable_set(previous, selected),
        added.len() == reusable_set(previous, selected).len(),
{
    added.unique_seq_to_set();
    assert(added.to_set() =~= reusable_set(previous, selected));
}

/// A car that is a candidate or reusable is not in the subset so far.
proof fn lemma_candidate_is_new(
    remaining: Seq<CarIndex>,
    previous: Set<CarIndex>,
    selected: Seq<CarIndex>,
    candidates: Seq<CarIndex>,
    using_previous_cars: bool,
    chosen: CarIndex,
)
    requires
        candidates_for_slot(remaining, previous, selected, candidates, using_previous_cars),
        forall|i: int, j: int|
            0 <= i < selected.len() && 0 <= j < remaining.len() ==> selected[i] != remaining[j],
        candidates.contains(chosen) || reusable(previous, selected, chosen),
    ensures
        !selected.contains(chosen),
{
    if candidates.contains(chosen) && selected.contains(chosen) {
        let k = choose|k: int| 0 <= k < candidates.len() && candidates[k] == chosen;
        let i = choose|i: int| 0 <= i < selected.len() && selected[i] == chosen;
        let added = candidates.skip(remaining.len() as int);
        if k < remaining.len() {
            assert(candidates.take(remaining.len() as int)[k] == chosen);
            assert(selected[i] != remaining[k]);
        } else {
            assert(added[k - remaining.len()] == chosen);
            assert(added.contains(chosen));
        }
    }
}

proof fn lemma_added_in_pool(
    previous: Set<CarIndex>,
    selected: Seq<CarIndex>,
    added: Seq<CarIndex>,
    pool_len: nat,
)
    requires
        set_in_pool(previous, pool_len),
        forall|x: CarIndex| added.contains(x) ==> reusable(previous, selected, x),
    ensures
        in_pool(added, pool_len),
{
    assert forall|i: int| 0 <= i < added.len() implies (#[trigger] added[i]) < pool_len by {
        assert(added.contains(added[i]));
    }
}

/// Taking one entry out of a list without repetitions leaves such a list.
proof fn lemma_remove_keeps(list: Seq<CarIndex>, p: int, pool_len: nat)
    requires
        0 <= p < list.len(),
        list.no_duplicates(),
        in_pool(list, pool_len),
    ensures
        list.remove(p).no_duplicates(),
        in_pool(list.remove(p), pool_len),
        list.remove(p).len() == list.len() - 1,
{
    let rest = list.remove(p);
    assert forall|i: int, j: int| 0 <= i < rest.len() && 0 <= j < rest.len() && i != j implies rest[i]
        != rest[j] by {
        let oi = if i < p { i } else { i + 1 };
        let oj = if j < p { j } else { j + 1 };
        assert(rest[i] == list[oi]);
        assert(rest[j] == list[oj]);
    }
    assert forall|i: int| 0 <= i < rest.len() implies (#[trigger] rest[i]) < pool_len by {
        let oi = if i < p { i } else { i + 1 };
        assert(rest[i] == list[oi]);
    }
}

} // verus!
