//! The choice of the car for one slot: a weighted draw among the candidates
//! in the valid window, or the fallback where the window is empty.

use vstd::prelude::*;
use rand::rngs::ThreadRng;
use std::collections::HashSet;
use crate::bounds::{calculate_min_max_sums, head_sum, lemma_head_tail_bounded, tail_sum};
use crate::car::{get_lap_time, in_pool, lap_times_of, set_in_pool, Car, CarIndex};
use crate::closest::distance;
use crate::fallback::{fallback_choice, fallback_strategy, reusable};
use crate::random::{sample_picker, weight_total, weighted_picker};
use crate::sums::{lemma_lap_times_non_negative, sum};

verus! {

/// The weight of a candidate whose lap time hits the ideal average.
pub const WEIGHT_SCALE: u128 = 0x1000_0000_0000_0000;

/// What is left of `target` above `reached`, and zero if nothing is.
pub open spec fn gap(target: int, reached: int) -> int {
    if target >= reached {
        target - reached
    } else {
        0
    }
}

/// The lap time of `x` lies between `low` and `high`, both included.
pub open spec fn in_window(cars: Seq<Car>, low: int, high: int) -> spec_fn(CarIndex) -> bool {
    |x: CarIndex| low <= cars[x as int].lap_time <= high
}

/// The weight of a candidate in the draw. With `remainder` of the target
/// still to cover in `slots` slots, a candidate's weight is proportional to
/// `1 / (|lap_time - remainder / slots| + 1)`, the division exact; written
/// over integers that is `slots / (|lap_time * slots - remainder| + slots)`,
/// which is scaled by `WEIGHT_SCALE` and rounded down.
pub open spec fn candidate_weight(lap_time: int, remainder: int, slots: int) -> int {
    (WEIGHT_SCALE * slots) / (distance(lap_time * slots, remainder) + slots)
}

/// The weights of `indexes`, one for one.
pub open spec fn candidate_weights(
    cars: Seq<Car>,
    indexes: Seq<CarIndex>,
    remainder: int,
    slots: int,
) -> Seq<int> {
    Seq::new(
        indexes.len(),
        |i: int| candidate_weight(cars[indexes[i] as int].lap_time as int, remainder, slots),
    )
}

/// The difference of `target` and `reached`, and zero where `reached` is larger.
pub fn gap_of(target: u32, reached: u32) -> (left: u32)
    ensures
        left == gap(target as int, reached as int),
{
    if target >= reached {
        target - reached
    } else {
        0
    }
}

/// The candidates whose lap time lies between `low` and `high`, in the order
/// of `candidates`.
pub fn candidates_in_window(cars: &[Car], candidates: &[CarIndex], low: u32, high: u32) -> (inside:
    Vec<CarIndex>)
    requires
        in_pool(candidates@, cars@.len()),
    ensures
        inside@ == candidates@.filter(in_window(cars@, low as int, high as int)),
        in_pool(inside@, cars@.len()),
        forall|i: int|
            0 <= i < inside@.len() ==> candidates@.contains(#[trigger] inside@[i]) && low
                <= cars@[inside@[i] as int].lap_time <= high,
        inside@.len() == 0 <==> forall|i: int|
            0 <= i < candidates@.len() ==> !(low <= cars@[#[trigger] candidates@[i] as int].lap_time
                <= high),
{
    let ghost pred = in_window(cars@, low as int, high as int);
    let mut inside: Vec<CarIndex> = Vec::new();
    let mut i: usize = 0;
    proof {
        reveal(Seq::filter);
        assert(candidates@.take(0) =~= Seq::<CarIndex>::empty());
    }
    while i < candidates.len()
        invariant
            i <= candidates@.len(),
            in_pool(candidates@, cars@.len()),
            pred == in_window(cars@, low as int, high as int),
            inside@ == candidates@.take(i as int).filter(pred),
            forall|k: int|
                0 <= k < inside@.len() ==> candidates@.contains(#[trigger] inside@[k]) && low
                    <= cars@[inside@[k] as int].lap_time <= high,
            inside@.len() == 0 <==> forall|k: int|
                0 <= k < i ==> !(low <= cars@[#[trigger] candidates@[k] as int].lap_time <= high),
        decreases candidates@.len() - i,
    {
        let idx = candidates[i];
        let t = get_lap_time(cars, idx);
        let ghost next = candidates@.take(i + 1);
        proof {
            reveal(Seq::filter);
        }
        assert(next.drop_last() =~= candidates@.take(i as int));
        assert(next.last() == idx);
        assert(pred(idx) == (low <= t <= high));
        assert(next.filter(pred) == if pred(idx) {
            next.drop_last().filter(pred).push(idx)
        } else {
            next.drop_last().filter(pred)
        });
        assert(candidates@.contains(idx));
        if t >= low && t <= high {
            inside.push(idx);
            assert(inside@[inside@.len() - 1] == candidates@[i as int]);
        }
        i += 1;
    }
    assert(candidates@.take(candidates@.len() as int) =~= candidates@);
    assert(in_pool(inside@, cars@.len())) by {
        assert forall|k: int| 0 <= k < inside@.len() implies (#[trigger] inside@[k])
            < cars@.len() by {
            assert(candidates@.contains(inside@[k]));
        }
    }
    inside
}

/// The weight of one candidate.
pub fn weight_of(lap_time: u32, remainder: u32, slots: usize) -> (weight: u128)
    requires
        slots >= 1,
    ensures
        weight == candidate_weight(lap_time as int, remainder as int, slots as int),
        1 <= weight <= WEIGHT_SCALE,
{
    let n: u128 = slots as u128;
    assert(n <= 0xffff_ffff_ffff_ffff);
    assert((lap_time as u128) * n <= 0xffff_ffff * 0xffff_ffff_ffff_ffff && (lap_time as u128) * n
        <= 0xffff_ffff * n) by (nonlinear_arith)
        requires
            lap_time <= 0xffff_ffff,
            1 <= n <= 0xffff_ffff_ffff_ffff,
    ;
    let spread: u128 = (lap_time as u128) * n;
    let want: u128 = remainder as u128;
    assert(want <= 0xffff_ffff * n) by (nonlinear_arith)
        requires
            want <= 0xffff_ffff,
            1 <= n,
    ;
    let off: u128 = if spread >= want {
        spread - want
    } else {
        want - spread
    };
    assert(off == distance(lap_time as int * slots as int, remainder as int));
    let below: u128 = off + n;
    assert(WEIGHT_SCALE * n <= 0x1000_0000_0000_0000 * 0xffff_ffff_ffff_ffff) by (nonlinear_arith)
        requires
            n <= 0xffff_ffff_ffff_ffff,
    ;
    let above: u128 = WEIGHT_SCALE * n;
    let weight: u128 = above / below;
    assert(1 <= above / below <= WEIGHT_SCALE) by (nonlinear_arith)
        requires
            above == WEIGHT_SCALE * n,
            n <= below <= 0x1_0000_0000 * n,
            WEIGHT_SCALE == 0x1000_0000_0000_0000,
            1 <= n,
    ;
    weight
}

proof fn lemma_weight_total_bounds(weights: Seq<u128>)
    requires
        forall|i: int| 0 <= i < weights.len() ==> 1 <= #[trigger] weights[i] <= WEIGHT_SCALE,
    ensures
        weights.len() <= weight_total(weights) <= weights.len() * WEIGHT_SCALE,
    decreases weights.len(),
{
    if weights.len() > 0 {
        lemma_weight_total_bounds(weights.drop_last());
        assert((weights.len() - 1) * WEIGHT_SCALE + WEIGHT_SCALE == weights.len() * WEIGHT_SCALE)
            by (nonlinear_arith);
    }
}

/// The weights of the candidates, one for one.
pub fn weights_of(cars: &[Car], indexes: &[CarIndex], remainder: u32, slots: usize) -> (weights:
    Vec<u128>)
    requires
        in_pool(indexes@, cars@.len()),
        slots >= 1,
    ensures
        weights@.len() == indexes@.len(),
        forall|i: int|
            0 <= i < weights@.len() ==> (#[trigger] weights@[i]) as int == candidate_weights(
                cars@,
                indexes@,
                remainder as int,
                slots as int,
            )[i],
        forall|i: int| 0 <= i < weights@.len() ==> 1 <= #[trigger] weights@[i] <= WEIGHT_SCALE,
{
    let mut weights: Vec<u128> = Vec::new();
    let mut i: usize = 0;
    while i < indexes.len()
        invariant
            i <= indexes@.len(),
            in_pool(indexes@, cars@.len()),
            slots >= 1,
            weights@.len() == i,
            forall|k: int|
                0 <= k < i ==> (#[trigger] weights@[k]) as int == candidate_weights(
                    cars@,
                    indexes@,
                    remainder as int,
                    slots as int,
                )[k],
            forall|k: int| 0 <= k < i ==> 1 <= #[trigger] weights@[k] <= WEIGHT_SCALE,
        decreases indexes@.len() - i,
    {
        let w = weight_of(get_lap_time(cars, indexes[i]), remainder, slots);
        weights.push(w);
        i += 1;
    }
    weights
}

/// The valid window of the next slot: the lap times with which the slots
/// after it can still bring the sum to the target, given the least and the
/// greatest sum that those slots can add.
pub open spec fn window(
    cars: Seq<Car>,
    candidates: Seq<CarIndex>,
    current_sum: int,
    target: int,
    remaining_needed: int,
) -> (int, int) {
    let times = lap_times_of(cars, candidates);
    let rest = (remaining_needed - 1) as nat;
    (
        gap(target, current_sum + tail_sum(times, rest)),
        gap(target, current_sum + head_sum(times, rest)),
    )
}

/// Some candidate lies in the valid window.
pub open spec fn window_has_candidate(
    cars: Seq<Car>,
    candidates: Seq<CarIndex>,
    current_sum: int,
    target: int,
    remaining_needed: int,
) -> bool {
    let (low, high) = window(cars, candidates, current_sum, target, remaining_needed);
    exists|i: int|
        0 <= i < candidates.len() && low <= cars[#[trigger] candidates[i] as int].lap_time <= high
}

/// Chooses the car for the next slot. Where candidates lie in the valid
/// window, one of them is drawn, the closer to the ideal average the more
/// likely, and the flag is clear. Where none does, the fallback chooses and
/// the flag is set.
pub fn select_candidate(
    cars: &[Car],
    candidates: &[CarIndex],
    previously_selected: &HashSet<CarIndex>,
    selected: &[CarIndex],
    current_sum: u32,
    using_previous_cars: bool,
    target: u32,
    remaining_needed: usize,
    rng: &mut ThreadRng,
) -> (choice: (CarIndex, bool))
    requires
        candidates@.len() > 0,
        in_pool(candidates@, cars@.len()),
        set_in_pool(previously_selected@, cars@.len()),
        remaining_needed >= 1,
        crate::search::slot_sums_fit(
            cars@,
            candidates@,
            current_sum as int,
            (remaining_needed - 1) as nat,
        ),
    ensures
        choice.0 < cars@.len(),
        candidates@.contains(choice.0) || reusable(previously_selected@, selected@, choice.0),
        choice.1 == !window_has_candidate(
            cars@,
            candidates@,
            current_sum as int,
            target as int,
            remaining_needed as int,
        ),
        !choice.1 ==> {
            let (low, high) = window(
                cars@,
                candidates@,
                current_sum as int,
                target as int,
                remaining_needed as int,
            );
            candidates@.contains(choice.0) && low <= cars@[choice.0 as int].lap_time <= high
        },
        choice.1 ==> fallback_choice(
            cars@,
            candidates@,
            previously_selected@,
            selected@,
            current_sum as int,
            using_previous_cars,
            target as int,
            remaining_needed as int,
            choice.0,
        ),
{
    let ghost times = lap_times_of(cars@, candidates@);
    proof {
        lemma_lap_times_non_negative(cars@, candidates@);
        lemma_head_tail_bounded(times, (remaining_needed - 1) as nat);
    }
    let (min_possible_remaining, max_possible_remaining) = calculate_min_max_sums(
        cars,
        candidates,
        remaining_needed - 1,
    );
    let min_valid = gap_of(target, current_sum + max_possible_remaining);
    let max_valid = gap_of(target, current_sum + min_possible_remaining);
    let filtered = candidates_in_window(cars, candidates, min_valid, max_valid);
    if filtered.len() > 0 {
        let remainder = gap_of(target, current_sum);
        let weights = weights_of(cars, filtered.as_slice(), remainder, remaining_needed);
        proof {
            lemma_weight_total_bounds(weights@);
            assert(weights@.len() * WEIGHT_SCALE <= u128::MAX) by (nonlinear_arith)
                requires
                    weights@.len() <= 0xffff_ffff_ffff_ffff,
                    WEIGHT_SCALE == 0x1000_0000_0000_0000,
            ;
        }
        match weighted_picker(&weights) {
            Ok(picker) => {
                let position = sample_picker(&picker, rng);
                let chosen = filtered[position];
                assert(candidates@.contains(filtered@[position as int]));
                let ghost k = choose|k: int| 0 <= k < candidates@.len() && candidates@[k] == chosen;
                assert(min_valid <= cars@[candidates@[k] as int].lap_time <= max_valid);
                (chosen, false)
            },
            Err(_) => vstd::pervasive::unreached(),
        }
    } else {
        fallback_strategy(
            cars,
            candidates,
            previously_selected,
            selected,
            current_sum,
            using_previous_cars,
            target,
            remaining_needed,
        )
    }
}

} // verus!
