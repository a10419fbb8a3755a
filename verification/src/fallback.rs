//! What the search does when no candidate fits the valid window: it takes
//! the candidate closest to the ideal average of the open slots, and may
//! reach back to a car of an earlier subset.

use vstd::prelude::*;
use std::collections::HashSet;
use vstd::std_specs::iter::IteratorSpec;
use crate::car::{get_lap_time, in_pool, lap_times_of, set_in_pool, Car, CarIndex};
use crate::closest::{distance, time_distance};

verus! {

broadcast use vstd::std_specs::hash::group_hash_axioms;

/// The lap time that each open slot would have if the rest of the target
/// were spread evenly: the remainder divided by the open slots, rounded
/// down, and zero once the sum has reached the target.
pub open spec fn ideal_average(target: int, current_sum: int, remaining_needed: int) -> int {
    if target <= current_sum {
        0
    } else {
        (target - current_sum) / remaining_needed
    }
}

/// The first position among the first `n` of `times` whose entry is closest
/// to `wanted`.
pub open spec fn first_nearest_among(times: Seq<int>, wanted: int, n: int) -> int
    decreases n,
{
    if n <= 1 {
        0
    } else {
        let before = first_nearest_among(times, wanted, n - 1);
        if distance(times[n - 1], wanted) < distance(times[before], wanted) {
            n - 1
        } else {
            before
        }
    }
}

/// The first position of `times` whose entry is closest to `wanted`.
pub open spec fn first_nearest(times: Seq<int>, wanted: int) -> int {
    first_nearest_among(times, wanted, times.len() as int)
}

/// `p` is a position among the first `n` of `times`, no entry among them is
/// closer to `wanted`, and every entry before `p` is farther.
pub open spec fn is_first_nearest(times: Seq<int>, wanted: int, n: int, p: int) -> bool {
    &&& 0 <= p < n
    &&& forall|j: int| 0 <= j < n ==> distance(times[p], wanted) <= distance(#[trigger] times[j], wanted)
    &&& forall|j: int| 0 <= j < p ==> distance(times[p], wanted) < distance(#[trigger] times[j], wanted)
}

pub proof fn lemma_first_nearest(times: Seq<int>, wanted: int, n: int)
    requires
        1 <= n <= times.len(),
    ensures
        is_first_nearest(times, wanted, n, first_nearest_among(times, wanted, n)),
    decreases n,
{
    if n > 1 {
        lemma_first_nearest(times, wanted, n - 1);
    }
}

/// `x` was selected for an earlier subset and is not in the current one.
pub open spec fn reusable(previous: Set<CarIndex>, selected: Seq<CarIndex>, x: CarIndex) -> bool {
    previous.contains(x) && !selected.contains(x)
}

/// What the fallback may choose.
///
/// The primary choice is the first candidate closest to the ideal average.
/// Unless reuse is already active, a reusable car that is strictly closer
/// than the primary choice wins, and then the closest of the reusable cars is
/// chosen (which one, where several are equally close, is left open).
pub open spec fn fallback_choice(
    cars: Seq<Car>,
    candidates: Seq<CarIndex>,
    previous: Set<CarIndex>,
    selected: Seq<CarIndex>,
    current_sum: int,
    using_previous_cars: bool,
    target: int,
    remaining_needed: int,
    chosen: CarIndex,
) -> bool {
    let wanted = ideal_average(target, current_sum, remaining_needed);
    let primary = candidates[first_nearest(lap_times_of(cars, candidates), wanted)];
    let primary_distance = distance(cars[primary as int].lap_time as int, wanted);
    if !using_previous_cars && exists|x: CarIndex|
        reusable(previous, selected, x) && distance(cars[x as int].lap_time as int, wanted)
            < primary_distance {
        &&& reusable(previous, selected, chosen)
        &&& forall|y: CarIndex| #[trigger]
            reusable(previous, selected, y) ==> distance(
                cars[chosen as int].lap_time as int,
                wanted,
            ) <= distance(cars[y as int].lap_time as int, wanted)
    } else {
        chosen == primary
    }
}

/// Whether `x` occurs in `list`.
pub fn contains_index(list: &[CarIndex], x: CarIndex) -> (found: bool)
    ensures
        found == list@.contains(x),
{
    let mut i: usize = 0;
    while i < list.len()
        invariant
            i <= list@.len(),
            forall|j: int| 0 <= j < i ==> list@[j] != x,
        decreases list@.len() - i,
    {
        if list[i] == x {
            return true;
        }
        i += 1;
    }
    false
}

/// The view of a hash set is a finite set.
pub proof fn lemma_hash_set_finite(set: &HashSet<CarIndex>)
    ensures
        set@.finite(),
{
    let keys = set.iter().remaining();
    assert(keys.unref().to_set() == set@);
    vstd::seq_lib::seq_to_set_is_finite(keys.unref());
}

/// The members of a set, each once, in the order in which the set hands them
/// out.
pub fn set_members(set: &HashSet<CarIndex>) -> (members: Vec<CarIndex>)
    ensures
        members@.no_duplicates(),
        members@.to_set() == set@,
        members@.len() == set@.len(),
{
    let mut members: Vec<CarIndex> = Vec::new();
    let ghost keys = set.iter().remaining();
    for idx in it: set.iter()
        invariant
            it.seq() == keys,
            members@.len() == it.index(),
            forall|j: int| 0 <= j < members@.len() ==> members@[j] == *keys[j],
    {
        members.push(*idx);
    }
    proof {
        assert(members@ =~= keys.unref());
    }
    members
}

/// The cars of earlier subsets that are not in the current one, each once.
pub fn reusable_cars(previously_selected: &HashSet<CarIndex>, selected: &[CarIndex]) -> (out: Vec<
    CarIndex,
>)
    ensures
        out@.no_duplicates(),
        forall|x: CarIndex| out@.contains(x) <==> reusable(previously_selected@, selected@, x),
{
    let members = set_members(previously_selected);
    let mut out: Vec<CarIndex> = Vec::new();
    let mut i: usize = 0;
    while i < members.len()
        invariant
            i <= members@.len(),
            members@.no_duplicates(),
            members@.to_set() == previously_selected@,
            out@.no_duplicates(),
            forall|x: CarIndex|
                out@.contains(x) <==> (exists|j: int| 0 <= j < i && members@[j] == x)
                    && !selected@.contains(x),
        decreases members@.len() - i,
    {
        let x = members[i];
        if !contains_index(selected, x) {
            let ghost before = out@;
            assert(!before.contains(x)) by {
                if before.contains(x) {
                    let j = choose|j: int| 0 <= j < i && members@[j] == x;
                    assert(members@[j] == members@[i as int]);
                }
            }
            out.push(x);
            assert forall|y: CarIndex| out@.contains(y) <==> (exists|j: int|
                0 <= j < i + 1 && members@[j] == y) && !selected@.contains(y) by {
                if out@.contains(y) {
                    let k = choose|k: int| 0 <= k < out@.len() && out@[k] == y;
                    if k < before.len() {
                        assert(before[k] == y);
                        assert(before.contains(y));
                        let j = choose|j: int| 0 <= j < i && members@[j] == y;
                        assert(0 <= j < i + 1 && members@[j] == y);
                    } else {
                        assert(members@[i as int] == y);
                    }
                }
                if (exists|j: int| 0 <= j < i + 1 && members@[j] == y) && !selected@.contains(y) {
                    let j = choose|j: int| 0 <= j < i + 1 && members@[j] == y;
                    if j < i {
                        assert(before.contains(y));
                        let k = choose|k: int| 0 <= k < before.len() && before[k] == y;
                        assert(out@[k] == y);
                    } else {
                        assert(out@[before.len() as int] == y);
                    }
                }
            }
        } else {
            assert forall|y: CarIndex| out@.contains(y) <==> (exists|j: int|
                0 <= j < i + 1 && members@[j] == y) && !selected@.contains(y) by {
                if out@.contains(y) {
                    let j = choose|j: int| 0 <= j < i && members@[j] == y;
                    assert(0 <= j < i + 1 && members@[j] == y);
                }
                if (exists|j: int| 0 <= j < i + 1 && members@[j] == y) && !selected@.contains(y) {
                    let j = choose|j: int| 0 <= j < i + 1 && members@[j] == y;
                    assert(j < i);
                }
            }
        }
        i += 1;
    }
    proof {
        assert forall|x: CarIndex| out@.contains(x) <==> reusable(
            previously_selected@,
            selected@,
            x,
        ) by {
            if out@.contains(x) {
                let j = choose|j: int| 0 <= j < i && members@[j] == x;
                assert(members@.contains(x));
                assert(members@.to_set().contains(x));
            }
            if reusable(previously_selected@, selected@, x) {
                assert(members@.to_set().contains(x));
                assert(members@.contains(x));
            }
        }
    }
    out
}

/// The first of `indexes` whose lap time is closest to `wanted`.
pub fn nearest_to(cars: &[Car], indexes: &[CarIndex], wanted: u32) -> (best: CarIndex)
    requires
        indexes@.len() > 0,
        in_pool(indexes@, cars@.len()),
    ensures
        0 <= first_nearest(lap_times_of(cars@, indexes@), wanted as int) < indexes@.len(),
        best == indexes@[first_nearest(lap_times_of(cars@, indexes@), wanted as int)],
        is_first_nearest(
            lap_times_of(cars@, indexes@),
            wanted as int,
            indexes@.len() as int,
            first_nearest(lap_times_of(cars@, indexes@), wanted as int),
        ),
{
    let ghost times = lap_times_of(cars@, indexes@);
    let mut best_pos: usize = 0;
    let mut best_distance = time_distance(get_lap_time(cars, indexes[0]), wanted);
    let mut i: usize = 1;
    while i < indexes.len()
        invariant
            1 <= i <= indexes@.len(),
            in_pool(indexes@, cars@.len()),
            times == lap_times_of(cars@, indexes@),
            best_pos == first_nearest_among(times, wanted as int, i as int),
            0 <= best_pos < i,
            best_distance == distance(times[best_pos as int], wanted as int),
        decreases indexes@.len() - i,
    {
        let d = time_distance(get_lap_time(cars, indexes[i]), wanted);
        if d < best_distance {
            best_pos = i;
            best_distance = d;
        }
        i += 1;
    }
    proof {
        lemma_first_nearest(times, wanted as int, indexes@.len() as int);
    }
    indexes[best_pos]
}

/// The ideal average as a lap time.
pub fn ideal_average_of(target: u32, current_sum: u32, remaining_needed: usize) -> (wanted: u32)
    requires
        remaining_needed >= 1,
    ensures
        wanted == ideal_average(target as int, current_sum as int, remaining_needed as int),
{
    if target <= current_sum {
        0
    } else {
        let remainder: u64 = (target - current_sum) as u64;
        let slots: u64 = remaining_needed as u64;
        let quotient: u64 = remainder / slots;
        assert(quotient <= remainder) by (nonlinear_arith)
            requires
                quotient == remainder / slots,
                slots >= 1,
        ;
        quotient as u32
    }
}

/// Chooses a car when no candidate lies in the valid window: the first
/// candidate closest to the ideal average, or, unless reuse is already
/// active, a car of an earlier subset that is strictly closer. `candidates`
/// must not be empty. The flag says that the fallback was taken, and is
/// always set.
pub fn fallback_strategy(
    cars: &[Car],
    candidates: &[CarIndex],
    previously_selected: &HashSet<CarIndex>,
    selected: &[CarIndex],
    current_sum: u32,
    using_previous_cars: bool,
    target: u32,
    remaining_needed: usize,
) -> (choice: (CarIndex, bool))
    requires
        candidates@.len() > 0,
        in_pool(candidates@, cars@.len()),
        set_in_pool(previously_selected@, cars@.len()),
        remaining_needed >= 1,
    ensures
        fallback_choice(
            cars@,
            candidates@,
            previously_selected@,
            selected@,
            current_sum as int,
            using_previous_cars,
            target as int,
            remaining_needed as int,
            choice.0,
        ),
        choice.1,
        choice.0 < cars@.len(),
        candidates@.contains(choice.0) || reusable(previously_selected@, selected@, choice.0),
{
    let wanted = ideal_average_of(target, current_sum, remaining_needed);
    let best_match_idx = nearest_to(cars, candidates, wanted);
    let best_match_diff = time_distance(get_lap_time(cars, best_match_idx), wanted);
    if !using_previous_cars && !previously_selected.is_empty() {
        let available_previous = reusable_cars(previously_selected, selected);
        if available_previous.len() > 0 {
            assert(in_pool(available_previous@, cars@.len())) by {
                assert forall|i: int| 0 <= i < available_previous@.len() implies (
                #[trigger] available_previous@[i]) < cars@.len() by {
                    assert(available_previous@.contains(available_previous@[i]));
                }
            }
            let best_previous_idx = nearest_to(cars, available_previous.as_slice(), wanted);
            let best_previous_diff = time_distance(get_lap_time(cars, best_previous_idx), wanted);
            let ghost times = lap_times_of(cars@, available_previous@);
            let ghost p = first_nearest(times, wanted as int);
            assert(available_previous@.contains(best_previous_idx));
            assert forall|y: CarIndex| #[trigger]
                reusable(previously_selected@, selected@, y) implies best_previous_diff
                <= distance(cars@[y as int].lap_time as int, wanted as int) by {
                assert(available_previous@.contains(y));
                let k = choose|k: int|
                    0 <= k < available_previous@.len() && available_previous@[k] == y;
                assert(distance(times[p], wanted as int) <= distance(times[k], wanted as int));
            }
            if best_previous_diff < best_match_diff {
                return (best_previous_idx, true);
            }
        } else {
            assert forall|x: CarIndex| !reusable(previously_selected@, selected@, x) by {
                if reusable(previously_selected@, selected@, x) {
                    assert(available_previous@.contains(x));
                }
            }
        }
    }
    (best_match_idx, true)
}

/// Adds to the candidates the cars of earlier subsets that are not in the
/// current one, each once, behind the candidates that are there; says whether
/// there was any to add.
pub fn try_extend_with_previous(
    candidate_indexes: &mut Vec<CarIndex>,
    previously_selected: &HashSet<CarIndex>,
    selected: &[CarIndex],
) -> (extended: bool)
    ensures
        final(candidate_indexes)@.len() >= old(candidate_indexes)@.len(),
        final(candidate_indexes)@.take(old(candidate_indexes)@.len() as int) == old(
            candidate_indexes,
        )@,
        final(candidate_indexes)@.skip(old(candidate_indexes)@.len() as int).no_duplicates(),
        forall|x: CarIndex|
            final(candidate_indexes)@.skip(old(candidate_indexes)@.len() as int).contains(x)
                <==> reusable(previously_selected@, selected@, x),
        extended == (final(candidate_indexes)@.len() > old(candidate_indexes)@.len()),
        extended == exists|x: CarIndex| reusable(previously_selected@, selected@, x),
{
    let ghost before = candidate_indexes@;
    if previously_selected.is_empty() {
        assert(candidate_indexes@.take(before.len() as int) =~= before);
        assert(candidate_indexes@.skip(before.len() as int) =~= Seq::<CarIndex>::empty());
        return false;
    }
    let mut available_previous = reusable_cars(previously_selected, selected);
    let ghost added = available_previous@;
    if available_previous.is_empty() {
        assert(candidate_indexes@.take(before.len() as int) =~= before);
        assert(candidate_indexes@.skip(before.len() as int) =~= Seq::<CarIndex>::empty());
        assert forall|x: CarIndex| !reusable(previously_selected@, selected@, x) by {
            if reusable(previously_selected@, selected@, x) {
                assert(added.contains(x));
            }
        }
        false
    } else {
        candidate_indexes.append(&mut available_previous);
        assert(candidate_indexes@.take(before.len() as int) =~= before);
        assert(candidate_indexes@.skip(before.len() as int) =~= added);
        assert(added.contains(added[0]));
        assert(reusable(previously_selected@, selected@, added[0]));
        true
    }
}

} // verus!
