//! The candidate whose lap time is closest to a wanted time.

use vstd::prelude::*;
use crate::car::{get_lap_time, in_pool, lap_times_of, Car, CarIndex};

verus! {

/// How far two times are apart.
pub open spec fn distance(a: int, b: int) -> int {
    if a >= b {
        a - b
    } else {
        b - a
    }
}

/// `times` is in ascending order.
pub open spec fn ascending(times: Seq<int>) -> bool {
    forall|i: int, j: int| 0 <= i <= j < times.len() ==> times[i] <= times[j]
}

/// The position at which halving the span between `left` and `right` ends:
/// an exact hit at a midpoint, or the closer of the last two positions, the
/// left one if both are equally far.
pub open spec fn bisect(times: Seq<int>, wanted: int, left: int, right: int) -> int
    decreases right - left,
{
    if left + 1 < right {
        let mid = left + (right - left) / 2;
        if times[mid] == wanted {
            mid
        } else if times[mid] < wanted {
            bisect(times, wanted, mid, right)
        } else {
            bisect(times, wanted, left, mid)
        }
    } else if distance(times[left], wanted) <= distance(times[right], wanted) {
        left
    } else {
        right
    }
}

/// The position that the search for `wanted` returns in a non-empty `times`.
pub open spec fn closest_position(times: Seq<int>, wanted: int) -> int {
    if times.len() == 1 {
        0
    } else if wanted <= times[0] {
        0
    } else if wanted >= times[times.len() - 1] {
        times.len() - 1
    } else {
        bisect(times, wanted, 0, times.len() - 1)
    }
}

/// `p` is a position of `times` whose entry is as close to `wanted` as any,
/// and the lower one where a lower and a higher entry are equally close.
pub open spec fn is_closest(times: Seq<int>, wanted: int, p: int) -> bool {
    &&& 0 <= p < times.len()
    &&& forall|j: int|
        0 <= j < times.len() ==> distance(times[p], wanted) <= distance(#[trigger] times[j], wanted)
    &&& forall|j: int|
        0 <= j < times.len() && distance(#[trigger] times[j], wanted) == distance(times[p], wanted)
            ==> times[p] <= times[j]
}

pub proof fn lemma_bisect_in_span(times: Seq<int>, wanted: int, left: int, right: int)
    requires
        0 <= left < right < times.len(),
    ensures
        left <= bisect(times, wanted, left, right) <= right,
    decreases right - left,
{
    if left + 1 < right {
        let mid = left + (right - left) / 2;
        if times[mid] == wanted {
        } else if times[mid] < wanted {
            lemma_bisect_in_span(times, wanted, mid, right);
        } else {
            lemma_bisect_in_span(times, wanted, left, mid);
        }
    }
}

pub proof fn lemma_closest_position_in_range(times: Seq<int>, wanted: int)
    requires
        times.len() > 0,
    ensures
        0 <= closest_position(times, wanted) < times.len(),
{
    if times.len() > 1 {
        lemma_bisect_in_span(times, wanted, 0, times.len() - 1);
    }
}

proof fn lemma_bisect_closest(times: Seq<int>, wanted: int, left: int, right: int)
    requires
        ascending(times),
        0 <= left < right < times.len(),
        times[left] < wanted < times[right],
    ensures
        is_closest(times, wanted, bisect(times, wanted, left, right)),
    decreases right - left,
{
    if left + 1 < right {
        let mid = left + (right - left) / 2;
        if times[mid] == wanted {
            assert(is_closest(times, wanted, mid));
        } else if times[mid] < wanted {
            lemma_bisect_closest(times, wanted, mid, right);
        } else {
            lemma_bisect_closest(times, wanted, left, mid);
        }
    } else {
        let p = bisect(times, wanted, left, right);
        assert forall|j: int| 0 <= j < times.len() implies distance(times[p], wanted) <= distance(
            #[trigger] times[j],
            wanted,
        ) && (distance(times[j], wanted) == distance(times[p], wanted) ==> times[p]
            <= times[j]) by {
            if j <= left {
                assert(times[j] <= times[left]);
            } else {
                assert(times[right] <= times[j]);
            }
        }
    }
}

/// On lap times in ascending order the search finds a closest entry, and
/// prefers the lower entry where two are equally close.
pub proof fn lemma_closest_position_is_closest(times: Seq<int>, wanted: int)
    requires
        times.len() > 0,
        ascending(times),
    ensures
        is_closest(times, wanted, closest_position(times, wanted)),
{
    let last = times.len() - 1;
    if times.len() == 1 {
    } else if wanted <= times[0] {
        assert forall|j: int| 0 <= j < times.len() implies times[0] <= #[trigger] times[j] by {}
    } else if wanted >= times[last] {
        assert forall|j: int| 0 <= j < times.len() implies #[trigger] times[j] <= times[last] by {}
    } else {
        lemma_bisect_closest(times, wanted, 0, last);
    }
}

/// Distance between two lap times.
pub fn time_distance(a: u32, b: u32) -> (d: u32)
    ensures
        d == distance(a as int, b as int),
{
    if a >= b {
        a - b
    } else {
        b - a
    }
}

/// Searches `indexes` by halving for the car whose lap time is closest to
/// `target_time`. `indexes` must not be empty. The result is fixed for every
/// list; `lemma_closest_position_is_closest` says what it is worth on a list
/// in ascending order of lap time.
pub fn find_closest_time(cars: &[Car], indexes: &[CarIndex], target_time: u32) -> (best: CarIndex)
    requires
        indexes@.len() > 0,
        in_pool(indexes@, cars@.len()),
    ensures
        0 <= closest_position(lap_times_of(cars@, indexes@), target_time as int) < indexes@.len(),
        best == indexes@[closest_position(lap_times_of(cars@, indexes@), target_time as int)],
        indexes@.contains(best),
{
    let ghost times = lap_times_of(cars@, indexes@);
    proof {
        lemma_closest_position_in_range(times, target_time as int);
    }
    if indexes.len() == 1 {
        return indexes[0];
    }
    let mut left: usize = 0;
    let mut right: usize = indexes.len() - 1;
    if target_time <= get_lap_time(cars, indexes[left]) {
        return indexes[left];
    }
    if target_time >= get_lap_time(cars, indexes[right]) {
        return indexes[right];
    }
    while left + 1 < right
        invariant
            0 <= left < right < indexes@.len(),
            in_pool(indexes@, cars@.len()),
            times == lap_times_of(cars@, indexes@),
            bisect(times, target_time as int, left as int, right as int) == closest_position(
                times,
                target_time as int,
            ),
        decreases right - left,
    {
        let mid = left + (right - left) / 2;
        let mid_time = get_lap_time(cars, indexes[mid]);
        if mid_time == target_time {
            return indexes[mid];
        } else if mid_time < target_time {
            left = mid;
        } else {
            right = mid;
        }
    }
    let left_diff = time_distance(get_lap_time(cars, indexes[left]), target_time);
    let right_diff = time_distance(get_lap_time(cars, indexes[right]), target_time);
    if left_diff <= right_diff {
        indexes[left]
    } else {
        indexes[right]
    }
}

} // verus!
