//! What holds whatever the input: of the feasible range, and of times that
//! are written and read again.

use vstd::prelude::*;
use crate::bounds::{
    feasible_max, feasible_min, lemma_head_below_tail, lemma_leq_total, leq, sorted_lap_times,
};
use crate::car::{in_pool, lap_times, lap_times_of, Car, CarIndex};
use crate::error::SubsetError;
use crate::ingest::format_text;
use crate::fallback::reusable;
use crate::search::{
    is_leftover, is_prepared, search_from, search_outcome, search_state, slot_choice, slot_rule,
    without,
};
use crate::tolerance::Tolerance;
use crate::sums::{lemma_sum_non_negative, lemma_sum_subrange, subset_sum, sum};
use crate::text::{
    all_digits, decimal_digits, decimal_value, digit_run, is_digit, is_white_space,
    lemma_decimal_round_trip, padded_digits, space_run, trim, unsigned_body, unsigned_value, zeros,
};
use crate::utils::{colon_time, minutes_seconds_millis, read_time, scaled_millis};

verus! {

/// The pool in ascending order holds as many lap times as the pool.
pub proof fn lemma_sorted_lap_times(cars: Seq<Car>)
    ensures
        sorted_lap_times(cars).len() == cars.len(),
        sorted_lap_times(cars).to_multiset() == lap_times(cars).to_multiset(),
        crate::sums::non_negative(sorted_lap_times(cars)),
{
    broadcast use vstd::seq_lib::group_to_multiset_ensures;

    lemma_leq_total();
    let times = lap_times(cars);
    let sorted = sorted_lap_times(cars);
    times.lemma_sort_by_ensures(leq());
    sorted.to_multiset_ensures();
    times.to_multiset_ensures();
    assert forall|i: int| 0 <= i < sorted.len() implies 0 <= #[trigger] sorted[i] by {
        assert(sorted.contains(sorted[i]));
        assert(times.to_multiset().count(sorted[i]) > 0);
        assert(times.contains(sorted[i]));
    }
}

/// No car gives a range of zero to zero, and so does an empty pool, however
/// many cars are asked for.
pub proof fn feasible_range_of_nothing(cars: Seq<Car>, count: nat)
    ensures
        feasible_min(cars, 0) == 0 && feasible_max(cars, 0) == 0,
        cars.len() == 0 ==> feasible_min(cars, count) == 0 && feasible_max(cars, count) == 0,
{
    lemma_sorted_lap_times(cars);
    let sorted = sorted_lap_times(cars);
    assert(sorted.take(0) =~= Seq::<int>::empty());
    assert(sorted.skip(sorted.len() as int) =~= Seq::<int>::empty());
    if cars.len() == 0 {
        assert(sorted =~= Seq::<int>::empty());
        assert(sorted.take(0) =~= sorted);
    }
}

/// The feasible range depends on nothing but the pool and the count: two
/// answers to the same question are the same.
pub proof fn feasible_range_is_idempotent(
    cars: Seq<Car>,
    count: nat,
    first: (u32, u32),
    second: (u32, u32),
)
    requires
        first.0 == feasible_min(cars, count) && first.1 == feasible_max(cars, count),
        second.0 == feasible_min(cars, count) && second.1 == feasible_max(cars, count),
    ensures
        first == second,
{
}

/// The range is in order, lies between zero and the pool's total, and is the
/// pool's total at both ends once the count reaches the size of the pool.
pub proof fn feasible_range_is_in_order(cars: Seq<Car>, count: nat)
    ensures
        0 <= feasible_min(cars, count) <= feasible_max(cars, count) <= sum(sorted_lap_times(cars)),
        count >= cars.len() ==> feasible_min(cars, count) == feasible_max(cars, count),
{
    lemma_sorted_lap_times(cars);
    let sorted = sorted_lap_times(cars);
    lemma_sum_non_negative(sorted);
    lemma_leq_total();
    lap_times(cars).lemma_sort_by_ensures(leq());
    if count <= sorted.len() {
        lemma_sum_subrange(sorted, 0, count as int);
        lemma_sum_subrange(sorted, sorted.len() - count, sorted.len() as int);
        lemma_head_below_tail(sorted, count);
        if count == sorted.len() {
            assert(sorted.take(count as int) =~= sorted);
            assert(sorted.skip(0) =~= sorted);
        }
    }
}

/// Zeros in front of digits do not change the number that they denote.
proof fn lemma_zeros_in_front(count: nat, digits: Seq<char>)
    ensures
        decimal_value(zeros(count) + digits) == decimal_value(digits),
        all_digits(digits) ==> all_digits(zeros(count) + digits),
    decreases digits.len(), count,
{
    let whole = zeros(count) + digits;
    if digits.len() > 0 {
        lemma_zeros_in_front(count, digits.drop_last());
        assert(whole.drop_last() =~= zeros(count) + digits.drop_last());
        assert(whole.last() == digits.last());
    } else if count > 0 {
        lemma_zeros_in_front((count - 1) as nat, digits);
        assert(whole.drop_last() =~= zeros((count - 1) as nat) + digits);
        assert(whole.last() == '0');
    } else {
        assert(whole =~= digits);
    }
    if all_digits(digits) {
        assert forall|i: int| 0 <= i < whole.len() implies is_digit(#[trigger] whole[i]) by {
            if i >= count {
                assert(whole[i] == digits[i - count]);
            }
        }
    }
}

/// How long the digits of small numbers are.
proof fn lemma_short_numbers(n: nat)
    ensures
        n < 10 ==> decimal_digits(n).len() == 1,
        n < 100 ==> decimal_digits(n).len() <= 2,
        n < 1000 ==> decimal_digits(n).len() <= 3,
{
    if n >= 10 {
        assert(decimal_digits(n).len() == decimal_digits(n / 10).len() + 1);
        if n >= 100 {
            assert(decimal_digits(n / 10).len() == decimal_digits(n / 100).len() + 1);
        }
    }
}

/// Padded digits are digits, at least as many as the width, no more where the
/// number is small enough, and denote the number.
proof fn lemma_padded(n: nat, width: nat)
    ensures
        all_digits(padded_digits(n, width)),
        padded_digits(n, width).len() >= width,
        padded_digits(n, width).len() >= 1,
        decimal_digits(n).len() <= width ==> padded_digits(n, width).len() == width,
        decimal_value(padded_digits(n, width)) == n,
{
    lemma_decimal_round_trip(n);
    let digits = decimal_digits(n);
    if digits.len() < width {
        lemma_zeros_in_front((width - digits.len()) as nat, digits);
    }
}

/// Digits in front of a text that does not begin with a digit are the
/// digits at its front.
proof fn lemma_digit_run_of(digits: Seq<char>, rest: Seq<char>)
    requires
        all_digits(digits),
        rest.len() == 0 || !is_digit(rest[0]),
    ensures
        digit_run(digits + rest) == digits.len(),
    decreases digits.len(),
{
    let whole = digits + rest;
    if digits.len() > 0 {
        assert(whole[0] == digits[0]);
        assert(is_digit(digits[0]));
        let shorter = digits.drop_first();
        assert forall|i: int| 0 <= i < shorter.len() implies is_digit(#[trigger] shorter[i]) by {
            assert(shorter[i] == digits[i + 1]);
        }
        lemma_digit_run_of(shorter, rest);
        assert(whole.drop_first() =~= shorter + rest);
    } else {
        assert(whole =~= rest);
    }
}

/// A text that begins and ends with a digit has no white space to lose.
proof fn lemma_trim_keeps(t: Seq<char>)
    requires
        t.len() > 0,
        is_digit(t[0]),
        is_digit(t.last()),
    ensures
        trim(t) == t,
{
    assert(!is_white_space(t[0]));
    assert(!is_white_space(t.last()));
    assert(space_run(t) == 0);
    assert(t.skip(0) =~= t);
}

/// A time that is written as `MM:SS.mmm` reads as the same time.
pub proof fn written_time_reads_back(ms: u32)
    ensures
        read_time(trim(format_text(ms))) == Ok::<u32, Seq<char>>(ms),
{
    let minutes = (ms / 1000 / 60) as nat;
    let seconds = (ms / 1000 % 60) as nat;
    let millis = (ms % 1000) as nat;
    let m = padded_digits(minutes, 2);
    let s = padded_digits(seconds, 2);
    let f = padded_digits(millis, 3);
    let t = format_text(ms);
    lemma_padded(minutes, 2);
    lemma_padded(seconds, 2);
    lemma_padded(millis, 3);
    lemma_short_numbers(seconds);
    lemma_short_numbers(millis);
    let a = m.len() as int;
    assert(t =~= m + (seq![':'] + s + seq!['.'] + f));
    assert(t.len() == a + 7);
    assert(t[0] == m[0]);
    assert(t.last() == f[2]);
    assert(is_digit(m[0]) && is_digit(f[2]));
    lemma_trim_keeps(t);
    assert(!is_digit(':') && !is_digit('.'));
    assert((seq![':'] + s + seq!['.'] + f)[0] == ':');
    lemma_digit_run_of(m, seq![':'] + s + seq!['.'] + f);
    assert(t[a] == ':');
    assert(unsigned_body(t) == t);
    assert(!all_digits(t));
    assert(unsigned_value(t, u32::MAX as nat) is None);
    let after = t.skip(a + 1);
    assert(after =~= s + (seq!['.'] + f));
    assert((seq!['.'] + f)[0] == '.');
    lemma_digit_run_of(s, seq!['.'] + f);
    let c = a + 3;
    assert(t[c] == '.');
    assert(t.skip(c + 1) =~= f);
    assert(t.take(a) =~= m);
    assert(t.subrange(a + 1, c) =~= s);
    assert(unsigned_body(m) == m);
    assert(unsigned_value(m, u32::MAX as nat) == Some(minutes));
    assert(scaled_millis(f) == millis);
    assert(minutes * 60_000 + seconds * 1_000 + millis == ms);
    assert(colon_time(t, a) == minutes_seconds_millis(m, s, f));
}

/// The entries of `times` at the given places.
pub open spec fn picked(times: Seq<int>, places: Seq<int>) -> Seq<int> {
    Seq::new(places.len(), |i: int| times[places[i]])
}

/// The places are different positions from `low` up to, but not including,
/// `high`.
pub open spec fn distinct_places(places: Seq<int>, low: int, high: int) -> bool {
    &&& places.no_duplicates()
    &&& forall|i: int| 0 <= i < places.len() ==> low <= #[trigger] places[i] < high
}

/// `times` is in ascending order.
pub open spec fn in_ascending_order(times: Seq<int>) -> bool {
    forall|i: int, j: int| 0 <= i <= j < times.len() ==> times[i] <= times[j]
}

/// The position of the greatest of the places.
spec fn greatest_at(places: Seq<int>) -> int
    decreases places.len(),
{
    if places.len() <= 1 {
        0
    } else {
        let before = greatest_at(places.drop_last());
        if places.last() > places[before] {
            places.len() - 1
        } else {
            before
        }
    }
}

/// The position of the least of the places.
spec fn least_at(places: Seq<int>) -> int
    decreases places.len(),
{
    if places.len() <= 1 {
        0
    } else {
        let before = least_at(places.drop_last());
        if places.last() < places[before] {
            places.len() - 1
        } else {
            before
        }
    }
}

proof fn lemma_greatest_and_least(places: Seq<int>)
    requires
        places.len() > 0,
    ensures
        0 <= greatest_at(places) < places.len(),
        0 <= least_at(places) < places.len(),
        forall|i: int| 0 <= i < places.len() ==> #[trigger] places[i] <= places[greatest_at(places)],
        forall|i: int| 0 <= i < places.len() ==> places[least_at(places)] <= #[trigger] places[i],
    decreases places.len(),
{
    if places.len() > 1 {
        let front = places.drop_last();
        lemma_greatest_and_least(front);
        assert forall|i: int| 0 <= i < places.len() implies #[trigger] places[i]
            <= places[greatest_at(places)] && places[least_at(places)] <= places[i] by {
            if i < front.len() {
                assert(places[i] == front[i]);
                assert(front[i] <= front[greatest_at(front)]);
                assert(front[least_at(front)] <= front[i]);
            }
        }
    }
}

/// Different whole numbers of a range are no more than the range holds.
proof fn lemma_places_fit(places: Seq<int>, low: int, high: int)
    requires
        distinct_places(places, low, high),
    ensures
        places.len() <= (if high > low {
            high - low
        } else {
            0
        }),
    decreases high - low,
{
    if high <= low {
        if places.len() > 0 {
            assert(low <= places[0] < high);
        }
    } else if exists|p: int| 0 <= p < places.len() && places[p] == high - 1 {
        let p = choose|p: int| 0 <= p < places.len() && places[p] == high - 1;
        let others = places.remove(p);
        lemma_remove_place(places, p, low, high);
        assert forall|i: int| 0 <= i < others.len() implies low <= #[trigger] others[i] < high
            - 1 by {
            let oi = if i < p { i } else { i + 1 };
            assert(others[i] == places[oi]);
            assert(places[oi] != places[p]);
        }
        lemma_places_fit(others, low, high - 1);
    } else {
        assert forall|i: int| 0 <= i < places.len() implies low <= #[trigger] places[i] < high
            - 1 by {
            assert(low <= places[i] < high);
        }
        lemma_places_fit(places, low, high - 1);
    }
}

/// Taking one place away leaves different places of the range, and lowers the
/// sum of what they pick by what the place picked.
proof fn lemma_remove_place(places: Seq<int>, p: int, low: int, high: int)
    requires
        distinct_places(places, low, high),
        0 <= p < places.len(),
    ensures
        distinct_places(places.remove(p), low, high),
        places.remove(p).len() == places.len() - 1,
{
    let rest = places.remove(p);
    assert forall|i: int, j: int| 0 <= i < rest.len() && 0 <= j < rest.len() && i != j implies rest[i]
        != rest[j] by {
        let oi = if i < p { i } else { i + 1 };
        let oj = if j < p { j } else { j + 1 };
        assert(rest[i] == places[oi]);
        assert(rest[j] == places[oj]);
    }
    assert forall|i: int| 0 <= i < rest.len() implies low <= #[trigger] rest[i] < high by {
        let oi = if i < p { i } else { i + 1 };
        assert(rest[i] == places[oi]);
    }
}

proof fn lemma_picked_remove(times: Seq<int>, places: Seq<int>, p: int)
    requires
        0 <= p < places.len(),
    ensures
        sum(picked(times, places)) == sum(picked(times, places.remove(p))) + times[places[p]],
{
    assert(picked(times, places).remove(p) =~= picked(times, places.remove(p)));
    crate::sums::lemma_sum_remove(picked(times, places), p);
}

/// What different places pick from an ascending sequence sums to no less
/// than as many entries at its front.
proof fn lemma_picked_at_least_head(times: Seq<int>, places: Seq<int>)
    requires
        in_ascending_order(times),
        distinct_places(places, 0, times.len() as int),
    ensures
        places.len() <= times.len(),
        sum(times.take(places.len() as int)) <= sum(picked(times, places)),
    decreases places.len(),
{
    lemma_places_fit(places, 0, times.len() as int);
    let x = places.len() as int;
    if x == 0 {
        assert(times.take(0) =~= Seq::<int>::empty());
        assert(picked(times, places) =~= Seq::<int>::empty());
    } else {
        lemma_greatest_and_least(places);
        let k = greatest_at(places);
        let m = places[k];
        let rest = places.remove(k);
        lemma_remove_place(places, k, 0, times.len() as int);
        lemma_picked_at_least_head(times, rest);
        lemma_picked_remove(times, places, k);
        assert(distinct_places(places, 0, m + 1));
        lemma_places_fit(places, 0, m + 1);
        assert(times[x - 1] <= times[m]);
        assert(times.take(x).drop_last() =~= times.take(x - 1));
        assert(times.take(x).last() == times[x - 1]);
    }
}

/// What different places pick from an ascending sequence sums to no more
/// than as many entries at its end.
proof fn lemma_picked_at_most_tail(times: Seq<int>, places: Seq<int>)
    requires
        in_ascending_order(times),
        distinct_places(places, 0, times.len() as int),
    ensures
        places.len() <= times.len(),
        sum(picked(times, places)) <= sum(times.skip(times.len() - places.len())),
    decreases places.len(),
{
    lemma_places_fit(places, 0, times.len() as int);
    let n = times.len() as int;
    let x = places.len() as int;
    if x == 0 {
        assert(times.skip(n) =~= Seq::<int>::empty());
        assert(picked(times, places) =~= Seq::<int>::empty());
    } else {
        lemma_greatest_and_least(places);
        let k = least_at(places);
        let m = places[k];
        let rest = places.remove(k);
        lemma_remove_place(places, k, 0, n);
        lemma_picked_at_most_tail(times, rest);
        lemma_picked_remove(times, places, k);
        assert(distinct_places(places, m, n));
        lemma_places_fit(places, m, n);
        assert(times[m] <= times[n - x]);
        let tail = times.skip(n - x);
        let shorter = times.skip(n - x + 1);
        assert(tail =~= seq![times[n - x]] + shorter);
        crate::sums::lemma_sum_concat(seq![times[n - x]], shorter);
        assert(seq![times[n - x]] =~= Seq::<int>::empty().push(times[n - x]));
        crate::sums::lemma_sum_push(Seq::<int>::empty(), times[n - x]);
    }
}

/// An arrangement of the positions of `from` that turns it into `to`: each
/// position once, and the entry of `to` at `i` is the entry of `from` at the
/// position that stands at `i`.
pub open spec fn arranges(from: Seq<int>, to: Seq<int>, places: Seq<int>) -> bool {
    &&& places.len() == to.len()
    &&& to.len() == from.len()
    &&& distinct_places(places, 0, from.len() as int)
    &&& forall|i: int| 0 <= i < to.len() ==> to[i] == from[#[trigger] places[i]]
}

/// Two sequences with the same entries are arrangements of each other.
proof fn lemma_arrangement_exists(from: Seq<int>, to: Seq<int>) -> (places: Seq<int>)
    requires
        from.to_multiset() == to.to_multiset(),
    ensures
        arranges(from, to, places),
    decreases to.len(),
{
    broadcast use vstd::seq_lib::group_to_multiset_ensures;

    from.to_multiset_ensures();
    to.to_multiset_ensures();
    if to.len() == 0 {
        Seq::empty()
    } else {
        let v = to.last();
        let shorter = to.drop_last();
        assert(to =~= shorter.push(v));
        assert(to.contains(v));
        assert(from.to_multiset().count(v) > 0);
        assert(from.contains(v));
        let p = from.index_of(v);
        let others = from.remove(p);
        assert(shorter.to_multiset() =~= to.to_multiset().remove(v)) by {
            assert(shorter =~= to.remove(to.len() - 1));
        }
        assert(others.to_multiset() =~= from.to_multiset().remove(v));
        let inner = lemma_arrangement_exists(others, shorter);
        let lifted = Seq::new(
            inner.len(),
            |i: int|
                if inner[i] < p {
                    inner[i]
                } else {
                    inner[i] + 1
                },
        );
        let places = lifted.push(p);
        assert forall|i: int, j: int|
            0 <= i < places.len() && 0 <= j < places.len() && i != j implies places[i]
            != places[j] by {
            if i < inner.len() && j < inner.len() {
                assert(inner[i] != inner[j]);
            }
        }
        assert forall|i: int| 0 <= i < to.len() implies to[i] == from[#[trigger] places[i]] by {
            if i < inner.len() {
                assert(shorter[i] == others[inner[i]]);
                assert(to[i] == shorter[i]);
            }
        }
        places
    }
}

/// The feasible range is what its name says: whichever distinct cars of the
/// pool are chosen, their lap times sum to no less than the lower end and to
/// no more than the upper end of the range for their number.
pub proof fn feasible_range_bounds_every_subset(cars: Seq<Car>, subset: Seq<CarIndex>)
    requires
        subset.no_duplicates(),
        in_pool(subset, cars.len()),
    ensures
        feasible_min(cars, subset.len()) <= subset_sum(cars, subset) <= feasible_max(
            cars,
            subset.len(),
        ),
{
    lemma_sorted_lap_times(cars);
    lemma_leq_total();
    let times = lap_times(cars);
    let sorted = sorted_lap_times(cars);
    times.lemma_sort_by_ensures(leq());
    assert(in_ascending_order(sorted)) by {
        assert forall|i: int, j: int| 0 <= i <= j < sorted.len() implies sorted[i] <= sorted[j] by {
            if i < j {
                assert(leq()(sorted[i], sorted[j]));
            }
        }
    }
    // where each car of the pool stands in the ascending order
    let seat = lemma_arrangement_exists(sorted, times);
    let places = Seq::new(subset.len(), |i: int| seat[subset[i] as int]);
    assert(distinct_places(places, 0, sorted.len() as int)) by {
        assert forall|i: int, j: int|
            0 <= i < places.len() && 0 <= j < places.len() && i != j implies places[i]
            != places[j] by {
            assert(subset[i] != subset[j]);
        }
        assert forall|i: int| 0 <= i < places.len() implies 0 <= #[trigger] places[i]
            < sorted.len() by {
            assert(subset[i] < cars.len());
            assert(0 <= seat[subset[i] as int] < sorted.len());
        }
    }
    assert(picked(sorted, places) =~= lap_times_of(cars, subset)) by {
        assert forall|i: int| 0 <= i < subset.len() implies picked(sorted, places)[i]
            == lap_times_of(cars, subset)[i] by {
            assert(subset[i] < cars.len());
            assert(times[subset[i] as int] == sorted[seat[subset[i] as int]]);
        }
    }
    lemma_picked_at_least_head(sorted, places);
    lemma_picked_at_most_tail(sorted, places);
}

/// As many distinct cars as the pool holds sum to the pool's total.
pub proof fn lemma_full_list_sum(cars: Seq<Car>, list: Seq<CarIndex>)
    requires
        cars.len() <= usize::MAX,
        list.no_duplicates(),
        in_pool(list, cars.len()),
        list.len() == cars.len(),
    ensures
        subset_sum(cars, list) == crate::sums::pool_total(cars),
{
    let n = cars.len();
    let all = crate::bounds::identity(n);
    assert(all.no_duplicates());
    assert(in_pool(all, n));
    feasible_range_bounds_every_subset(cars, list);
    feasible_range_bounds_every_subset(cars, all);
    feasible_range_is_in_order(cars, n);
    assert(lap_times_of(cars, all) =~= lap_times(cars));
}

/// A search for all the cars of the pool, with the pool's total for its
/// target, succeeds from every slot that it can come to.
proof fn lemma_whole_pool_from(
    cars: Seq<Car>,
    target: u32,
    previous: Set<CarIndex>,
    tolerance: Tolerance,
    selected: Seq<CarIndex>,
    remaining: Seq<CarIndex>,
    found: Result<Vec<CarIndex>, SubsetError>,
)
    requires
        cars.len() <= usize::MAX,
        previous.finite(),
        crate::car::set_in_pool(previous, cars.len()),
        target == crate::sums::pool_total(cars),
        target > 0,
        selected.len() <= cars.len(),
        search_state(cars, previous, selected, remaining, subset_sum(cars, selected)),
        search_from(cars, target, cars.len() as int, previous, tolerance, selected, remaining, found),
    ensures
        found is Ok,
    decreases cars.len() - selected.len(),
{
    let n = cars.len();
    let lap_count = n as int;
    if selected.len() < n {
        let needed = lap_count - selected.len();
        let so_far = subset_sum(cars, selected);
        let prepared = choose|prepared: Result<(Vec<CarIndex>, bool), SubsetError>| #[trigger]
            is_prepared(cars, remaining, previous, selected, so_far, target, needed, prepared)
                && match prepared {
                Err(error) => found == Err::<Vec<CarIndex>, SubsetError>(error),
                Ok((candidates, using_previous_cars)) => exists|chosen: CarIndex| #[trigger]
                    slot_choice(
                        cars,
                        candidates@,
                        previous,
                        selected,
                        so_far,
                        using_previous_cars,
                        target,
                        needed,
                        tolerance,
                        chosen,
                    ) && search_from(
                        cars,
                        target,
                        lap_count,
                        previous,
                        tolerance,
                        selected.push(chosen),
                        without(remaining, chosen),
                        found,
                    ),
            };
        let (list, flag) = choose|list: Seq<CarIndex>, flag: bool| #[trigger]
            slot_rule(cars, remaining, previous, selected, so_far, target, needed, list, flag, prepared);
        let times = lap_times_of(cars, list);
        let added = list.skip(remaining.len() as int);
        crate::search::lemma_search_state_count(cars, previous, selected, remaining, so_far);
        crate::search::lemma_reusable_set(previous, selected);
        crate::search::lemma_candidates_distinct(
            cars,
            previous,
            selected,
            remaining,
            so_far,
            list,
            flag,
        );
        // the candidates are all the cars that the subset does not hold yet
        assert(list.len() == needed) by {
            if flag {
                added.unique_seq_to_set();
            } else {
                assert(added.len() == 0);
                if exists|x: CarIndex| reusable(previous, selected, x) {
                    assert(remaining.len() >= needed);
                }
            }
        }
        let whole = selected + list;
        vstd::seq_lib::lemma_no_dup_in_concat(selected, list);
        assert(in_pool(whole, n));
        lemma_full_list_sum(cars, whole);
        crate::sums::lemma_lap_times_of_concat(cars, selected, list);
        lemma_whole_sums(times);
        assert(crate::search::target_within_reach(cars, list, so_far, target as int, needed as nat));
        assert(prepared is Ok);
        let candidates = prepared->Ok_0.0;
        assert(candidates@ == list);
        let chosen = choose|chosen: CarIndex| #[trigger]
            slot_choice(
                cars,
                candidates@,
                previous,
                selected,
                so_far,
                flag,
                target,
                needed,
                tolerance,
                chosen,
            ) && search_from(
                cars,
                target,
                lap_count,
                previous,
                tolerance,
                selected.push(chosen),
                without(remaining, chosen),
                found,
            );
        assert(list.contains(chosen)) by {
            if needed == 1 {
                assert(times =~= Seq::<int>::empty().push(times[0]));
                crate::sums::lemma_sum_push(Seq::<int>::empty(), times[0]);
                let wanted = crate::picker::gap(target as int, so_far);
                assert(crate::closest::closest_position(times, wanted) == 0);
                let m = tolerance.millipercent as int;
                assert((100_000 - m) * target <= 100_000 * target <= (100_000 + m) * target)
                    by (nonlinear_arith)
                    requires
                        0 <= m,
                        0 < target,
                ;
                assert(chosen == list[0]);
            } else if !crate::picker::window_has_candidate(
                cars,
                list,
                so_far,
                target as int,
                needed,
            ) {
                let wanted = crate::fallback::ideal_average(target as int, so_far, needed);
                crate::fallback::lemma_first_nearest(times, wanted, times.len() as int);
                if !flag {
                    assert(!(exists|x: CarIndex| reusable(previous, selected, x)));
                }
                assert(chosen == list[crate::fallback::first_nearest(times, wanted)]);
            }
        }
        let k = choose|k: int| 0 <= k < list.len() && list[k] == chosen;
        assert(chosen < n);
        assert(!selected.contains(chosen)) by {
            if selected.contains(chosen) {
                let i = choose|i: int| 0 <= i < selected.len() && selected[i] == chosen;
                assert(selected[i] != list[k]);
            }
        }
        crate::sums::lemma_lap_times_of_push(cars, selected, chosen);
        if remaining.contains(chosen) {
            let p = remaining.index_of(chosen);
            crate::search::lemma_search_state_step(cars, previous, selected, remaining, so_far, p);
        } else {
            assert(reusable(previous, selected, chosen)) by {
                if k < remaining.len() {
                    assert(list.take(remaining.len() as int)[k] == chosen);
                } else {
                    assert(added[k - remaining.len()] == chosen);
                    assert(added.contains(chosen));
                }
            }
            crate::search::lemma_search_state_reuse(
                cars,
                previous,
                selected,
                remaining,
                so_far,
                chosen,
            );
        }
        lemma_whole_pool_from(
            cars,
            target,
            previous,
            tolerance,
            selected.push(chosen),
            without(remaining, chosen),
            found,
        );
    }
}

/// Sums of all entries, of all but the first and of all but the last.
proof fn lemma_whole_sums(times: Seq<int>)
    requires
        times.len() >= 1,
    ensures
        crate::bounds::head_sum(times, times.len()) == sum(times),
        crate::bounds::tail_sum(times, times.len()) == sum(times),
{
    let n = times.len() as int;
    assert(times.take(n) =~= times);
    assert(times.skip(0) =~= times);
}

/// A search for all the cars of a pool, with the pool's total for its target,
/// succeeds whatever the draws and whatever earlier subsets hold, and returns
/// every car of the pool.
pub proof fn search_for_the_whole_pool_succeeds(
    cars: Seq<Car>,
    target: u32,
    previous: Set<CarIndex>,
    tolerance: Tolerance,
    found: Result<Vec<CarIndex>, SubsetError>,
)
    requires
        cars.len() <= usize::MAX,
        previous.finite(),
        crate::car::set_in_pool(previous, cars.len()),
        target == crate::sums::pool_total(cars),
        target > 0,
        search_outcome(cars, target, cars.len(), previous, tolerance, found),
    ensures
        found matches Ok(subset) && subset@.len() == cars.len() && forall|x: CarIndex|
            x < cars.len() ==> subset@.contains(x),
        found matches Ok(subset) && subset_sum(cars, subset@) == target,
{
    let n = cars.len();
    let left = choose|left: Seq<CarIndex>| #[trigger]
        is_leftover(cars, previous, left) && search_from(
            cars,
            target,
            n as int,
            previous,
            tolerance,
            Seq::<CarIndex>::empty(),
            left,
            found,
        );
    let none = Seq::<CarIndex>::empty();
    assert(lap_times_of(cars, none) =~= Seq::<int>::empty());
    assert(search_state(cars, previous, none, left, subset_sum(cars, none)));
    lemma_whole_pool_from(cars, target, previous, tolerance, none, left, found);
    let subset = found->Ok_0;
    assert(crate::search::is_subset_of_pool(subset@, n, n));
    lemma_full_list_sum(cars, subset@);
    assert forall|x: CarIndex| x < n implies subset@.contains(x) by {
        crate::utils::lemma_full_subset_covers(subset@, n);
    }
}

} // verus!
