//! Sums of lap times, and the facts about them that the search relies on.

use vstd::prelude::*;
use crate::car::{Car, CarIndex, lap_times, lap_times_of, in_pool};

verus! {

/// Sum of a sequence of integers.
pub open spec fn sum(s: Seq<int>) -> int
    decreases s.len(),
{
    if s.len() == 0 {
        0
    } else {
        sum(s.drop_last()) + s.last()
    }
}

/// No entry is negative.
pub open spec fn non_negative(s: Seq<int>) -> bool {
    forall|i: int| 0 <= i < s.len() ==> 0 <= #[trigger] s[i]
}

/// Total lap time of the cars that `indexes` selects.
pub open spec fn subset_sum(cars: Seq<Car>, indexes: Seq<CarIndex>) -> int {
    sum(lap_times_of(cars, indexes))
}

/// Total lap time of the pool.
pub open spec fn pool_total(cars: Seq<Car>) -> int {
    sum(lap_times(cars))
}

/// The total lap time of the pool, as far as it fits in 32 bits.
pub fn checked_pool_total(cars: &[Car]) -> (total: Option<u32>)
    ensures
        match total {
            Some(t) => t == pool_total(cars@),
            None => pool_total(cars@) > u32::MAX,
        },
{
    let ghost times = lap_times(cars@);
    proof {
        lemma_lap_times_non_negative(cars@, Seq::empty());
        assert(times.take(0) =~= Seq::<int>::empty());
    }
    let mut total: u32 = 0;
    let mut i: usize = 0;
    while i < cars.len()
        invariant
            i <= cars@.len(),
            times == lap_times(cars@),
            non_negative(times),
            total == sum(times.take(i as int)),
        decreases cars@.len() - i,
    {
        proof {
            lemma_sum_subrange(times, 0, i + 1);
            assert(times.take(i + 1) =~= times.take(i as int).push(times[i as int]));
            lemma_sum_push(times.take(i as int), times[i as int]);
        }
        let lap_time = cars[i].lap_time;
        if lap_time > u32::MAX - total {
            return None;
        }
        total = total + lap_time;
        i += 1;
    }
    proof {
        assert(times.take(cars@.len() as int) =~= times);
    }
    Some(total)
}

/// Whether the pool's total lap time fits in 32 bits, as the feasible range
/// needs it.
pub fn pool_total_fits(cars: &[Car]) -> (fits: bool)
    ensures
        fits == (pool_total(cars@) <= u32::MAX),
{
    checked_pool_total(cars).is_some()
}

pub proof fn lemma_sum_push(s: Seq<int>, x: int)
    ensures
        sum(s.push(x)) == sum(s) + x,
{
    assert(s.push(x).drop_last() =~= s);
}

pub proof fn lemma_sum_concat(a: Seq<int>, b: Seq<int>)
    ensures
        sum(a + b) == sum(a) + sum(b),
    decreases b.len(),
{
    if b.len() == 0 {
        assert(a + b =~= a);
    } else {
        lemma_sum_concat(a, b.drop_last());
        assert((a + b).drop_last() =~= a + b.drop_last());
    }
}

pub proof fn lemma_sum_non_negative(s: Seq<int>)
    requires
        non_negative(s),
    ensures
        0 <= sum(s),
    decreases s.len(),
{
    if s.len() > 0 {
        lemma_sum_non_negative(s.drop_last());
    }
}

/// Taking an entry out lowers the sum by that entry.
pub proof fn lemma_sum_remove(s: Seq<int>, i: int)
    requires
        0 <= i < s.len(),
    ensures
        sum(s) == sum(s.remove(i)) + s[i],
{
    let left = s.take(i);
    let right = s.skip(i + 1);
    assert(s =~= left.push(s[i]) + right);
    assert(s.remove(i) =~= left + right);
    lemma_sum_concat(left.push(s[i]), right);
    lemma_sum_concat(left, right);
    lemma_sum_push(left, s[i]);
}

/// A part of a sequence of non-negative entries sums to no more than the whole.
pub proof fn lemma_sum_subrange(s: Seq<int>, from: int, to: int)
    requires
        non_negative(s),
        0 <= from <= to <= s.len(),
    ensures
        0 <= sum(s.subrange(from, to)) <= sum(s),
{
    let left = s.subrange(0, from);
    let mid = s.subrange(from, to);
    let right = s.subrange(to, s.len() as int);
    assert(s =~= left + mid + right);
    lemma_sum_concat(left + mid, right);
    lemma_sum_concat(left, mid);
    lemma_sum_non_negative(left);
    lemma_sum_non_negative(mid);
    lemma_sum_non_negative(right);
}

pub proof fn lemma_lap_times_non_negative(cars: Seq<Car>, indexes: Seq<CarIndex>)
    ensures
        non_negative(lap_times_of(cars, indexes)),
        non_negative(lap_times(cars)),
{
}

pub proof fn lemma_lap_times_of_push(cars: Seq<Car>, indexes: Seq<CarIndex>, x: CarIndex)
    ensures
        lap_times_of(cars, indexes.push(x)) == lap_times_of(cars, indexes).push(
            cars[x as int].lap_time as int,
        ),
        subset_sum(cars, indexes.push(x)) == subset_sum(cars, indexes) + cars[x as int].lap_time,
{
    assert(lap_times_of(cars, indexes.push(x)) =~= lap_times_of(cars, indexes).push(
        cars[x as int].lap_time as int,
    ));
    lemma_sum_push(lap_times_of(cars, indexes), cars[x as int].lap_time as int);
}

pub proof fn lemma_lap_times_of_concat(cars: Seq<Car>, a: Seq<CarIndex>, b: Seq<CarIndex>)
    ensures
        lap_times_of(cars, a + b) == lap_times_of(cars, a) + lap_times_of(cars, b),
        subset_sum(cars, a + b) == subset_sum(cars, a) + subset_sum(cars, b),
{
    assert(lap_times_of(cars, a + b) =~= lap_times_of(cars, a) + lap_times_of(cars, b));
    lemma_sum_concat(lap_times_of(cars, a), lap_times_of(cars, b));
}

pub proof fn lemma_lap_times_of_remove(cars: Seq<Car>, indexes: Seq<CarIndex>, i: int)
    requires
        0 <= i < indexes.len(),
    ensures
        lap_times_of(cars, indexes.remove(i)) == lap_times_of(cars, indexes).remove(i),
        subset_sum(cars, indexes) == subset_sum(cars, indexes.remove(i))
            + cars[indexes[i] as int].lap_time,
{
    assert(lap_times_of(cars, indexes.remove(i)) =~= lap_times_of(cars, indexes).remove(i));
    lemma_sum_remove(lap_times_of(cars, indexes), i);
}

/// Distinct cars of the pool never sum to more than the pool's total.
pub proof fn lemma_distinct_cars_sum(cars: Seq<Car>, indexes: Seq<CarIndex>)
    requires
        indexes.no_duplicates(),
        in_pool(indexes, cars.len()),
    ensures
        0 <= subset_sum(cars, indexes) <= pool_total(cars),
    decreases cars.len(),
{
    lemma_lap_times_non_negative(cars, indexes);
    lemma_sum_non_negative(lap_times_of(cars, indexes));
    if cars.len() == 0 {
        if indexes.len() > 0 {
            assert(indexes[0] < cars.len());
        }
        assert(lap_times_of(cars, indexes) =~= Seq::<int>::empty());
        assert(lap_times(cars) =~= Seq::<int>::empty());
    } else {
        let rest = cars.drop_last();
        assert(lap_times(cars) =~= lap_times(rest).push(cars.last().lap_time as int));
        lemma_sum_push(lap_times(rest), cars.last().lap_time as int);
        if exists|p: int| 0 <= p < indexes.len() && indexes[p] == cars.len() - 1 {
            let p = choose|p: int| 0 <= p < indexes.len() && indexes[p] == cars.len() - 1;
            let others = indexes.remove(p);
            assert(others.no_duplicates()) by {
                assert forall|i: int, j: int|
                    0 <= i < others.len() && 0 <= j < others.len() && i != j implies others[i]
                    != others[j] by {
                    let oi = if i < p { i } else { i + 1 };
                    let oj = if j < p { j } else { j + 1 };
                    assert(others[i] == indexes[oi]);
                    assert(others[j] == indexes[oj]);
                }
            }
            assert forall|i: int| 0 <= i < others.len() implies (#[trigger] others[i])
                < rest.len() by {
                let oi = if i < p { i } else { i + 1 };
                assert(others[i] == indexes[oi]);
                assert(indexes[oi] != indexes[p]);
                assert(indexes[oi] < cars.len());
            }
            lemma_distinct_cars_sum(rest, others);
            lemma_lap_times_of_remove(cars, indexes, p);
            assert(lap_times_of(cars, others) =~= lap_times_of(rest, others));
        } else {
            assert forall|i: int| 0 <= i < indexes.len() implies (#[trigger] indexes[i])
                < rest.len() by {
                assert(indexes[i] < cars.len());
            }
            lemma_distinct_cars_sum(rest, indexes);
            assert(lap_times_of(cars, indexes) =~= lap_times_of(rest, indexes));
        }
    }
}

} // verus!
