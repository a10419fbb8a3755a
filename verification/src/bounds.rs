//! Feasibility bounds: the least and the greatest sum that a given number of
//! cars can reach.

use vstd::prelude::*;
use vstd::relations::{sorted_by, total_ordering};
use vstd::seq_lib::lemma_sorted_unique;
use crate::car::{get_lap_time, in_pool, lap_times, lap_times_of, Car, CarIndex};
use crate::sums::{lemma_lap_times_non_negative, lemma_sum_push, lemma_sum_subrange, sum};

verus! {

/// The order of lap times.
pub open spec fn leq() -> spec_fn(int, int) -> bool {
    |a: int, b: int| a <= b
}

/// Sum of the first `x` entries of `times`, or of all of them if there are fewer.
pub open spec fn head_sum(times: Seq<int>, x: nat) -> int {
    if x <= times.len() {
        sum(times.take(x as int))
    } else {
        sum(times)
    }
}

/// Sum of the last `x` entries of `times`, or of all of them if there are fewer.
pub open spec fn tail_sum(times: Seq<int>, x: nat) -> int {
    if x <= times.len() {
        sum(times.skip(times.len() - x))
    } else {
        sum(times)
    }
}

/// The pool's lap times in ascending order.
pub open spec fn sorted_lap_times(cars: Seq<Car>) -> Seq<int> {
    lap_times(cars).sort_by(leq())
}

/// Sum of the `x` shortest lap times of the pool.
pub open spec fn feasible_min(cars: Seq<Car>, x: nat) -> int {
    head_sum(sorted_lap_times(cars), x)
}

/// Sum of the `x` longest lap times of the pool.
pub open spec fn feasible_max(cars: Seq<Car>, x: nat) -> int {
    tail_sum(sorted_lap_times(cars), x)
}

/// The positions `0, 1, .., n - 1`.
pub open spec fn identity(n: nat) -> Seq<CarIndex> {
    Seq::new(n, |i: int| i as CarIndex)
}

/// `indexes` is in ascending order of lap time.
pub open spec fn sorted_by_lap_time(cars: Seq<Car>, indexes: Seq<CarIndex>) -> bool {
    forall|i: int, j: int|
        0 <= i < j < indexes.len() ==> cars[#[trigger] indexes[i] as int].lap_time
            <= cars[#[trigger] indexes[j] as int].lap_time
}

/// Where two cars of `after` have the same lap time, they stand in the order
/// in which they stood in `before`.
pub open spec fn keeps_order_of_equals(
    cars: Seq<Car>,
    before: Seq<CarIndex>,
    after: Seq<CarIndex>,
) -> bool {
    forall|i: int, j: int|
        0 <= i < j < after.len() && cars[#[trigger] after[i] as int].lap_time
            == cars[#[trigger] after[j] as int].lap_time ==> before.index_of(after[i])
            < before.index_of(after[j])
}

/// Sorts `indexes` by lap time with `slice::sort_by_key`. Trusted: the result
/// holds the same entries as before, in ascending order of lap time, and the
/// sort is stable, which is stated here for lists without repeated entries.
#[verifier::external_body]
pub(crate) fn sort_by_lap_time(cars: &[Car], indexes: &mut Vec<CarIndex>)
    requires
        in_pool(old(indexes)@, cars@.len()),
    ensures
        final(indexes)@.to_multiset() == old(indexes)@.to_multiset(),
        sorted_by_lap_time(cars@, final(indexes)@),
        old(indexes)@.no_duplicates() ==> keeps_order_of_equals(
            cars@,
            old(indexes)@,
            final(indexes)@,
        ),
{
    indexes.sort_by_key(|&idx| get_lap_time(cars, idx));
}

pub proof fn lemma_leq_total()
    ensures
        total_ordering(leq()),
{
    let r = leq();
    assert(vstd::relations::reflexive(r));
    assert(vstd::relations::antisymmetric(r));
    assert(vstd::relations::transitive(r));
    assert(vstd::relations::strongly_connected(r));
}

/// Two index lists with the same entries select the same lap times.
pub proof fn lemma_same_entries_same_lap_times(cars: Seq<Car>, a: Seq<CarIndex>, b: Seq<CarIndex>)
    requires
        a.to_multiset() == b.to_multiset(),
    ensures
        lap_times_of(cars, a).to_multiset() == lap_times_of(cars, b).to_multiset(),
    decreases a.len(),
{
    broadcast use vstd::seq_lib::group_to_multiset_ensures;

    a.to_multiset_ensures();
    b.to_multiset_ensures();
    if a.len() == 0 {
        assert(b.len() == 0);
        assert(lap_times_of(cars, a) =~= lap_times_of(cars, b));
    } else {
        let x = a.last();
        let a0 = a.drop_last();
        assert(a =~= a0.push(x));
        assert(a.to_multiset().count(x) > 0);
        assert(b.contains(x));
        let p = b.index_of(x);
        let b0 = b.remove(p);
        assert(a0.to_multiset() =~= a.to_multiset().remove(x)) by {
            assert(a0 =~= a.remove(a.len() - 1));
        }
        assert(b0.to_multiset() =~= b.to_multiset().remove(x));
        lemma_same_entries_same_lap_times(cars, a0, b0);
        let t = cars[x as int].lap_time as int;
        let ta = lap_times_of(cars, a);
        let tb = lap_times_of(cars, b);
        assert(lap_times_of(cars, a0) =~= ta.remove(a.len() - 1));
        assert(lap_times_of(cars, b0) =~= tb.remove(p));
        ta.to_multiset_ensures();
        tb.to_multiset_ensures();
        assert(ta.remove(a.len() - 1).to_multiset() =~= ta.to_multiset().remove(t));
        assert(tb.remove(p).to_multiset() =~= tb.to_multiset().remove(t));
        assert(ta.to_multiset().count(t) > 0) by {
            assert(ta[a.len() - 1] == t);
            assert(ta.contains(t));
        }
        assert(tb.to_multiset().count(t) > 0) by {
            assert(tb[p] == t);
            assert(tb.contains(t));
        }
        assert(ta.to_multiset() =~= ta.to_multiset().remove(t).insert(t));
        assert(tb.to_multiset() =~= tb.to_multiset().remove(t).insert(t));
    }
}

/// A list with the entries of `0 .. n` holds each position of the pool once.
pub proof fn lemma_rearranged_identity(n: nat, indexes: Seq<CarIndex>)
    requires
        n <= usize::MAX,
        indexes.to_multiset() == identity(n).to_multiset(),
    ensures
        indexes.len() == n,
        indexes.no_duplicates(),
        in_pool(indexes, n),
        forall|x: CarIndex| x < n ==> indexes.contains(x),
{
    broadcast use vstd::seq_lib::group_to_multiset_ensures;

    let id = identity(n);
    id.to_multiset_ensures();
    indexes.to_multiset_ensures();
    assert(id.no_duplicates());
    id.lemma_multiset_has_no_duplicates();
    indexes.lemma_multiset_has_no_duplicates_conv();
    assert forall|i: int| 0 <= i < indexes.len() implies (#[trigger] indexes[i]) < n by {
        assert(indexes.contains(indexes[i]));
        assert(id.to_multiset().count(indexes[i]) > 0);
        assert(id.contains(indexes[i]));
    }
    assert forall|x: CarIndex| x < n implies indexes.contains(x) by {
        assert(id[x as int] == x);
        assert(id.contains(x));
        assert(indexes.to_multiset().count(x) > 0);
    }
}

/// A list that holds each position of the pool once, in ascending order of
/// lap time, selects the pool's lap times in ascending order.
pub proof fn lemma_sorted_cover(cars: Seq<Car>, indexes: Seq<CarIndex>)
    requires
        cars.len() <= usize::MAX,
        indexes.no_duplicates(),
        in_pool(indexes, cars.len()),
        forall|x: CarIndex| x < cars.len() ==> indexes.contains(x),
        sorted_by_lap_time(cars, indexes),
    ensures
        lap_times_of(cars, indexes) == sorted_lap_times(cars),
{
    broadcast use vstd::seq_lib::group_to_multiset_ensures;

    let n = cars.len();
    let id = identity(n);
    indexes.to_multiset_ensures();
    id.to_multiset_ensures();
    assert(id.no_duplicates());
    indexes.lemma_multiset_has_no_duplicates();
    id.lemma_multiset_has_no_duplicates();
    assert(indexes.to_multiset() =~= id.to_multiset()) by {
        assert forall|x: CarIndex|
            indexes.to_multiset().count(x) == id.to_multiset().count(x) by {
            if x < n {
                assert(indexes.contains(x));
                assert(id[x as int] == x);
                assert(id.contains(x));
            } else {
                if indexes.contains(x) {
                    let i = choose|i: int| 0 <= i < indexes.len() && indexes[i] == x;
                    assert(indexes[i] < n);
                }
                if id.contains(x) {
                    let i = choose|i: int| 0 <= i < id.len() && id[i] == x;
                    assert(id[i] < n);
                }
            }
        }
    }
    lemma_same_entries_same_lap_times(cars, indexes, id);
    assert(lap_times_of(cars, id) =~= lap_times(cars));
    lemma_leq_total();
    lap_times(cars).lemma_sort_by_ensures(leq());
    let mine = lap_times_of(cars, indexes);
    assert(sorted_by(mine, leq())) by {
        assert forall|i: int, j: int| 0 <= i < j < mine.len() implies #[trigger] leq()(
            mine[i],
            mine[j],
        ) by {
            assert(cars[indexes[i] as int].lap_time <= cars[indexes[j] as int].lap_time);
        }
    }
    lemma_sorted_unique(mine, sorted_lap_times(cars), leq());
}

/// The positions of the pool in ascending order of lap time, cars with equal
/// lap times in pool order.
pub fn sorted_indexes(cars: &[Car]) -> (indexes: Vec<CarIndex>)
    ensures
        indexes@.len() == cars@.len(),
        indexes@.no_duplicates(),
        in_pool(indexes@, cars@.len()),
        forall|x: CarIndex| x < cars@.len() ==> indexes@.contains(x),
        sorted_by_lap_time(cars@, indexes@),
        lap_times_of(cars@, indexes@) == sorted_lap_times(cars@),
        forall|i: int, j: int|
            0 <= i < j < indexes@.len() && cars@[#[trigger] indexes@[i] as int].lap_time
                == cars@[#[trigger] indexes@[j] as int].lap_time ==> indexes@[i] < indexes@[j],
{
    let n = cars.len();
    let mut indexes: Vec<CarIndex> = Vec::new();
    let mut i: usize = 0;
    while i < n
        invariant
            i <= n,
            n == cars@.len(),
            indexes@ == identity(i as nat),
        decreases n - i,
    {
        indexes.push(i);
        assert(indexes@ =~= identity((i + 1) as nat));
        i += 1;
    }
    let ghost before = indexes@;
    assert(before.no_duplicates());
    sort_by_lap_time(cars, &mut indexes);
    proof {
        lemma_rearranged_identity(n as nat, indexes@);
        lemma_same_entries_same_lap_times(cars@, indexes@, before);
        assert(lap_times_of(cars@, before) =~= lap_times(cars@));
        lemma_leq_total();
        lap_times(cars@).lemma_sort_by_ensures(leq());
        let mine = lap_times_of(cars@, indexes@);
        assert(sorted_by(mine, leq())) by {
            assert forall|i: int, j: int| 0 <= i < j < mine.len() implies #[trigger] leq()(
                mine[i],
                mine[j],
            ) by {
                assert(cars@[indexes@[i] as int].lap_time <= cars@[indexes@[j] as int].lap_time);
            }
        }
        lemma_sorted_unique(mine, sorted_lap_times(cars@), leq());
        assert forall|i: int, j: int|
            0 <= i < j < indexes@.len() && cars@[#[trigger] indexes@[i] as int].lap_time
                == cars@[#[trigger] indexes@[j] as int].lap_time implies indexes@[i]
            < indexes@[j] by {
            let a = indexes@[i];
            let b = indexes@[j];
            assert(before[a as int] == a);
            assert(before[b as int] == b);
            assert(before.index_of(a) == a);
            assert(before.index_of(b) == b);
        }
    }
    indexes
}

/// Where every entry of one sequence is at most the entry at the same place
/// of another, so is its sum.
pub proof fn lemma_sum_pointwise(a: Seq<int>, b: Seq<int>)
    requires
        a.len() == b.len(),
        forall|i: int| 0 <= i < a.len() ==> a[i] <= b[i],
    ensures
        sum(a) <= sum(b),
    decreases a.len(),
{
    if a.len() > 0 {
        let a0 = a.drop_last();
        let b0 = b.drop_last();
        assert forall|i: int| 0 <= i < a0.len() implies a0[i] <= b0[i] by {
            assert(a0[i] == a[i] && b0[i] == b[i]);
        }
        lemma_sum_pointwise(a0, b0);
        assert(a.last() <= b.last());
    }
}

/// In an ascending sequence the first entries sum to no more than as many
/// last entries.
pub proof fn lemma_head_below_tail(sorted: Seq<int>, count: nat)
    requires
        vstd::relations::sorted_by(sorted, leq()),
        count <= sorted.len(),
    ensures
        sum(sorted.take(count as int)) <= sum(sorted.skip(sorted.len() - count)),
{
    let head = sorted.take(count as int);
    let tail = sorted.skip(sorted.len() - count);
    assert forall|i: int| 0 <= i < head.len() implies head[i] <= tail[i] by {
        let j = sorted.len() - count + i;
        if i < j {
            assert(leq()(sorted[i], sorted[j]));
        }
    }
    lemma_sum_pointwise(head, tail);
}

/// The sums of the first and of the last entries lie between zero and the
/// sum of all.
pub proof fn lemma_head_tail_bounded(times: Seq<int>, x: nat)
    requires
        crate::sums::non_negative(times),
    ensures
        0 <= head_sum(times, x) <= sum(times),
        0 <= tail_sum(times, x) <= sum(times),
{
    crate::sums::lemma_sum_non_negative(times);
    if x <= times.len() {
        lemma_sum_subrange(times, 0, x as int);
        lemma_sum_subrange(times, times.len() - x, times.len() as int);
    }
}

/// Sums of the first `x` and of the last `x` lap times that `indexes` selects.
/// Where `indexes` is in ascending order of lap time, these are the least and
/// the greatest sum that `x` of its cars can reach.
pub fn calculate_min_max_sums(cars: &[Car], indexes: &[CarIndex], x: usize) -> (range: (u32, u32))
    requires
        in_pool(indexes@, cars@.len()),
        head_sum(lap_times_of(cars@, indexes@), x as nat) <= u32::MAX,
        tail_sum(lap_times_of(cars@, indexes@), x as nat) <= u32::MAX,
    ensures
        range.0 == head_sum(lap_times_of(cars@, indexes@), x as nat),
        range.1 == tail_sum(lap_times_of(cars@, indexes@), x as nat),
        x == 0 || indexes@.len() == 0 ==> range == (0u32, 0u32),
{
    let ghost times = lap_times_of(cars@, indexes@);
    proof {
        lemma_lap_times_non_negative(cars@, indexes@);
    }
    let len = indexes.len();
    let count = if x <= len { x } else { len };
    let ghost head = times.take(count as int);
    let ghost tail = times.skip(len - count);
    assert(times.take(times.len() as int) =~= times);
    assert(times.skip(0) =~= times);
    assert(sum(head) == head_sum(times, x as nat));
    assert(sum(tail) == tail_sum(times, x as nat));
    let mut min_sum: u32 = 0;
    let mut i: usize = 0;
    while i < count
        invariant
            i <= count <= len,
            len == indexes@.len(),
            times == lap_times_of(cars@, indexes@),
            in_pool(indexes@, cars@.len()),
            crate::sums::non_negative(times),
            head == times.take(count as int),
            sum(head) <= u32::MAX,
            min_sum == sum(times.take(i as int)),
        decreases count - i,
    {
        proof {
            assert(crate::sums::non_negative(head));
            lemma_sum_subrange(head, 0, i + 1);
            assert(head.subrange(0, i + 1) =~= times.take(i + 1));
            assert(times.take(i + 1) =~= times.take(i as int).push(times[i as int]));
            lemma_sum_push(times.take(i as int), times[i as int]);
        }
        min_sum = min_sum + get_lap_time(cars, indexes[i]);
        i += 1;
    }
    let start = len - count;
    let mut max_sum: u32 = 0;
    let mut j: usize = start;
    while j < len
        invariant
            start <= j <= len,
            len == indexes@.len(),
            times == lap_times_of(cars@, indexes@),
            in_pool(indexes@, cars@.len()),
            crate::sums::non_negative(times),
            tail == times.skip(start as int),
            sum(tail) <= u32::MAX,
            max_sum == sum(times.subrange(start as int, j as int)),
        decreases len - j,
    {
        proof {
            assert(crate::sums::non_negative(tail));
            lemma_sum_subrange(tail, 0, j + 1 - start);
            assert(tail.subrange(0, j + 1 - start) =~= times.subrange(start as int, j + 1));
            assert(times.subrange(start as int, j + 1) =~= times.subrange(
                start as int,
                j as int,
            ).push(times[j as int]));
            lemma_sum_push(times.subrange(start as int, j as int), times[j as int]);
        }
        max_sum = max_sum + get_lap_time(cars, indexes[j]);
        j += 1;
    }
    assert(times.subrange(start as int, len as int) =~= times.skip(start as int));
    (min_sum, max_sum)
}

/// The sums that a search for `lap_count` cars forms fit in 32 bits: the
/// `lap_count` longest lap times do. A search for more cars than the pool
/// holds forms no sum.
pub open spec fn search_sums_fit(cars: Seq<Car>, lap_count: nat) -> bool {
    lap_count > cars.len() || feasible_max(cars, lap_count) <= u32::MAX
}

/// More of the longest lap times sum to no less.
pub proof fn lemma_feasible_max_grows(cars: Seq<Car>, fewer: nat, more: nat)
    requires
        fewer <= more <= cars.len(),
    ensures
        0 <= feasible_max(cars, fewer) <= feasible_max(cars, more),
{
    broadcast use vstd::seq_lib::group_to_multiset_ensures;

    lemma_leq_total();
    let times = lap_times(cars);
    let sorted = sorted_lap_times(cars);
    times.lemma_sort_by_ensures(leq());
    sorted.to_multiset_ensures();
    times.to_multiset_ensures();
    assert forall|i: int| 0 <= i < sorted.len() implies 0 <= #[trigger] sorted[i] by {
        assert(sorted.contains(sorted[i]));
        assert(times.to_multiset().count(sorted[i]) > 0);
        assert(times.contains(sorted[i]));
    }
    let n = sorted.len() as int;
    let long = sorted.skip(n - more);
    assert(crate::sums::non_negative(long));
    lemma_sum_subrange(long, more - fewer, more as int);
    assert(long.subrange(more - fewer, more as int) =~= sorted.skip(n - fewer));
}

/// Whether the sums that a search for `lap_count` cars forms fit in 32 bits.
pub fn check_search_sums_fit(cars: &[Car], lap_count: usize) -> (fits: bool)
    ensures
        fits == search_sums_fit(cars@, lap_count as nat),
{
    let n = cars.len();
    if lap_count > n {
        return true;
    }
    let indexes = sorted_indexes(cars);
    let ghost times = lap_times_of(cars@, indexes@);
    let start = n - lap_count;
    let mut total: u64 = 0;
    let mut j: usize = n;
    proof {
        lemma_lap_times_non_negative(cars@, indexes@);
        assert(times.subrange(n as int, n as int) =~= Seq::<int>::empty());
    }
    while j > start
        invariant
            start <= j <= n,
            lap_count <= n,
            start == n - lap_count,
            n == indexes@.len(),
            n == cars@.len(),
            in_pool(indexes@, cars@.len()),
            times == lap_times_of(cars@, indexes@),
            times == sorted_lap_times(cars@),
            crate::sums::non_negative(times),
            total == sum(times.subrange(j as int, n as int)),
            total <= u32::MAX,
        decreases j,
    {
        j -= 1;
        proof {
            let longer = times.subrange(j as int, n as int);
            let shorter = times.subrange(j + 1, n as int);
            assert(longer =~= seq![times[j as int]] + shorter);
            crate::sums::lemma_sum_concat(seq![times[j as int]], shorter);
            assert(seq![times[j as int]] =~= Seq::<int>::empty().push(times[j as int]));
            lemma_sum_push(Seq::<int>::empty(), times[j as int]);
            let tail = times.skip(start as int);
            assert(crate::sums::non_negative(tail));
            lemma_sum_subrange(tail, j - start, n - start);
            assert(tail.subrange(j - start, n - start) =~= longer);
        }
        proof {
            assert(times[j as int] == cars@[indexes@[j as int] as int].lap_time);
        }
        total = total + get_lap_time(cars, indexes[j]) as u64;
        if total > u32::MAX as u64 {
            proof {
                assert(total == sum(times.subrange(j as int, n as int)));
                assert(sum(times.skip(start as int)) >= total);
                assert(times.len() == n);
                assert(times.len() - lap_count as nat == start as int);
                assert(tail_sum(times, lap_count as nat) == sum(times.skip(start as int)));
            }
            return false;
        }
    }
    proof {
        assert(times.subrange(start as int, n as int) =~= times.skip(start as int));
        assert(times.len() == n);
        assert(tail_sum(times, lap_count as nat) == sum(times.skip(start as int)));
    }
    true
}

/// The least and the greatest total lap time that `lap_count` cars of the
/// pool can have: the sums of the `lap_count` shortest and of the `lap_count`
/// longest lap times. Both are zero for an empty pool and for a count of zero.
pub fn get_target_range_for_subset(cars: &[Car], lap_count: usize) -> (range: (u32, u32))
    requires
        lap_count == 0 || feasible_max(cars@, lap_count as nat) <= u32::MAX,
    ensures
        range.0 == feasible_min(cars@, lap_count as nat),
        range.1 == feasible_max(cars@, lap_count as nat),
        lap_count == 0 || cars@.len() == 0 ==> range == (0u32, 0u32),
{
    if cars.is_empty() || lap_count == 0 {
        proof {
            lemma_leq_total();
            lap_times(cars@).lemma_sort_by_ensures(leq());
            let sorted = sorted_lap_times(cars@);
            sorted.to_multiset_ensures();
            lap_times(cars@).to_multiset_ensures();
            assert(sorted.len() == cars@.len());
            assert(sorted.take(0) =~= Seq::<int>::empty());
            assert(sorted.skip(sorted.len() as int) =~= Seq::<int>::empty());
            if cars@.len() == 0 {
                assert(sorted =~= Seq::<int>::empty());
            }
        }
        return (0, 0);
    }
    let indexes = sorted_indexes(cars);
    proof {
        let sorted = sorted_lap_times(cars@);
        lemma_leq_total();
        lap_times(cars@).lemma_sort_by_ensures(leq());
        if lap_count <= sorted.len() {
            lemma_head_below_tail(sorted, lap_count as nat);
        }
    }
    calculate_min_max_sums(cars, indexes.as_slice(), lap_count)
}

} // verus!
