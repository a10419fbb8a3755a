//! A look back at a session: which cars were selected most often, and how the
//! selected lap times are spread.

use vstd::prelude::*;
use crate::car::{in_pool, Car, CarIndex};
use crate::text::chars_of;

verus! {

/// How often a car was selected. Cars with the same identifier count as one,
/// and are named by the first of them in the pool.
#[derive(Debug, Clone, Copy, PartialEq, Eq, Structural)]
pub struct CarUse {
    pub car: CarIndex,
    pub count: usize,
}

/// How many selected lap times lie from `start` up to, but not including,
/// `end`.
#[derive(Debug, Clone, Copy, PartialEq, Eq, Structural)]
pub struct LapTimeBand {
    pub start: u32,
    pub end: u32,
    pub count: usize,
}

/// What a session selected.
#[derive(Debug, Clone, PartialEq, Eq)]
pub struct RunAnalysis {
    /// The cars that were selected most often, at most ten of them, the most
    /// used first; among cars used equally often, in the order of their
    /// identifiers.
    pub most_used: Vec<CarUse>,
    /// The shortest lap time that was selected, if any was.
    pub fastest: Option<u32>,
    /// The longest lap time that was selected, if any was.
    pub slowest: Option<u32>,
    /// The selections in each band of ten seconds from 30 to 90 seconds.
    pub bands: Vec<LapTimeBand>,
}

/// How many cars are listed at most.
pub const TOP_COUNT: usize = 10;

/// Every car.
pub open spec fn any_car() -> spec_fn(Car) -> bool {
    |car: Car| true
}

/// The cars with the identifier `id`.
pub open spec fn has_id(id: Seq<char>) -> spec_fn(Car) -> bool {
    |car: Car| car.id@ == id
}

/// The cars whose lap time lies from `start` up to, but not including, `end`.
pub open spec fn in_band(start: u32, end: u32) -> spec_fn(Car) -> bool {
    |car: Car| start <= car.lap_time < end
}

/// How many entries of a subset select a car of the kind `wanted`.
pub open spec fn count_in(cars: Seq<Car>, subset: Seq<CarIndex>, wanted: spec_fn(Car) -> bool) -> nat
    decreases subset.len(),
{
    if subset.len() == 0 {
        0
    } else {
        count_in(cars, subset.drop_last(), wanted) + if wanted(cars[subset.last() as int]) {
            1nat
        } else {
            0nat
        }
    }
}

/// How many entries of the first `upto` subsets select a car of the kind
/// `wanted`.
pub open spec fn count_all(
    cars: Seq<Car>,
    results: Seq<Vec<CarIndex>>,
    upto: int,
    wanted: spec_fn(Car) -> bool,
) -> nat
    decreases upto,
{
    if upto <= 0 {
        0
    } else {
        count_all(cars, results, upto - 1, wanted) + count_in(cars, results[upto - 1]@, wanted)
    }
}

/// How often cars with the identifier of the car at `car` were selected.
pub open spec fn uses_of(cars: Seq<Car>, results: Seq<Vec<CarIndex>>, car: int) -> nat {
    count_all(cars, results, results.len() as int, has_id(cars[car].id@))
}

/// How many selections a session made.
pub open spec fn selection_count(cars: Seq<Car>, results: Seq<Vec<CarIndex>>) -> nat {
    count_all(cars, results, results.len() as int, any_car())
}

/// No car before `car` has its identifier.
pub open spec fn is_first_with_id(cars: Seq<Car>, car: int) -> bool {
    &&& 0 <= car < cars.len()
    &&& forall|j: int| 0 <= j < car ==> (#[trigger] cars[j]).id@ != cars[car].id@
}

/// Whether `a` comes before `b` in the order of texts: at the first place
/// where they differ `a` has the lower character, or `a` ends there.
pub open spec fn text_before(a: Seq<char>, b: Seq<char>) -> bool
    decreases a.len(),
{
    if b.len() == 0 {
        false
    } else if a.len() == 0 {
        true
    } else if a[0] != b[0] {
        a[0] < b[0]
    } else {
        text_before(a.drop_first(), b.drop_first())
    }
}

/// Whether the car at `a` comes before the car at `b` in the list of the
/// most used: it was selected more often, or as often and its identifier
/// comes first.
pub open spec fn ranks_before(cars: Seq<Car>, results: Seq<Vec<CarIndex>>, a: int, b: int) -> bool {
    uses_of(cars, results, a) > uses_of(cars, results, b) || (uses_of(cars, results, a) == uses_of(
        cars,
        results,
        b,
    ) && text_before(cars[a].id@, cars[b].id@))
}

/// The car at `car` stands for its identifier and was selected.
pub open spec fn is_used(cars: Seq<Car>, results: Seq<Vec<CarIndex>>, car: int) -> bool {
    is_first_with_id(cars, car) && uses_of(cars, results, car) > 0
}

/// The list names `car`.
pub open spec fn is_listed(ranking: Seq<CarUse>, car: int) -> bool {
    exists|k: int| 0 <= k < ranking.len() && (#[trigger] ranking[k]).car == car
}

/// `ranking` lists the most used cars, the most used first: each entry is a
/// used car with its count, each comes before those behind it, and every used
/// car that is not listed comes behind all that are.
pub open spec fn is_ranking(cars: Seq<Car>, results: Seq<Vec<CarIndex>>, ranking: Seq<CarUse>) -> bool {
    &&& forall|k: int|
        0 <= k < ranking.len() ==> is_used(cars, results, (#[trigger] ranking[k]).car as int)
            && ranking[k].count == uses_of(cars, results, ranking[k].car as int)
    &&& forall|i: int, j: int|
        0 <= i < j < ranking.len() ==> ranks_before(
            cars,
            results,
            (#[trigger] ranking[i]).car as int,
            (#[trigger] ranking[j]).car as int,
        )
    &&& forall|c: int, k: int|
        #![trigger is_used(cars, results, c), ranking[k]]
        is_used(cars, results, c) && !is_listed(ranking, c) && 0 <= k < ranking.len()
            ==> ranks_before(cars, results, ranking[k].car as int, c)
}

/// A lap time was selected.
pub open spec fn is_selected_time(cars: Seq<Car>, results: Seq<Vec<CarIndex>>, time: u32) -> bool {
    exists|r: int, k: int|
        0 <= r < results.len() && 0 <= k < results[r]@.len() && cars[(#[trigger] results[r]@[k]) as int].lap_time
            == time
}

/// Every entry of every subset addresses a car of the pool.
pub open spec fn all_in_pool(results: Seq<Vec<CarIndex>>, pool_len: nat) -> bool {
    forall|r: int| 0 <= r < results.len() ==> in_pool((#[trigger] results[r])@, pool_len)
}

pub proof fn lemma_text_order(a: Seq<char>, b: Seq<char>)
    ensures
        a != b ==> text_before(a, b) || text_before(b, a),
        !(text_before(a, b) && text_before(b, a)),
        !text_before(a, a),
    decreases a.len(),
{
    if a.len() > 0 {
        lemma_text_order(a.drop_first(), a.drop_first());
    }
    if a.len() == 0 && b.len() == 0 {
        assert(a =~= b);
    } else if a.len() == 0 {
        assert(text_before(a, b));
    } else if b.len() == 0 {
        assert(text_before(b, a));
    } else {
        lemma_text_order(a.drop_first(), b.drop_first());
        if a[0] == b[0] {
            if a.drop_first() == b.drop_first() {
                assert(a =~= seq![a[0]] + a.drop_first());
                assert(b =~= seq![b[0]] + b.drop_first());
            }
        } else {
            assert(a[0] < b[0] || b[0] < a[0]);
        }
    }
}

pub proof fn lemma_text_order_transitive(a: Seq<char>, b: Seq<char>, c: Seq<char>)
    requires
        text_before(a, b),
        text_before(b, c),
    ensures
        text_before(a, c),
    decreases a.len(),
{
    if a.len() > 0 && b.len() > 0 && c.len() > 0 {
        if a[0] == b[0] && b[0] == c[0] {
            lemma_text_order_transitive(a.drop_first(), b.drop_first(), c.drop_first());
        }
    }
}

/// Used cars are in a strict order of rank: of two different ones, one comes
/// before the other, and the order carries over.
pub proof fn lemma_rank_order(cars: Seq<Car>, results: Seq<Vec<CarIndex>>, a: int, b: int, c: int)
    requires
        is_first_with_id(cars, a),
        is_first_with_id(cars, b),
        is_first_with_id(cars, c),
    ensures
        a != b ==> ranks_before(cars, results, a, b) || ranks_before(cars, results, b, a),
        ranks_before(cars, results, a, b) && ranks_before(cars, results, b, c) ==> ranks_before(
            cars,
            results,
            a,
            c,
        ),
{
    lemma_text_order(cars[a].id@, cars[b].id@);
    if a != b {
        if a < b {
            assert(cars[a].id@ != cars[b].id@);
        } else {
            assert(cars[b].id@ != cars[a].id@);
        }
    }
    if ranks_before(cars, results, a, b) && ranks_before(cars, results, b, c) {
        if text_before(cars[a].id@, cars[b].id@) && text_before(cars[b].id@, cars[c].id@) {
            lemma_text_order_transitive(cars[a].id@, cars[b].id@, cars[c].id@);
        }
    }
}

/// Whether `a` comes before `b` in the order of texts.
pub fn text_less(a: &[char], b: &[char]) -> (before: bool)
    ensures
        before == text_before(a@, b@),
{
    let mut i: usize = 0;
    assert(a@.skip(0) =~= a@);
    assert(b@.skip(0) =~= b@);
    while i < a.len() && i < b.len()
        invariant
            i <= a@.len(),
            i <= b@.len(),
            text_before(a@, b@) == text_before(a@.skip(i as int), b@.skip(i as int)),
        decreases a@.len() - i,
    {
        proof {
            assert(a@.skip(i as int)[0] == a@[i as int]);
            assert(b@.skip(i as int)[0] == b@[i as int]);
            assert(a@.skip(i as int).drop_first() =~= a@.skip(i + 1));
            assert(b@.skip(i as int).drop_first() =~= b@.skip(i + 1));
        }
        if a[i] != b[i] {
            return a[i] < b[i];
        }
        i += 1;
    }
    i < b.len()
}

/// For each car, the first car of the pool with its identifier.
pub fn first_positions(cars: &[Car]) -> (firsts: Vec<usize>)
    ensures
        firsts@.len() == cars@.len(),
        forall|i: int|
            0 <= i < cars@.len() ==> (#[trigger] firsts@[i]) <= i && cars@[firsts@[i] as int].id@
                == cars@[i].id@ && is_first_with_id(cars@, firsts@[i] as int),
{
    let mut firsts: Vec<usize> = Vec::new();
    let mut i: usize = 0;
    while i < cars.len()
        invariant
            i <= cars@.len(),
            firsts@.len() == i,
            forall|k: int|
                0 <= k < i ==> (#[trigger] firsts@[k]) <= k && cars@[firsts@[k] as int].id@
                    == cars@[k].id@ && is_first_with_id(cars@, firsts@[k] as int),
        decreases cars@.len() - i,
    {
        let mut j: usize = 0;
        while j < i && cars[j].id != cars[i].id
            invariant
                j <= i < cars@.len(),
                forall|k: int| 0 <= k < j ==> (#[trigger] cars@[k]).id@ != cars@[i as int].id@,
            decreases i - j,
        {
            j += 1;
        }
        firsts.push(j);
        i += 1;
    }
    firsts
}

proof fn lemma_count_in_push(
    cars: Seq<Car>,
    subset: Seq<CarIndex>,
    k: int,
    wanted: spec_fn(Car) -> bool,
)
    requires
        0 <= k < subset.len(),
    ensures
        count_in(cars, subset.take(k + 1), wanted) == count_in(cars, subset.take(k), wanted) + if wanted(
            cars[subset[k] as int],
        ) {
            1nat
        } else {
            0nat
        },
{
    assert(subset.take(k + 1).drop_last() =~= subset.take(k));
}

proof fn lemma_count_in_none(cars: Seq<Car>, subset: Seq<CarIndex>, wanted: spec_fn(Car) -> bool)
    ensures
        count_in(cars, subset.take(0), wanted) == 0,
{
    assert(subset.take(0) =~= Seq::<CarIndex>::empty());
}

/// How often each identifier was selected, held at the first car that has it.
pub fn count_uses(cars: &[Car], all_results: &[Vec<CarIndex>], firsts: &Vec<usize>) -> (counts: Vec<
    usize,
>)
    requires
        all_in_pool(all_results@, cars@.len()),
        selection_count(cars@, all_results@) <= usize::MAX,
        firsts@.len() == cars@.len(),
        forall|i: int|
            0 <= i < cars@.len() ==> (#[trigger] firsts@[i]) <= i && cars@[firsts@[i] as int].id@
                == cars@[i].id@ && is_first_with_id(cars@, firsts@[i] as int),
    ensures
        counts@.len() == cars@.len(),
        forall|c: int|
            is_first_with_id(cars@, c) ==> (#[trigger] counts@[c]) == uses_of(cars@, all_results@, c),
{
    let n = cars.len();
    let mut counts: Vec<usize> = vec![0; n];
    let mut r: usize = 0;
    proof {
        lemma_count_all_grows(cars@, all_results@, 0, any_car());
    }
    while r < all_results.len()
        invariant
            r <= all_results@.len(),
            n == cars@.len(),
            counts@.len() == n,
            all_in_pool(all_results@, cars@.len()),
            selection_count(cars@, all_results@) <= usize::MAX,
            firsts@.len() == cars@.len(),
            forall|i: int|
                0 <= i < cars@.len() ==> (#[trigger] firsts@[i]) <= i && cars@[firsts@[i] as int].id@
                    == cars@[i].id@ && is_first_with_id(cars@, firsts@[i] as int),
            forall|c: int|
                is_first_with_id(cars@, c) ==> (#[trigger] counts@[c]) == count_all(
                    cars@,
                    all_results@,
                    r as int,
                    has_id(cars@[c].id@),
                ),
            forall|c: int|
                0 <= c < n ==> (#[trigger] counts@[c]) <= count_all(
                    cars@,
                    all_results@,
                    r as int,
                    any_car(),
                ),
        decreases all_results@.len() - r,
    {
        let subset = &all_results[r];
        let mut k: usize = 0;
        proof {
            lemma_count_in_none(cars@, subset@, any_car());
            assert forall|c: int| is_first_with_id(cars@, c) implies count_in(
                cars@,
                subset@.take(0),
                has_id(cars@[c].id@),
            ) == 0 by {
                assert(subset@.take(0) =~= Seq::<CarIndex>::empty());
            }
            lemma_count_all_grows(cars@, all_results@, r + 1, any_car());
        }
        while k < subset.len()
            invariant
                k <= subset@.len(),
                r < all_results@.len(),
                subset@ == all_results@[r as int]@,
                in_pool(subset@, cars@.len()),
                n == cars@.len(),
                counts@.len() == n,
                selection_count(cars@, all_results@) <= usize::MAX,
                count_all(cars@, all_results@, r + 1, any_car()) <= selection_count(
                    cars@,
                    all_results@,
                ),
                firsts@.len() == cars@.len(),
                forall|i: int|
                    0 <= i < cars@.len() ==> (#[trigger] firsts@[i]) <= i
                        && cars@[firsts@[i] as int].id@ == cars@[i].id@ && is_first_with_id(
                        cars@,
                        firsts@[i] as int,
                    ),
                forall|c: int|
                    is_first_with_id(cars@, c) ==> (#[trigger] counts@[c]) == count_all(
                        cars@,
                        all_results@,
                        r as int,
                        has_id(cars@[c].id@),
                    ) + count_in(cars@, subset@.take(k as int), has_id(cars@[c].id@)),
                forall|c: int|
                    0 <= c < n ==> (#[trigger] counts@[c]) <= count_all(
                        cars@,
                        all_results@,
                        r as int,
                        any_car(),
                    ) + count_in(cars@, subset@.take(k as int), any_car()),
            decreases subset@.len() - k,
        {
            let idx = subset[k];
            let first = firsts[idx];
            let ghost before = counts@;
            proof {
                lemma_count_in_push(cars@, subset@, k as int, any_car());
                assert(subset@.take(subset@.len() as int) =~= subset@);
                lemma_count_in_grows(cars@, subset@, k + 1, any_car());
            }
            counts.set(first, counts[first] + 1);
            proof {
                assert forall|c: int| is_first_with_id(cars@, c) implies (#[trigger] counts@[c])
                    == count_all(cars@, all_results@, r as int, has_id(cars@[c].id@)) + count_in(
                    cars@,
                    subset@.take(k + 1),
                    has_id(cars@[c].id@),
                ) by {
                    lemma_count_in_push(cars@, subset@, k as int, has_id(cars@[c].id@));
                    assert(before[c] == count_all(
                        cars@,
                        all_results@,
                        r as int,
                        has_id(cars@[c].id@),
                    ) + count_in(cars@, subset@.take(k as int), has_id(cars@[c].id@)));
                    if c == first {
                    } else {
                        if c < first {
                            assert(cars@[c].id@ != cars@[first as int].id@);
                        } else {
                            assert(cars@[first as int].id@ != cars@[c].id@);
                        }
                    }
                }
                assert forall|c: int| 0 <= c < n implies (#[trigger] counts@[c]) <= count_all(
                    cars@,
                    all_results@,
                    r as int,
                    any_car(),
                ) + count_in(cars@, subset@.take(k + 1), any_car()) by {
                    assert(before[c] <= count_all(cars@, all_results@, r as int, any_car())
                        + count_in(cars@, subset@.take(k as int), any_car()));
                }
            }
            k += 1;
        }
        proof {
            assert(subset@.take(subset@.len() as int) =~= subset@);
        }
        r += 1;
    }
    counts
}

/// The count over the first subsets is no more than the count over all.
proof fn lemma_count_all_grows(
    cars: Seq<Car>,
    results: Seq<Vec<CarIndex>>,
    upto: int,
    wanted: spec_fn(Car) -> bool,
)
    requires
        0 <= upto <= results.len(),
    ensures
        count_all(cars, results, upto, wanted) <= count_all(
            cars,
            results,
            results.len() as int,
            wanted,
        ),
    decreases results.len() - upto,
{
    if upto < results.len() {
        lemma_count_all_grows(cars, results, upto + 1, wanted);
    }
}

/// The count over the first entries of a subset is no more than the count
/// over all.
proof fn lemma_count_in_grows(
    cars: Seq<Car>,
    subset: Seq<CarIndex>,
    k: int,
    wanted: spec_fn(Car) -> bool,
)
    requires
        0 <= k <= subset.len(),
    ensures
        count_in(cars, subset.take(k), wanted) <= count_in(cars, subset, wanted),
    decreases subset.len() - k,
{
    if k < subset.len() {
        lemma_count_in_grows(cars, subset, k + 1, wanted);
        assert(subset.take(k + 1).drop_last() =~= subset.take(k));
    } else {
        assert(subset.take(k) =~= subset);
    }
}

/// How many selected lap times lie in a band.
pub fn count_band(cars: &[Car], all_results: &[Vec<CarIndex>], start: u32, end: u32) -> (count:
    usize)
    requires
        all_in_pool(all_results@, cars@.len()),
        selection_count(cars@, all_results@) <= usize::MAX,
    ensures
        count == count_all(cars@, all_results@, all_results@.len() as int, in_band(start, end)),
{
    let mut count: usize = 0;
    let mut r: usize = 0;
    proof {
        lemma_count_all_grows(cars@, all_results@, 0, any_car());
    }
    while r < all_results.len()
        invariant
            r <= all_results@.len(),
            all_in_pool(all_results@, cars@.len()),
            selection_count(cars@, all_results@) <= usize::MAX,
            count == count_all(cars@, all_results@, r as int, in_band(start, end)),
            count <= count_all(cars@, all_results@, r as int, any_car()),
        decreases all_results@.len() - r,
    {
        let subset = &all_results[r];
        let mut k: usize = 0;
        proof {
            lemma_count_in_none(cars@, subset@, any_car());
            lemma_count_in_none(cars@, subset@, in_band(start, end));
            lemma_count_all_grows(cars@, all_results@, r + 1, any_car());
        }
        while k < subset.len()
            invariant
                k <= subset@.len(),
                r < all_results@.len(),
                subset@ == all_results@[r as int]@,
                in_pool(subset@, cars@.len()),
                selection_count(cars@, all_results@) <= usize::MAX,
                count_all(cars@, all_results@, r + 1, any_car()) <= selection_count(
                    cars@,
                    all_results@,
                ),
                count == count_all(cars@, all_results@, r as int, in_band(start, end)) + count_in(
                    cars@,
                    subset@.take(k as int),
                    in_band(start, end),
                ),
                count <= count_all(cars@, all_results@, r as int, any_car()) + count_in(
                    cars@,
                    subset@.take(k as int),
                    any_car(),
                ),
            decreases subset@.len() - k,
        {
            let lap_time = cars[subset[k]].lap_time;
            proof {
                lemma_count_in_push(cars@, subset@, k as int, any_car());
                lemma_count_in_push(cars@, subset@, k as int, in_band(start, end));
                lemma_count_in_grows(cars@, subset@, k + 1, any_car());
            }
            if start <= lap_time && lap_time < end {
                count += 1;
            }
            k += 1;
        }
        proof {
            assert(subset@.take(subset@.len() as int) =~= subset@);
        }
        r += 1;
    }
    count
}

/// The shortest and the longest lap time that was selected.
pub fn selected_extremes(cars: &[Car], all_results: &[Vec<CarIndex>]) -> (extremes: Option<
    (u32, u32),
>)
    requires
        all_in_pool(all_results@, cars@.len()),
    ensures
        match extremes {
            Some((fastest, slowest)) => {
                &&& is_selected_time(cars@, all_results@, fastest)
                &&& is_selected_time(cars@, all_results@, slowest)
                &&& forall|time: u32|
                    is_selected_time(cars@, all_results@, time) ==> fastest <= time <= slowest
            },
            None => forall|time: u32| !is_selected_time(cars@, all_results@, time),
        },
{
    let mut extremes: Option<(u32, u32)> = None;
    let mut r: usize = 0;
    while r < all_results.len()
        invariant
            r <= all_results@.len(),
            all_in_pool(all_results@, cars@.len()),
            match extremes {
                Some((fastest, slowest)) => {
                    &&& is_selected_time(cars@, all_results@, fastest)
                    &&& is_selected_time(cars@, all_results@, slowest)
                    &&& forall|a: int, b: int|
                        0 <= a < r && 0 <= b < all_results@[a]@.len() ==> fastest
                            <= cars@[(#[trigger] all_results@[a]@[b]) as int].lap_time <= slowest
                },
                None => forall|a: int| 0 <= a < r ==> (#[trigger] all_results@[a])@.len() == 0,
            },
        decreases all_results@.len() - r,
    {
        let subset = &all_results[r];
        let mut k: usize = 0;
        while k < subset.len()
            invariant
                k <= subset@.len(),
                r < all_results@.len(),
                subset@ == all_results@[r as int]@,
                in_pool(subset@, cars@.len()),
                match extremes {
                    Some((fastest, slowest)) => {
                        &&& is_selected_time(cars@, all_results@, fastest)
                        &&& is_selected_time(cars@, all_results@, slowest)
                        &&& forall|a: int, b: int|
                            0 <= a < r && 0 <= b < all_results@[a]@.len() ==> fastest
                                <= cars@[(#[trigger] all_results@[a]@[b]) as int].lap_time
                                <= slowest
                        &&& forall|b: int|
                            0 <= b < k ==> fastest <= cars@[(#[trigger] subset@[b]) as int].lap_time
                                <= slowest
                    },
                    None => k == 0 && forall|a: int|
                        0 <= a < r ==> (#[trigger] all_results@[a])@.len() == 0,
                },
            decreases subset@.len() - k,
        {
            let lap_time = cars[subset[k]].lap_time;
            proof {
                assert(cars@[all_results@[r as int]@[k as int] as int].lap_time == lap_time);
                assert(is_selected_time(cars@, all_results@, lap_time));
            }
            extremes = match extremes {
                Some((fastest, slowest)) => Some(
                    (
                        if lap_time < fastest {
                            lap_time
                        } else {
                            fastest
                        },
                        if lap_time > slowest {
                            lap_time
                        } else {
                            slowest
                        },
                    ),
                ),
                None => Some((lap_time, lap_time)),
            };
            k += 1;
        }
        r += 1;
    }
    proof {
        match extremes {
            Some((fastest, slowest)) => {
                assert forall|time: u32| is_selected_time(cars@, all_results@, time) implies fastest
                    <= time <= slowest by {
                    let (a, b) = choose|a: int, b: int|
                        0 <= a < all_results@.len() && 0 <= b < all_results@[a]@.len() && cars@[(
                        #[trigger] all_results@[a]@[b]) as int].lap_time == time;
                    assert(fastest <= cars@[all_results@[a]@[b] as int].lap_time <= slowest);
                }
            },
            None => {
                assert forall|time: u32| !is_selected_time(cars@, all_results@, time) by {
                    if is_selected_time(cars@, all_results@, time) {
                        let (a, b) = choose|a: int, b: int|
                            0 <= a < all_results@.len() && 0 <= b < all_results@[a]@.len() && cars@[(
                            #[trigger] all_results@[a]@[b]) as int].lap_time == time;
                        assert(all_results@[a]@.len() == 0);
                    }
                }
            },
        }
    }
    extremes
}

/// The used car that comes first among those not yet listed.
fn next_in_ranking(
    cars: &[Car],
    ids: &Vec<Vec<char>>,
    firsts: &Vec<usize>,
    counts: &Vec<usize>,
    listed: &Vec<bool>,
    Ghost(results): Ghost<Seq<Vec<CarIndex>>>,
) -> (next: Option<usize>)
    requires
        ids@.len() == cars@.len(),
        firsts@.len() == cars@.len(),
        counts@.len() == cars@.len(),
        listed@.len() == cars@.len(),
        forall|i: int| 0 <= i < cars@.len() ==> (#[trigger] ids@[i])@ == cars@[i].id@,
        forall|i: int|
            0 <= i < cars@.len() ==> ((#[trigger] firsts@[i]) == i <==> is_first_with_id(cars@, i)),
        forall|c: int| is_first_with_id(cars@, c) ==> (#[trigger] counts@[c]) == uses_of(cars@, results, c),
    ensures
        match next {
            Some(best) => {
                &&& is_used(cars@, results, best as int)
                &&& !listed@[best as int]
                &&& forall|c: int|
                    is_used(cars@, results, c) && !(#[trigger] listed@[c]) && c != best
                        ==> ranks_before(cars@, results, best as int, c)
            },
            None => forall|c: int| is_used(cars@, results, c) ==> #[trigger] listed@[c],
        },
{
    let mut next: Option<usize> = None;
    let mut c: usize = 0;
    while c < cars.len()
        invariant
            c <= cars@.len(),
            ids@.len() == cars@.len(),
            firsts@.len() == cars@.len(),
            counts@.len() == cars@.len(),
            listed@.len() == cars@.len(),
            forall|i: int| 0 <= i < cars@.len() ==> (#[trigger] ids@[i])@ == cars@[i].id@,
            forall|i: int|
                0 <= i < cars@.len() ==> ((#[trigger] firsts@[i]) == i <==> is_first_with_id(
                    cars@,
                    i,
                )),
            forall|x: int|
                is_first_with_id(cars@, x) ==> (#[trigger] counts@[x]) == uses_of(cars@, results, x),
            match next {
                Some(best) => {
                    &&& best < c
                    &&& is_used(cars@, results, best as int)
                    &&& !listed@[best as int]
                    &&& forall|x: int|
                        0 <= x < c && is_used(cars@, results, x) && !(#[trigger] listed@[x]) && x
                            != best ==> ranks_before(cars@, results, best as int, x)
                },
                None => forall|x: int|
                    0 <= x < c && is_used(cars@, results, x) ==> #[trigger] listed@[x],
            },
        decreases cars@.len() - c,
    {
        if firsts[c] == c && counts[c] > 0 && !listed[c] {
            match next {
                Some(best) => {
                    let better = counts[c] > counts[best] || (counts[c] == counts[best] && text_less(
                        ids[c].as_slice(),
                        ids[best].as_slice(),
                    ));
                    proof {
                        lemma_rank_order(cars@, results, c as int, best as int, best as int);
                        assert(better == ranks_before(cars@, results, c as int, best as int));
                        if better {
                            assert forall|x: int|
                                0 <= x < c + 1 && is_used(cars@, results, x) && !(
                                #[trigger] listed@[x]) && x != c implies ranks_before(
                                cars@,
                                results,
                                c as int,
                                x,
                            ) by {
                                if x != best {
                                    lemma_rank_order(cars@, results, c as int, best as int, x);
                                }
                            }
                        }
                    }
                    if better {
                        next = Some(c);
                    }
                },
                None => {
                    next = Some(c);
                },
            }
        }
        c += 1;
    }
    next
}

/// The texts of the identifiers, character by character.
fn identifier_texts(cars: &[Car]) -> (ids: Vec<Vec<char>>)
    ensures
        ids@.len() == cars@.len(),
        forall|i: int| 0 <= i < cars@.len() ==> (#[trigger] ids@[i])@ == cars@[i].id@,
{
    let mut ids: Vec<Vec<char>> = Vec::new();
    let mut i: usize = 0;
    while i < cars.len()
        invariant
            i <= cars@.len(),
            ids@.len() == i,
            forall|k: int| 0 <= k < i ==> (#[trigger] ids@[k])@ == cars@[k].id@,
        decreases cars@.len() - i,
    {
        ids.push(chars_of(cars[i].id.as_str()));
        i += 1;
    }
    ids
}

/// The bands of lap times that are counted: ten seconds each, from 30 to 90
/// seconds.
pub open spec fn band_start(position: int) -> int {
    30_000 + 10_000 * position
}

/// Looks back at the subsets of a session. Every entry of a subset must
/// address a car of the pool.
pub fn analyze_multiple_runs(global_cars: &[Car], all_results: &[Vec<CarIndex>]) -> (analysis:
    RunAnalysis)
    requires
        all_in_pool(all_results@, global_cars@.len()),
        selection_count(global_cars@, all_results@) <= usize::MAX,
    ensures
        is_ranking(global_cars@, all_results@, analysis.most_used@),
        analysis.most_used@.len() <= TOP_COUNT,
        analysis.most_used@.len() < TOP_COUNT ==> forall|c: int|
            is_used(global_cars@, all_results@, c) ==> is_listed(analysis.most_used@, c),
        match analysis.fastest {
            Some(fastest) => is_selected_time(global_cars@, all_results@, fastest) && forall|
                time: u32,
            |
                is_selected_time(global_cars@, all_results@, time) ==> fastest <= time,
            None => forall|time: u32| !is_selected_time(global_cars@, all_results@, time),
        },
        match analysis.slowest {
            Some(slowest) => is_selected_time(global_cars@, all_results@, slowest) && forall|
                time: u32,
            |
                is_selected_time(global_cars@, all_results@, time) ==> time <= slowest,
            None => forall|time: u32| !is_selected_time(global_cars@, all_results@, time),
        },
        analysis.bands@.len() == 6,
        forall|b: int|
            0 <= b < 6 ==> (#[trigger] analysis.bands@[b]).start == band_start(b)
                && analysis.bands@[b].end == band_start(b + 1) && analysis.bands@[b].count
                == count_all(
                global_cars@,
                all_results@,
                all_results@.len() as int,
                in_band(analysis.bands@[b].start, analysis.bands@[b].end),
            ),
{
    let n = global_cars.len();
    let firsts = first_positions(global_cars);
    let counts = count_uses(global_cars, all_results, &firsts);
    let ids = identifier_texts(global_cars);
    let mut listed: Vec<bool> = vec![false; n];
    let mut most_used: Vec<CarUse> = Vec::new();
    let mut complete = false;
    proof {
        assert forall|i: int| 0 <= i < n implies ((#[trigger] firsts@[i]) == i <==> is_first_with_id(
            global_cars@,
            i,
        )) by {
            if is_first_with_id(global_cars@, i) && firsts@[i] != i {
                assert(global_cars@[firsts@[i] as int].id@ != global_cars@[i].id@);
            }
        }
    }
    while most_used.len() < TOP_COUNT && !complete
        invariant
            n == global_cars@.len(),
            ids@.len() == n,
            firsts@.len() == n,
            counts@.len() == n,
            listed@.len() == n,
            forall|i: int| 0 <= i < n ==> (#[trigger] ids@[i])@ == global_cars@[i].id@,
            forall|i: int|
                0 <= i < n ==> ((#[trigger] firsts@[i]) == i <==> is_first_with_id(global_cars@, i)),
            forall|c: int|
                is_first_with_id(global_cars@, c) ==> (#[trigger] counts@[c]) == uses_of(
                    global_cars@,
                    all_results@,
                    c,
                ),
            most_used@.len() <= TOP_COUNT,
            forall|c: int| 0 <= c < n ==> (#[trigger] listed@[c] <==> is_listed(most_used@, c)),
            is_ranking(global_cars@, all_results@, most_used@),
            complete ==> forall|c: int|
                is_used(global_cars@, all_results@, c) ==> is_listed(most_used@, c),
        decreases TOP_COUNT - most_used@.len(), (if complete { 0int } else { 1int }),
    {
        let ghost before = most_used@;
        let ghost marks = listed@;
        match next_in_ranking(global_cars, &ids, &firsts, &counts, &listed, Ghost(all_results@)) {
            Some(best) => {
                most_used.push(CarUse { car: best, count: counts[best] });
                listed.set(best, true);
                proof {
                    let after = most_used@;
                    assert(after[before.len() as int].car == best);
                    assert forall|c: int| 0 <= c < n implies (#[trigger] listed@[c] <==> is_listed(
                        after,
                        c,
                    )) by {
                        if is_listed(after, c) {
                            let k = choose|k: int|
                                0 <= k < after.len() && (#[trigger] after[k]).car == c;
                            if k < before.len() {
                                assert(before[k].car == c);
                                assert(is_listed(before, c));
                            }
                        }
                        if marks[c] {
                            assert(is_listed(before, c));
                            let k = choose|k: int|
                                0 <= k < before.len() && (#[trigger] before[k]).car == c;
                            assert(after[k].car == c);
                        }
                    }
                    assert forall|i: int, j: int| 0 <= i < j < after.len() implies ranks_before(
                        global_cars@,
                        all_results@,
                        (#[trigger] after[i]).car as int,
                        (#[trigger] after[j]).car as int,
                    ) by {
                        if j < before.len() {
                            assert(after[i] == before[i] && after[j] == before[j]);
                        } else {
                            assert(after[i] == before[i]);
                            assert(!is_listed(before, best as int));
                        }
                    }
                    assert forall|c: int, k: int|
                        #![trigger is_used(global_cars@, all_results@, c), after[k]]
                        is_used(global_cars@, all_results@, c) && !is_listed(after, c) && 0 <= k
                            < after.len() implies ranks_before(
                        global_cars@,
                        all_results@,
                        after[k].car as int,
                        c,
                    ) by {
                        assert(!is_listed(before, c)) by {
                            if is_listed(before, c) {
                                let i = choose|i: int|
                                    0 <= i < before.len() && (#[trigger] before[i]).car == c;
                                assert(after[i].car == c);
                            }
                        }
                        if k < before.len() {
                            assert(after[k] == before[k]);
                        } else {
                            assert(!marks[c]);
                        }
                    }
                }
            },
            None => {
                complete = true;
                proof {
                    assert forall|c: int| is_used(global_cars@, all_results@, c) implies is_listed(
                        most_used@,
                        c,
                    ) by {
                        assert(listed@[c]);
                    }
                }
            },
        }
    }
    let extremes = selected_extremes(global_cars, all_results);
    let (fastest, slowest) = match extremes {
        Some((f, s)) => (Some(f), Some(s)),
        None => (None, None),
    };
    let mut bands: Vec<LapTimeBand> = Vec::new();
    let mut b: u32 = 0;
    while b < 6
        invariant
            b <= 6,
            all_in_pool(all_results@, global_cars@.len()),
            selection_count(global_cars@, all_results@) <= usize::MAX,
            bands@.len() == b,
            forall|k: int|
                0 <= k < b ==> (#[trigger] bands@[k]).start == band_start(k) && bands@[k].end
                    == band_start(k + 1) && bands@[k].count == count_all(
                    global_cars@,
                    all_results@,
                    all_results@.len() as int,
                    in_band(bands@[k].start, bands@[k].end),
                ),
        decreases 6 - b,
    {
        let start: u32 = 30_000 + 10_000 * b;
        let end: u32 = start + 10_000;
        let count = count_band(global_cars, all_results, start, end);
        bands.push(LapTimeBand { start, end, count });
        b += 1;
    }
    RunAnalysis { most_used, fastest, slowest, bands }
}

} // verus!
