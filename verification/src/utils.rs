//! Helpers of the front end: the target slider's scale, and the reading and
//! checking of what a user types.

use vstd::prelude::*;
use std::collections::VecDeque;
use vstd::string::StringExecFns;
use crate::bounds::{feasible_max, feasible_min, get_target_range_for_subset};
use crate::cache::{CacheKey, ResultCache};
use crate::car::{in_pool, Car};
use crate::config::{MAX_PLAYER_COUNT, SLIDER_MAX_INDEX};
use crate::ingest::{format_ms_to_minsecms, format_text};
use crate::search::lemma_subset_fits_pool;
use crate::text::{
    all_digits, append_decimal, chars_of, decimal_digits, decimal_value, digit_run, digits_end,
    lemma_digit_run, lemma_digits_value, lemma_short_value, parse_unsigned, space_run,
    spaces_end, trim, trim_bounds, unsigned_value,
};

verus! {

/// The least and the greatest total lap time that `subset_size` cars of the
/// pool can have; both zero for an empty pool.
pub fn base_target_range(cars: &[Car], subset_size: usize) -> (range: (u32, u32))
    requires
        subset_size == 0 || feasible_max(cars@, subset_size as nat) <= u32::MAX,
    ensures
        range.0 == feasible_min(cars@, subset_size as nat),
        range.1 == feasible_max(cars@, subset_size as nat),
        cars@.len() == 0 ==> range == (0u32, 0u32),
{
    get_target_range_for_subset(cars, subset_size)
}

/// The distance between two neighbouring positions of the slider.
pub open spec fn target_step(min: u32, max: u32) -> int {
    if max > min {
        (max - min + SLIDER_MAX_INDEX - 1) / (SLIDER_MAX_INDEX as int)
    } else {
        1
    }
}

/// The target at a position of a slider that starts at `min`, moves by
/// `step` and stops at `max`.
pub open spec fn target_at(min: u32, max: u32, step: u32, idx: int) -> int {
    if min + step * idx <= max {
        min + step * idx
    } else {
        max as int
    }
}

/// The distance between two neighbouring positions of the slider: the span
/// from `min` to `max` divided by the highest position, rounded up; one where
/// there is no span.
pub fn base_target_step(min: u32, max: u32) -> (step: u32)
    ensures
        step == target_step(min, max),
        step >= 1,
        max > min ==> min + step * SLIDER_MAX_INDEX >= max,
{
    if max > min {
        let span: u64 = (max - min) as u64;
        let step: u64 = (span + (SLIDER_MAX_INDEX as u64 - 1)) / (SLIDER_MAX_INDEX as u64);
        step as u32
    } else {
        1
    }
}

/// The target at position `idx` of a slider with the given step: `idx` steps
/// above `min`, and `max` where that would lie above `max`.
pub fn target_from_step(min: u32, max: u32, step: u32, idx: usize) -> (target: u32)
    ensures
        target == target_at(min, max, step, idx as int),
{
    assert((step as u128) * (idx as u128) <= 0xffff_ffff * 0xffff_ffff_ffff_ffff) by (nonlinear_arith)
        requires
            step <= 0xffff_ffff,
            idx <= 0xffff_ffff_ffff_ffff,
    ;
    let value: u128 = (min as u128) + (step as u128) * (idx as u128);
    if value <= max as u128 {
        value as u32
    } else {
        max
    }
}

/// The target at position `idx` of the slider between `min` and `max`.
pub fn calc_target_from_idx(min: u32, max: u32, idx: usize) -> (target: u32)
    ensures
        target == target_at(min, max, target_step(min, max) as u32, idx as int),
        min <= max ==> min <= target <= max,
{
    let step = base_target_step(min, max);
    assert(0 <= step * idx) by (nonlinear_arith)
        requires
            step >= 0,
            idx >= 0,
    ;
    target_from_step(min, max, step, idx)
}

/// The position of the slider that lies closest to `value`: the share of the
/// span from `min` to `max` that `value` has covered, in steps of one
/// `SLIDER_MAX_INDEX`-th, rounded to the nearest step and half a step up. It
/// is zero where there is no span, and the highest position for a value
/// above `max`.
pub open spec fn slider_index(min: u32, max: u32, value: u32) -> int {
    if max > min {
        let span = max - min;
        let position = (2 * (value - min) * SLIDER_MAX_INDEX + span) / (2 * span);
        if position <= SLIDER_MAX_INDEX {
            position
        } else {
            SLIDER_MAX_INDEX as int
        }
    } else {
        0
    }
}

/// The position of the slider between `min` and `max` that lies closest to
/// `value`.
pub fn slider_position(min: u32, max: u32, value: u32) -> (position: usize)
    requires
        min <= max,
        min <= value,
    ensures
        position == slider_index(min, max, value),
        position <= SLIDER_MAX_INDEX,
{
    if max > min {
        let span: u64 = (max - min) as u64;
        let covered: u64 = (value - min) as u64;
        assert(SLIDER_MAX_INDEX == 99);
        let position: u64 = (covered * 198 + span) / (2 * span);
        if position <= SLIDER_MAX_INDEX as u64 {
            position as usize
        } else {
            SLIDER_MAX_INDEX
        }
    } else {
        0
    }
}

/// `value`, or the end of the range from `min` to `max` that it lies beyond.
pub fn clamp_target(value: u32, min: u32, max: u32) -> (target: u32)
    ensures
        target == if value < min {
            min
        } else if value > max {
            max
        } else {
            value
        },
{
    if value < min {
        min
    } else if value > max {
        max
    } else {
        value
    }
}

/// What the check of a target that a user typed gives: the target in
/// milliseconds, or the reason in words. A target that can be read must lie
/// between `min` and `max`.
pub open spec fn checked_target(input: Seq<char>, min: u32, max: u32) -> Result<u32, Seq<char>> {
    match read_time(trim(input)) {
        Err(text) => Err(text),
        Ok(ms) => if ms < min || ms > max {
            Err(
                "Target must be between "@ + format_text(min) + " and "@ + format_text(max),
            )
        } else {
            Ok(ms)
        },
    }
}

/// Reads a target that a user typed, and checks that it lies between `min`
/// and `max`.
pub fn validate_target(input: &str, min: u32, max: u32) -> (checked: Result<u32, String>)
    ensures
        same_outcome(checked, checked_target(input@, min, max)),
{
    match parse_time_to_ms(input) {
        Ok(ms) => {
            if ms < min || ms > max {
                let mut text = String::from_str("Target must be between ");
                text.append(format_ms_to_minsecms(min).as_str());
                text.append(" and ");
                text.append(format_ms_to_minsecms(max).as_str());
                Err(text)
            } else {
                Ok(ms)
            }
        },
        Err(text) => Err(text),
    }
}

/// How many of the first `n` positions of the slider have a result in the
/// cache, for the given lap count and player count.
pub open spec fn cached_count(
    keys: Set<CacheKey>,
    min: u32,
    max: u32,
    step: u32,
    lap_count: usize,
    player_count: usize,
    n: nat,
) -> nat
    decreases n,
{
    if n == 0 {
        0
    } else {
        let before = cached_count(keys, min, max, step, lap_count, player_count, (n - 1) as nat);
        if keys.contains((target_at(min, max, step, n - 1) as u32, lap_count, player_count)) {
            before + 1
        } else {
            before
        }
    }
}

/// Counts the positions of the slider whose target has a result in the
/// cache, for the given lap count and player count.
pub fn calc_cached_count<V>(
    cache: &ResultCache<V>,
    min: u32,
    max: u32,
    step: u32,
    lap_count: usize,
    player_count: usize,
) -> (count: usize)
    ensures
        count == cached_count(
            cache@.dom(),
            min,
            max,
            step,
            lap_count,
            player_count,
            (SLIDER_MAX_INDEX + 1) as nat,
        ),
        count <= SLIDER_MAX_INDEX + 1,
{
    let mut count: usize = 0;
    let mut idx: usize = 0;
    while idx <= SLIDER_MAX_INDEX
        invariant
            idx <= SLIDER_MAX_INDEX + 1,
            count <= idx,
            count == cached_count(cache@.dom(), min, max, step, lap_count, player_count, idx as nat),
        decreases SLIDER_MAX_INDEX + 1 - idx,
    {
        let target_val = target_from_step(min, max, step, idx);
        if cache.contains_key(&(target_val, lap_count, player_count)) {
            count += 1;
        }
        idx += 1;
    }
    count
}

/// The positions `0 .. n` in an order that spreads out: both ends first,
/// then the middle of the whole, then the middles of its halves, and so on.
/// Every entry from the third on is the midpoint of two entries before it.
pub fn spread_indices(n: usize) -> (out: Vec<usize>)
    ensures
        out@ == spread_order(n as nat),
        out@.len() == n,
        out@.no_duplicates(),
        forall|k: int| 0 <= k < n ==> (#[trigger] out@[k]) < n,
        forall|x: usize| x < n ==> out@.contains(x),
        n > 0 ==> out@[0] == 0,
        n > 1 ==> out@[1] == n - 1,
        n > 2 ==> out@[2] == (n - 1) / 2,
        forall|k: int| 2 <= k < n ==> is_midpoint(out@, k),
{
    if n == 0 {
        proof {
            assert(spread_order(0) =~= Seq::<usize>::empty());
        }
        return Vec::new();
    }
    let mut out: Vec<usize> = Vec::with_capacity(n);
    let mut seen: Vec<bool> = vec![false; n];
    let mut q: VecDeque<(usize, usize)> = VecDeque::new();
    out.push(0);
    seen.set(0, true);
    if n > 1 {
        out.push(n - 1);
        seen.set(n - 1, true);
    }
    q.push_back((0, n - 1));
    proof {
        let whole = (0usize, (n - 1) as usize);
        lemma_total_interior_push(Seq::<(usize, usize)>::empty(), whole);
        assert(q@ =~= Seq::<(usize, usize)>::empty().push(whole));
        assert(q@ =~= seq![whole]);
        assert(out@[0] == 0);
        assert(out@.contains(0usize));
        if n > 1 {
            assert(out@[1] == n - 1);
            assert(out@.contains((n - 1) as usize));
        }
        assert(interval_ok(whole, seen@));
        assert(spread_state(n as nat, out@, seen@, q@));
        assert(out@ =~= spread_start(n as nat));
    }
    while out.len() < n
        invariant
            n >= 1,
            spread_state(n as nat, out@, seen@, q@),
            out@ + spread_rest(q@) == spread_order(n as nat),
        decreases n - out@.len(), q@.len(),
    {
        let ghost queue = q@;
        let ghost order = out@;
        let ghost marks = seen@;
        match q.pop_front() {
            Some((lo, hi)) => {
                proof {
                    assert(q@ =~= queue.drop_first());
                    assert(queue[0] == (lo, hi));
                    assert(interval_ok(queue[0], marks));
                }
                if hi - lo > 1 {
                    let mid = lo + (hi - lo) / 2;
                    if !seen[mid] {
                        out.push(mid);
                        seen.set(mid, true);
                    }
                    q.push_back((lo, mid));
                    q.push_back((mid, hi));
                    proof {
                        lemma_spread_split(n as nat, order, marks, queue);
                        assert(spread_rest(queue) == seq![mid] + spread_rest(q@));
                        assert(out@ + spread_rest(q@) =~= order + (seq![mid] + spread_rest(q@)));
                    }
                } else {
                    proof {
                        lemma_spread_skip(n as nat, order, marks, queue);
                        assert(spread_rest(queue) == spread_rest(q@));
                    }
                }
            },
            None => {
                proof {
                    assert(total_interior(queue) == 0);
                }
                return out;
            },
        }
    }
    proof {
        lemma_full_subset_covers(out@, n as nat);
        lemma_nothing_left(q@);
        assert(out@ + spread_rest(q@) =~= out@);
    }
    out
}

/// The positions that the order begins with: both ends, or the one position
/// that there is.
pub open spec fn spread_start(n: nat) -> Seq<usize> {
    if n == 0 {
        Seq::empty()
    } else if n == 1 {
        seq![0usize]
    } else {
        seq![0usize, (n - 1) as usize]
    }
}

/// The midpoints that follow, given the spans that wait to be halved: the
/// midpoint of the first span, if it has one, and then what follows with
/// its two halves waiting behind the other spans.
pub open spec fn spread_rest(queue: Seq<(usize, usize)>) -> Seq<usize>
    decreases total_interior(queue), queue.len(),
{
    if queue.len() == 0 {
        Seq::empty()
    } else {
        let lo = queue[0].0;
        let hi = queue[0].1;
        if hi - lo > 1 {
            let mid = (lo + (hi - lo) / 2) as usize;
            proof {
                lemma_total_interior_first(queue);
                lemma_total_interior_push(queue.drop_first(), (lo, mid));
                lemma_total_interior_push(queue.drop_first().push((lo, mid)), (mid, hi));
            }
            seq![mid] + spread_rest(queue.drop_first().push((lo, mid)).push((mid, hi)))
        } else {
            proof {
                lemma_total_interior_first(queue);
            }
            spread_rest(queue.drop_first())
        }
    }
}

/// The positions `0 .. n` in spread-out order.
pub open spec fn spread_order(n: nat) -> Seq<usize> {
    if n == 0 {
        Seq::empty()
    } else {
        spread_start(n) + spread_rest(seq![(0usize, (n - 1) as usize)])
    }
}

/// Spans with nothing inside give no more midpoints.
proof fn lemma_nothing_left(queue: Seq<(usize, usize)>)
    requires
        total_interior(queue) == 0,
    ensures
        spread_rest(queue) == Seq::<usize>::empty(),
    decreases queue.len(),
{
    if queue.len() > 0 {
        lemma_total_interior_first(queue);
        lemma_nothing_left(queue.drop_first());
    }
}

/// What holds while the positions are spread: the order so far holds each
/// seen position once; the ends of every span of the queue are seen and
/// nothing between them is; and the positions not yet seen are those inside
/// the spans.
pub open spec fn spread_state(
    n: nat,
    order: Seq<usize>,
    seen: Seq<bool>,
    queue: Seq<(usize, usize)>,
) -> bool {
    &&& seen.len() == n
    &&& 1 <= order.len() <= n
    &&& n > 1 ==> order.len() >= 2
    &&& order.no_duplicates()
    &&& forall|k: int| 0 <= k < order.len() ==> (#[trigger] order[k]) < n && seen[order[k] as int]
    &&& forall|x: int| 0 <= x < n && #[trigger] seen[x] ==> order.contains(x as usize)
    &&& intervals_ok(queue, seen)
    &&& total_interior(queue) + order.len() == n
    &&& order[0] == 0
    &&& n > 1 ==> order[1] == n - 1
    &&& n > 2 && order.len() > 2 ==> order[2] == (n - 1) / 2
    &&& n > 2 && order.len() == 2 ==> queue.len() > 0 && queue[0] == (0usize, (n - 1) as usize)
    &&& forall|k: int| 2 <= k < order.len() ==> is_midpoint(order, k)
}

/// Dropping a span with nothing inside keeps the state.
proof fn lemma_spread_skip(n: nat, order: Seq<usize>, seen: Seq<bool>, queue: Seq<(usize, usize)>)
    requires
        spread_state(n, order, seen, queue),
        queue.len() > 0,
        queue[0].1 - queue[0].0 <= 1,
    ensures
        spread_state(n, order, seen, queue.drop_first()),
{
    let rest = queue.drop_first();
    lemma_total_interior_first(queue);
    assert(interval_ok(queue[0], seen));
    assert forall|k: int| 0 <= k < rest.len() implies interval_ok(#[trigger] rest[k], seen) by {
        assert(rest[k] == queue[k + 1]);
    }
    assert forall|k: int, l: int|
        0 <= k < rest.len() && 0 <= l < rest.len() && k != l implies apart(
        #[trigger] rest[k],
        #[trigger] rest[l],
    ) by {
        assert(rest[k] == queue[k + 1]);
        assert(rest[l] == queue[l + 1]);
    }
}

/// Splitting the first span of the queue at its midpoint, which becomes the
/// next entry of the order, keeps the state.
proof fn lemma_spread_split(n: nat, order: Seq<usize>, seen: Seq<bool>, queue: Seq<(usize, usize)>)
    requires
        spread_state(n, order, seen, queue),
        queue.len() > 0,
        queue[0].1 - queue[0].0 > 1,
    ensures
        ({
            let lo = queue[0].0;
            let hi = queue[0].1;
            let mid = (lo + (hi - lo) / 2) as usize;
            &&& lo < mid < hi
            &&& !seen[mid as int]
            &&& order.len() < n
            &&& spread_state(
                n,
                order.push(mid),
                seen.update(mid as int, true),
                queue.drop_first().push((lo, mid)).push((mid, hi)),
            )
        }),
{
    let lo = queue[0].0;
    let hi = queue[0].1;
    let mid = (lo + (hi - lo) / 2) as usize;
    let rest = queue.drop_first();
    let next_queue = rest.push((lo, mid)).push((mid, hi));
    let next_seen = seen.update(mid as int, true);
    let next_order = order.push(mid);
    assert(interval_ok(queue[0], seen));
    assert(!seen[mid as int]);
    lemma_total_interior_first(queue);
    lemma_total_interior_push(rest, (lo, mid));
    lemma_total_interior_push(rest.push((lo, mid)), (mid, hi));
    assert(next_order.no_duplicates()) by {
        assert forall|i: int, j: int|
            0 <= i < next_order.len() && 0 <= j < next_order.len() && i != j implies next_order[i]
            != next_order[j] by {
            if i < order.len() && j < order.len() {
            } else if i < order.len() {
                assert(seen[order[i] as int]);
            } else {
                assert(seen[order[j] as int]);
            }
        }
    }
    assert forall|x: int| 0 <= x < n && #[trigger] next_seen[x] implies next_order.contains(
        x as usize,
    ) by {
        if x == mid {
            assert(next_order[order.len() as int] == mid);
        } else {
            assert(seen[x]);
            assert(order.contains(x as usize));
            let i = choose|i: int| 0 <= i < order.len() && order[i] == x as usize;
            assert(next_order[i] == x as usize);
        }
    }
    assert forall|k: int| 0 <= k < next_queue.len() implies interval_ok(
        #[trigger] next_queue[k],
        next_seen,
    ) by {
        if k < rest.len() {
            assert(next_queue[k] == queue[k + 1]);
            assert(interval_ok(queue[k + 1], seen));
            assert(apart(queue[0], queue[k + 1]));
        }
    }
    assert forall|k: int, l: int|
        0 <= k < next_queue.len() && 0 <= l < next_queue.len() && k != l implies apart(
        #[trigger] next_queue[k],
        #[trigger] next_queue[l],
    ) by {
        if k < rest.len() {
            assert(next_queue[k] == queue[k + 1]);
            assert(apart(queue[0], queue[k + 1]));
        }
        if l < rest.len() {
            assert(next_queue[l] == queue[l + 1]);
            assert(apart(queue[0], queue[l + 1]));
        }
        if k < rest.len() && l < rest.len() {
            assert(apart(queue[k + 1], queue[l + 1]));
        }
    }
    assert(seen[lo as int] && seen[hi as int]);
    assert(order.contains(lo));
    assert(order.contains(hi));
    let i = choose|i: int| 0 <= i < order.len() && order[i] == lo;
    let j = choose|j: int| 0 <= j < order.len() && order[j] == hi;
    assert(midpoint_of(next_order, order.len() as int, i, j));
    assert forall|k: int| 2 <= k < next_order.len() implies is_midpoint(next_order, k) by {
        if k < order.len() {
            assert(is_midpoint(order, k));
            let (a, b) = choose|a: int, b: int| midpoint_of(order, k, a, b);
            assert(midpoint_of(next_order, k, a, b));
        }
    }
    if n > 2 && order.len() == 2 {
        assert(queue[0] == (0usize, (n - 1) as usize));
        assert(next_order[2] == mid);
    }
}

/// The entry at `k` is the midpoint of the entries at `a` and `b`, which
/// stand before it, the lower one at `a`.
pub open spec fn midpoint_of(order: Seq<usize>, k: int, a: int, b: int) -> bool {
    &&& 0 <= a < k
    &&& 0 <= b < k
    &&& k < order.len()
    &&& order[a] < order[k] < order[b]
    &&& order[k] == (order[a] + order[b]) / 2
}

/// The entry at `k` is the midpoint of two entries before it.
pub open spec fn is_midpoint(order: Seq<usize>, k: int) -> bool {
    exists|a: int, b: int| midpoint_of(order, k, a, b)
}

/// How many positions lie strictly between the ends of a span.
pub open spec fn interior(span: (usize, usize)) -> nat {
    if span.1 > span.0 {
        (span.1 - span.0 - 1) as nat
    } else {
        0
    }
}

/// How many positions lie strictly inside the spans of a queue.
pub open spec fn total_interior(queue: Seq<(usize, usize)>) -> nat
    decreases queue.len(),
{
    if queue.len() == 0 {
        0
    } else {
        total_interior(queue.drop_last()) + interior(queue.last())
    }
}

/// A span of the queue: its ends are seen, and nothing between them is.
pub open spec fn interval_ok(span: (usize, usize), seen: Seq<bool>) -> bool {
    &&& span.0 <= span.1 < seen.len()
    &&& seen[span.0 as int]
    &&& seen[span.1 as int]
    &&& forall|x: int| span.0 < x < span.1 ==> !#[trigger] seen[x]
}

/// Two spans share no position but an end.
pub open spec fn apart(a: (usize, usize), b: (usize, usize)) -> bool {
    a.1 <= b.0 || b.1 <= a.0
}

/// Every span of the queue is in order, and no two overlap.
pub open spec fn intervals_ok(queue: Seq<(usize, usize)>, seen: Seq<bool>) -> bool {
    &&& forall|k: int| 0 <= k < queue.len() ==> interval_ok(#[trigger] queue[k], seen)
    &&& forall|k: int, l: int|
        0 <= k < queue.len() && 0 <= l < queue.len() && k != l ==> apart(
            #[trigger] queue[k],
            #[trigger] queue[l],
        )
}

pub proof fn lemma_total_interior_push(queue: Seq<(usize, usize)>, span: (usize, usize))
    ensures
        total_interior(queue.push(span)) == total_interior(queue) + interior(span),
{
    assert(queue.push(span).drop_last() =~= queue);
}

pub proof fn lemma_total_interior_first(queue: Seq<(usize, usize)>)
    requires
        queue.len() > 0,
    ensures
        total_interior(queue) == interior(queue[0]) + total_interior(queue.drop_first()),
    decreases queue.len(),
{
    if queue.len() == 1 {
        assert(queue.drop_last() =~= Seq::<(usize, usize)>::empty());
        assert(queue.drop_first() =~= Seq::<(usize, usize)>::empty());
    } else {
        lemma_total_interior_first(queue.drop_last());
        assert(queue.drop_last().drop_first() =~= queue.drop_first().drop_last());
    }
}

/// As many distinct positions below `n` as there are such positions are all
/// of them.
pub proof fn lemma_full_subset_covers(indexes: Seq<usize>, n: nat)
    requires
        indexes.no_duplicates(),
        indexes.len() == n,
        forall|k: int| 0 <= k < n ==> (#[trigger] indexes[k]) < n,
    ensures
        forall|x: usize| x < n ==> indexes.contains(x),
    decreases n,
{
    if n > 0 {
        assert(in_pool(indexes, n));
        if exists|p: int| 0 <= p < indexes.len() && indexes[p] == n - 1 {
            let p = choose|p: int| 0 <= p < indexes.len() && indexes[p] == n - 1;
            let others = indexes.remove(p);
            assert(others.no_duplicates()) by {
                assert forall|i: int, j: int|
                    0 <= i < others.len() && 0 <= j < others.len() && i != j implies others[i]
                    != others[j] by {
                    let oi = if i < p { i } else { i + 1 };
                    let oj = if j < p { j } else { j + 1 };
                    assert(others[i] == indexes[oi]);
                    assert(others[j] == indexes[oj]);
                }
            }
            assert forall|k: int| 0 <= k < n - 1 implies (#[trigger] others[k]) < n - 1 by {
                let ok = if k < p { k } else { k + 1 };
                assert(others[k] == indexes[ok]);
                assert(indexes[ok] != indexes[p]);
            }
            lemma_full_subset_covers(others, (n - 1) as nat);
            assert forall|x: usize| x < n implies indexes.contains(x) by {
                if x == n - 1 {
                    assert(indexes[p] == x);
                } else {
                    assert(others.contains(x));
                    let k = choose|k: int| 0 <= k < others.len() && others[k] == x;
                    let ok = if k < p { k } else { k + 1 };
                    assert(indexes[ok] == x);
                }
            }
        } else {
            assert forall|k: int| 0 <= k < indexes.len() implies (#[trigger] indexes[k]) < n
                - 1 by {
                assert(indexes[k] < n);
            }
            assert(in_pool(indexes, (n - 1) as nat));
            lemma_subset_fits_pool(indexes, (n - 1) as nat);
        }
    }
}

/// Why a time could not be read.
#[derive(Debug)]
pub enum TimeParseError {
    EmptyInput,
    InvalidFormat(String),
    InvalidMinutes,
    InvalidSeconds(u32),
    InvalidMilliseconds,
}

/// What a `TimeParseError` says.
pub open spec fn time_error_text(error: TimeParseError) -> Seq<char> {
    match error {
        TimeParseError::EmptyInput => "Time cannot be empty"@,
        TimeParseError::InvalidFormat(hint) => "Invalid time format. "@ + hint@,
        TimeParseError::InvalidMinutes => "Invalid minutes value"@,
        TimeParseError::InvalidSeconds(seconds) => "Invalid seconds: "@ + decimal_digits(
            seconds as nat,
        ) + " (must be 0-59)"@,
        TimeParseError::InvalidMilliseconds => "Invalid milliseconds value"@,
    }
}

impl TimeParseError {
    /// The error in words.
    pub fn message(&self) -> (text: String)
        ensures
            text@ == time_error_text(*self),
    {
        match self {
            TimeParseError::EmptyInput => String::from_str("Time cannot be empty"),
            TimeParseError::InvalidFormat(hint) => {
                let mut text = String::from_str("Invalid time format. ");
                text.append(hint.as_str());
                text
            },
            TimeParseError::InvalidMinutes => String::from_str("Invalid minutes value"),
            TimeParseError::InvalidSeconds(seconds) => {
                let mut text = String::from_str("Invalid seconds: ");
                append_decimal(&mut text, *seconds as u64);
                text.append(" (must be 0-59)");
                text
            },
            TimeParseError::InvalidMilliseconds => String::from_str("Invalid milliseconds value"),
        }
    }
}

/// The hint that goes with a text in no known form.
pub open spec fn format_hint() -> Seq<char> {
    "Use: 2:30, 2m30s, 150s, or 150000"@
}

/// What a text in no known form is answered with.
pub open spec fn format_error_text() -> Seq<char> {
    "Invalid time format. "@ + format_hint()
}

/// Minutes and seconds as milliseconds. The seconds must not exceed 59, and
/// the whole must fit in 32 bits.
pub open spec fn minutes_and_seconds(minutes: Seq<char>, seconds: Seq<char>) -> Result<
    u32,
    Seq<char>,
> {
    match unsigned_value(minutes, u32::MAX as nat) {
        None => Err("Invalid minutes"@),
        Some(m) => match unsigned_value(seconds, u32::MAX as nat) {
            None => Err("Invalid seconds"@),
            Some(s) => if s > 59 {
                Err("Invalid time format: seconds must be 0-59"@)
            } else if m * 60_000 + s * 1_000 > u32::MAX {
                Err("Invalid minutes"@)
            } else {
                Ok((m * 60_000 + s * 1_000) as u32)
            },
        },
    }
}

/// The milliseconds that one to three digits behind the point denote: one
/// digit counts tenths of a second, two count hundredths.
pub open spec fn scaled_millis(digits: Seq<char>) -> nat {
    if digits.len() == 1 {
        decimal_value(digits) * 100
    } else if digits.len() == 2 {
        decimal_value(digits) * 10
    } else {
        decimal_value(digits)
    }
}

/// Minutes, two digits of seconds and one to three digits behind the point,
/// as milliseconds.
pub open spec fn minutes_seconds_millis(
    minutes: Seq<char>,
    seconds: Seq<char>,
    millis: Seq<char>,
) -> Result<u32, Seq<char>> {
    match unsigned_value(minutes, u32::MAX as nat) {
        None => Err(time_error_text(TimeParseError::InvalidMinutes)),
        Some(m) => {
            let s = decimal_value(seconds);
            if s > 59 {
                Err(time_error_text(TimeParseError::InvalidSeconds(s as u32)))
            } else if m * 60_000 + s * 1_000 + scaled_millis(millis) > u32::MAX {
                Err(time_error_text(TimeParseError::InvalidMinutes))
            } else {
                Ok((m * 60_000 + s * 1_000 + scaled_millis(millis)) as u32)
            }
        },
    }
}

/// Seconds as milliseconds.
pub open spec fn seconds_only(seconds: Seq<char>) -> Result<u32, Seq<char>> {
    match unsigned_value(seconds, u32::MAX as nat) {
        None => Err("Invalid seconds"@),
        Some(s) => if s * 1_000 > u32::MAX {
            Err("Invalid seconds"@)
        } else {
            Ok((s * 1_000) as u32)
        },
    }
}

/// What follows the colon of a time: seconds alone, or two digits of seconds,
/// a point and one to three digits.
pub open spec fn colon_time(t: Seq<char>, a: int) -> Result<u32, Seq<char>> {
    let b = digit_run(t.skip(a + 1)) as int;
    let c = a + 1 + b;
    if b >= 1 && c == t.len() {
        minutes_and_seconds(t.take(a), t.subrange(a + 1, c))
    } else if b == 2 && c < t.len() && t[c] == '.' && 1 <= t.len() - (c + 1) <= 3 && all_digits(
        t.skip(c + 1),
    ) {
        minutes_seconds_millis(t.take(a), t.subrange(a + 1, c), t.skip(c + 1))
    } else {
        Err(format_error_text())
    }
}

/// What follows the `m` of a time: white space or none, seconds, and `s`.
pub open spec fn minute_time(t: Seq<char>, a: int) -> Result<u32, Seq<char>> {
    let d = a + 1 + space_run(t.skip(a + 1));
    let e = d + digit_run(t.skip(d));
    if e > d && e + 1 == t.len() && t[e] == 's' {
        minutes_and_seconds(t.take(a), t.subrange(d, e))
    } else {
        Err(format_error_text())
    }
}

/// The milliseconds that a text without white space at its ends denotes.
///
/// A plain number counts milliseconds. Otherwise the text begins with digits,
/// and is one of `M:SS.f` (two digits of seconds, one to three behind the
/// point), `MmSs` (white space may follow the `m`), `M:S`, and `Ss`. Seconds
/// beside minutes must not exceed 59. A time that does not fit in 32 bits is
/// refused like minutes that do not, or like seconds where there are no
/// minutes.
pub open spec fn read_time(t: Seq<char>) -> Result<u32, Seq<char>> {
    let a = digit_run(t) as int;
    if t.len() == 0 {
        Err(time_error_text(TimeParseError::EmptyInput))
    } else if unsigned_value(t, u32::MAX as nat) is Some {
        Ok(unsigned_value(t, u32::MAX as nat)->0 as u32)
    } else if a == 0 || a == t.len() {
        Err(format_error_text())
    } else if t[a] == ':' {
        colon_time(t, a)
    } else if t[a] == 'm' {
        minute_time(t, a)
    } else if t[a] == 's' && a + 1 == t.len() {
        seconds_only(t.take(a))
    } else {
        Err(format_error_text())
    }
}

/// The answer to a text in no known form.
fn format_error() -> (text: String)
    ensures
        text@ == format_error_text(),
{
    TimeParseError::InvalidFormat(String::from_str("Use: 2:30, 2m30s, 150s, or 150000")).message()
}

/// Minutes and seconds, each between two positions of `t`, as milliseconds.
fn read_minutes_and_seconds(t: &[char], m0: usize, m1: usize, s0: usize, s1: usize) -> (parsed:
    Result<u32, String>)
    requires
        m0 <= m1 <= t@.len(),
        s0 <= s1 <= t@.len(),
    ensures
        same_outcome(
            parsed,
            minutes_and_seconds(t@.subrange(m0 as int, m1 as int), t@.subrange(s0 as int, s1 as int)),
        ),
{
    let minutes = match parse_unsigned(t, m0, m1, u32::MAX as u64) {
        Some(m) => m,
        None => {
            return Err(String::from_str("Invalid minutes"));
        },
    };
    let seconds = match parse_unsigned(t, s0, s1, u32::MAX as u64) {
        Some(s) => s,
        None => {
            return Err(String::from_str("Invalid seconds"));
        },
    };
    if seconds > 59 {
        return Err(String::from_str("Invalid time format: seconds must be 0-59"));
    }
    let total: u64 = minutes * 60_000 + seconds * 1_000;
    if total > u32::MAX as u64 {
        return Err(String::from_str("Invalid minutes"));
    }
    Ok(total as u32)
}

/// An executable outcome and the outcome that the rules give are the same:
/// the same value, or an error of the same words.
pub open spec fn same_outcome(parsed: Result<u32, String>, wanted: Result<u32, Seq<char>>) -> bool {
    match parsed {
        Ok(ms) => wanted == Ok::<u32, Seq<char>>(ms),
        Err(text) => wanted == Err::<u32, Seq<char>>(text@),
    }
}

fn read_colon_time(t: &[char], a: usize) -> (parsed: Result<u32, String>)
    requires
        a < t@.len(),
        all_digits(t@.take(a as int)),
        a >= 1,
    ensures
        same_outcome(parsed, colon_time(t@, a as int)),
{
    let len = t.len();
    let c = digits_end(t, a + 1, len);
    proof {
        assert(t@.subrange(a + 1, len as int) =~= t@.skip(a + 1));
        assert(t@.subrange(0, a as int) =~= t@.take(a as int));
        lemma_digit_run(t@.skip(a + 1));
    }
    if c > a + 1 && c == len {
        return read_minutes_and_seconds(t, 0, a, a + 1, c);
    }
    if c - a == 3 && c < len && t[c] == '.' && len - (c + 1) >= 1 && len - (c + 1) <= 3 {
        let end = digits_end(t, c + 1, len);
        proof {
            assert(t@.subrange(c + 1, len as int) =~= t@.skip(c + 1));
            lemma_digit_run(t@.skip(c + 1));
        }
        if end == len {
            let ghost seconds_text = t@.subrange(a + 1, c as int);
            let ghost millis_text = t@.skip(c + 1);
            proof {
                assert(seconds_text =~= t@.skip(a + 1).take(2));
                lemma_digits_value(seconds_text, 99);
                lemma_short_value(seconds_text);
                lemma_digits_value(millis_text, 999);
                lemma_short_value(millis_text);
            }
            let minutes = match parse_unsigned(t, 0, a, u32::MAX as u64) {
                Some(m) => m,
                None => {
                    return Err(TimeParseError::InvalidMinutes.message());
                },
            };
            let seconds = match parse_unsigned(t, a + 1, c, 99) {
                Some(s) => s,
                None => {
                    return Err(TimeParseError::InvalidSeconds(0).message());
                },
            };
            let millis = match parse_unsigned(t, c + 1, len, 999) {
                Some(ms) => ms,
                None => {
                    return Err(TimeParseError::InvalidMilliseconds.message());
                },
            };
            if seconds > 59 {
                return Err(TimeParseError::InvalidSeconds(seconds as u32).message());
            }
            let digits = len - (c + 1);
            let scaled: u64 = if digits == 1 {
                millis * 100
            } else if digits == 2 {
                millis * 10
            } else {
                millis
            };
            let total: u64 = minutes * 60_000 + seconds * 1_000 + scaled;
            if total > u32::MAX as u64 {
                return Err(TimeParseError::InvalidMinutes.message());
            }
            return Ok(total as u32);
        }
    }
    Err(format_error())
}

fn read_minute_time(t: &[char], a: usize) -> (parsed: Result<u32, String>)
    requires
        a < t@.len(),
    ensures
        same_outcome(parsed, minute_time(t@, a as int)),
{
    let len = t.len();
    let d = spaces_end(t, a + 1, len);
    let e = digits_end(t, d, len);
    proof {
        assert(t@.subrange(a + 1, len as int) =~= t@.skip(a + 1));
        assert(t@.subrange(d as int, len as int) =~= t@.skip(d as int));
        assert(t@.subrange(0, a as int) =~= t@.take(a as int));
    }
    if e > d && e < len && len - e == 1 && t[e] == 's' {
        return read_minutes_and_seconds(t, 0, a, d, e);
    }
    Err(format_error())
}

fn read_seconds_only(t: &[char], a: usize) -> (parsed: Result<u32, String>)
    requires
        a <= t@.len(),
    ensures
        same_outcome(parsed, seconds_only(t@.take(a as int))),
{
    proof {
        assert(t@.subrange(0, a as int) =~= t@.take(a as int));
    }
    let seconds = match parse_unsigned(t, 0, a, u32::MAX as u64) {
        Some(s) => s,
        None => {
            return Err(String::from_str("Invalid seconds"));
        },
    };
    let total: u64 = seconds * 1_000;
    if total > u32::MAX as u64 {
        return Err(String::from_str("Invalid seconds"));
    }
    Ok(total as u32)
}

/// Reads a time as milliseconds, white space at its ends aside: `150000`,
/// `2:30.500`, `2m 30s`, `2m30s`, `2:30` and `150s` are the forms, and
/// `read_time` gives the rules. What cannot be read is answered in words.
pub fn parse_time_to_ms(input: &str) -> (parsed: Result<u32, String>)
    ensures
        same_outcome(parsed, read_time(trim(input@))),
{
    let chars = chars_of(input);
    let (lo, hi) = trim_bounds(chars.as_slice(), 0, chars.len());
    assert(chars@.subrange(0, chars@.len() as int) =~= input@);
    let t = vstd::slice::slice_subrange(chars.as_slice(), lo, hi);
    if t.len() == 0 {
        return Err(TimeParseError::EmptyInput.message());
    }
    assert(t@.subrange(0, t@.len() as int) =~= t@);
    if let Some(ms) = parse_unsigned(t, 0, t.len(), u32::MAX as u64) {
        return Ok(ms as u32);
    }
    let a = digits_end(t, 0, t.len());
    proof {
        lemma_digit_run(t@);
    }
    if a == 0 || a == t.len() {
        return Err(format_error());
    }
    let mark = t[a];
    if mark == ':' {
        read_colon_time(t, a)
    } else if mark == 'm' {
        read_minute_time(t, a)
    } else if mark == 's' && a + 1 == t.len() {
        read_seconds_only(t, a)
    } else {
        Err(format_error())
    }
}

/// What the check of a number that a user typed gives: the number, or the
/// reason in words, which begins with the field's name.
pub open spec fn checked_number(
    input: Seq<char>,
    min: Option<usize>,
    max: Option<usize>,
    field_name: Seq<char>,
) -> Result<usize, Seq<char>> {
    let t = trim(input);
    if t.len() == 0 {
        Err(field_name + " cannot be empty"@)
    } else {
        match unsigned_value(t, usize::MAX as nat) {
            None => Err(field_name + " must be a valid number"@),
            Some(value) => if min is Some && value < min->0 {
                Err(field_name + " must be at least "@ + decimal_digits(min->0 as nat))
            } else if max is Some && value > max->0 {
                Err(field_name + " cannot exceed "@ + decimal_digits(max->0 as nat))
            } else {
                Ok(value as usize)
            },
        }
    }
}

/// An executable outcome and the outcome that the rules give are the same.
pub open spec fn same_number(parsed: Result<usize, String>, wanted: Result<usize, Seq<char>>) -> bool {
    match parsed {
        Ok(value) => wanted == Ok::<usize, Seq<char>>(value),
        Err(text) => wanted == Err::<usize, Seq<char>>(text@),
    }
}

/// Reads a number that a user typed into the field `field_name`, white space
/// at its ends aside, and checks it against the bounds that are given.
pub fn validate_numeric_input(
    input: &str,
    min: Option<usize>,
    max: Option<usize>,
    field_name: &str,
) -> (checked: Result<usize, String>)
    ensures
        same_number(checked, checked_number(input@, min, max, field_name@)),
{
    let chars = chars_of(input);
    let (lo, hi) = trim_bounds(chars.as_slice(), 0, chars.len());
    assert(chars@.subrange(0, chars@.len() as int) =~= input@);
    if lo == hi {
        let mut text = String::from_str(field_name);
        text.append(" cannot be empty");
        return Err(text);
    }
    match parse_unsigned(chars.as_slice(), lo, hi, usize::MAX as u64) {
        Some(value) => {
            let value = value as usize;
            if let Some(min_val) = min {
                if value < min_val {
                    let mut text = String::from_str(field_name);
                    text.append(" must be at least ");
                    append_decimal(&mut text, min_val as u64);
                    return Err(text);
                }
            }
            if let Some(max_val) = max {
                if value > max_val {
                    let mut text = String::from_str(field_name);
                    text.append(" cannot exceed ");
                    append_decimal(&mut text, max_val as u64);
                    return Err(text);
                }
            }
            Ok(value)
        },
        None => {
            let mut text = String::from_str(field_name);
            text.append(" must be a valid number");
            Err(text)
        },
    }
}

/// Checks a lap count that a user typed: at least one, and no more than
/// there are cars.
pub fn validate_lap_count(input: &str, max_cars: usize) -> (checked: Result<usize, String>)
    ensures
        same_number(checked, checked_number(input@, Some(1usize), Some(max_cars), "Lap count"@)),
{
    validate_numeric_input(input, Some(1), Some(max_cars), "Lap count")
}

/// Checks a player count that a user typed: no more than 250.
pub fn validate_player_count(input: &str) -> (checked: Result<usize, String>)
    ensures
        same_number(
            checked,
            checked_number(input@, Some(0usize), Some(250usize), "Player count"@),
        ),
{
    validate_numeric_input(input, Some(0), Some(MAX_PLAYER_COUNT), "Player count")
}

} // verus!
