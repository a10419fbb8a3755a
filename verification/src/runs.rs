//! A session of runs: one subset after another, each within tolerance of the
//! target, until there are as many as there are players or the time is up.
//!
//! A session is a state that advances one search at a time. Each step is
//! told how much time has passed, so the clock is the caller's:
//! `perform_multiple_runs` drives a session by the clock of the operating
//! system.

use vstd::prelude::*;
use std::collections::HashSet;
use crate::bounds::{feasible_max, feasible_min, search_sums_fit};
use crate::car::{in_pool, set_in_pool, Car, CarIndex};
use crate::clock::{budget_spent, effective_timeout, elapsed_millis, instant_now};
use crate::config::{DEFAULT_TIMEOUT_MS, DEFAULT_TOLERANCE_MILLIPERCENT};
use crate::error::SubsetError;
use crate::search::{
    calculate_subset_sum, find_approximate_subset, is_search_error, is_subset_of_pool,
    lemma_subset_fits_pool, out_of_reach, search_outcome,
};
use crate::sums::subset_sum;
use crate::tolerance::{accuracy_within, within_tolerance, Tolerance};

verus! {

broadcast use vstd::std_specs::hash::group_hash_axioms;

/// How many searches `perform_multiple_runs` makes at most in one session.
pub const MAX_ATTEMPTS: u64 = 0xffff_ffff_ffff_ffff;

/// Parameters of a session.
#[derive(Debug, Clone, Copy, PartialEq, Eq, Structural)]
pub struct SubsetCalculationConfig {
    /// The sum that each subset should have, in milliseconds.
    pub target: u32,
    /// How many cars a subset holds.
    pub lap_count: usize,
    /// How many subsets are wanted.
    pub player_count: usize,
    /// The time budget of the session, in milliseconds.
    pub timeout_ms: u64,
    /// How far a subset's sum may lie from the target.
    pub tolerance: Tolerance,
}

impl Default for SubsetCalculationConfig {
    fn default() -> (config: Self)
        ensures
            config == (SubsetCalculationConfig {
                target: 0,
                lap_count: 0,
                player_count: 0,
                timeout_ms: DEFAULT_TIMEOUT_MS,
                tolerance: Tolerance { millipercent: DEFAULT_TOLERANCE_MILLIPERCENT },
            }),
    {
        SubsetCalculationConfig {
            target: 0,
            lap_count: 0,
            player_count: 0,
            timeout_ms: DEFAULT_TIMEOUT_MS,
            tolerance: Tolerance { millipercent: DEFAULT_TOLERANCE_MILLIPERCENT },
        }
    }
}

/// A subset that a session accepts: `lap_count` distinct cars of the pool
/// whose lap times sum to within tolerance of the target.
pub open spec fn is_accepted(
    cars: Seq<Car>,
    subset: Seq<CarIndex>,
    target: u32,
    lap_count: nat,
    tolerance: Tolerance,
) -> bool {
    &&& is_subset_of_pool(subset, lap_count, cars.len())
    &&& accuracy_within(subset_sum(cars, subset), target as int, tolerance.millipercent as int)
}

/// Whether a subset that a search returned is accepted: whether its sum lies
/// within tolerance of the target.
pub fn accept_attempt(cars: &[Car], attempt: &[CarIndex], target: u32, tolerance: Tolerance) -> (ok:
    bool)
    requires
        in_pool(attempt@, cars@.len()),
        subset_sum(cars@, attempt@) <= u32::MAX,
    ensures
        ok == accuracy_within(
            subset_sum(cars@, attempt@),
            target as int,
            tolerance.millipercent as int,
        ),
{
    let subset_sum = calculate_subset_sum(cars, attempt);
    within_tolerance(subset_sum, target, tolerance)
}

/// Adds the cars of a subset to the cars that were selected before.
pub fn mark_selected(previously_selected: &mut HashSet<CarIndex>, subset: &[CarIndex])
    ensures
        final(previously_selected)@ == old(previously_selected)@.union(subset@.to_set()),
{
    let ghost before = previously_selected@;
    let mut i: usize = 0;
    while i < subset.len()
        invariant
            i <= subset@.len(),
            previously_selected@ == before.union(subset@.take(i as int).to_set()),
        decreases subset@.len() - i,
    {
        previously_selected.insert(subset[i]);
        proof {
            let done = subset@.take(i as int);
            let next = subset@.take(i + 1);
            assert(next =~= done.push(subset@[i as int]));
            assert(next.to_set() =~= done.to_set().insert(subset@[i as int])) by {
                assert forall|x: CarIndex| next.to_set().contains(x) <==> done.to_set().insert(
                    subset@[i as int],
                ).contains(x) by {
                    if next.contains(x) {
                        let k = choose|k: int| 0 <= k < next.len() && next[k] == x;
                        if k < done.len() {
                            assert(done[k] == x);
                            assert(done.contains(x));
                        }
                    }
                    if done.contains(x) {
                        let k = choose|k: int| 0 <= k < done.len() && done[k] == x;
                        assert(next[k] == x);
                    }
                    if x == subset@[i as int] {
                        assert(next[i as int] == x);
                    }
                }
            }
            assert(previously_selected@ =~= before.union(next.to_set()));
        }
        i += 1;
    }
    proof {
        assert(subset@.take(subset@.len() as int) =~= subset@);
    }
}

/// The errors that a session can end in: those of a search, and the report
/// that fewer subsets than players were found.
pub open spec fn is_session_error(
    cars: Seq<Car>,
    target: u32,
    lap_count: nat,
    player_count: nat,
    error: SubsetError,
) -> bool {
    match error {
        SubsetError::NotEnoughSuccessfulRuns { required, found } => required == player_count
            && found < player_count,
        _ => is_search_error(cars, target, lap_count, error),
    }
}

/// What the clock decides: once more time has passed than the budget gives,
/// the session fails, and reports how many subsets were required and how many
/// were accepted by then.
pub fn budget_check(elapsed_ms: u128, max_runtime_ms: u64, required: usize, found: usize) -> (failure:
    Option<SubsetError>)
    ensures
        failure == if elapsed_ms > max_runtime_ms {
            Some(SubsetError::NotEnoughSuccessfulRuns { required, found })
        } else {
            None::<SubsetError>
        },
{
    if budget_spent(elapsed_ms, max_runtime_ms) {
        Some(SubsetError::NotEnoughSuccessfulRuns { required, found })
    } else {
        None
    }
}

/// How a step of a session ended.
#[derive(Debug, Clone, Copy, PartialEq, Eq, Structural)]
pub enum SessionStep {
    /// There are as many subsets as players.
    Complete,
    /// More searches are needed.
    Searching,
    /// The session has failed; a later step fails again or searches on, as
    /// the clock and the draws have it.
    Failed(SubsetError),
}

/// A session in progress: the subsets accepted so far, and the cars that
/// they hold, which later searches leave aside and fall back on only for
/// reuse.
pub struct RunSession {
    target: u32,
    lap_count: usize,
    player_count: usize,
    max_runtime_ms: u64,
    tolerance: Tolerance,
    previously_selected: HashSet<CarIndex>,
    results: Vec<Vec<CarIndex>>,
}

/// What one step of a session does.
///
/// A session that has its subsets is complete and stays as it is, whatever
/// the clock shows. Otherwise a session that has run for longer than its
/// budget fails, reports the subsets accepted so far, and stays as it is.
/// Otherwise one search is made among the cars that no accepted subset
/// holds, with the cars of the accepted subsets for reuse, and `found` is
/// what it returns. If the search fails, the step fails with the error of the
/// search. If its subset misses the tolerance, the session stays as it is and
/// searches on. Otherwise the subset is accepted: it goes behind the subsets
/// accepted so far, its cars join the cars for reuse, and the session is
/// complete if that was the last subset required.
pub open spec fn is_step(
    cars: Seq<Car>,
    settings: SubsetCalculationConfig,
    before: Seq<Vec<CarIndex>>,
    pool_before: Set<CarIndex>,
    elapsed_ms: u128,
    after: Seq<Vec<CarIndex>>,
    pool_after: Set<CarIndex>,
    step: SessionStep,
) -> bool {
    let unchanged = after == before && pool_after == pool_before;
    if before.len() >= settings.player_count {
        step == SessionStep::Complete && unchanged
    } else if elapsed_ms > settings.timeout_ms {
        unchanged && (step matches SessionStep::Failed(
            SubsetError::NotEnoughSuccessfulRuns { required, found },
        ) && required == settings.player_count && found == before.len())
    } else {
        exists|found: Result<Vec<CarIndex>, SubsetError>| #[trigger]
            step_search(cars, settings, before, pool_before, after, pool_after, step, found)
    }
}

/// What a session ends in, from the subsets accepted so far and
/// `attempts_left` further searches before it gives up.
///
/// The session takes a step, at whatever time the clock then shows. A step
/// that completes the session ends it with the accepted subsets; a step that
/// fails ends it with the step's error. Else the session goes on from what the
/// step left, or, with no search left, reports how many subsets it has.
pub open spec fn session_from(
    cars: Seq<Car>,
    settings: SubsetCalculationConfig,
    accepted: Seq<Vec<CarIndex>>,
    pool: Set<CarIndex>,
    attempts_left: nat,
    outcome: Result<Vec<Vec<CarIndex>>, SubsetError>,
) -> bool
    decreases attempts_left,
{
    exists|elapsed_ms: u128, after: Seq<Vec<CarIndex>>, pool_after: Set<CarIndex>, step: SessionStep|
     #[trigger]
        is_step(cars, settings, accepted, pool, elapsed_ms, after, pool_after, step) && match step {
            SessionStep::Complete => outcome matches Ok(subsets) && subsets@ == after,
            SessionStep::Failed(error) => outcome == Err::<Vec<Vec<CarIndex>>, SubsetError>(error),
            SessionStep::Searching => if attempts_left == 0 {
                outcome matches Err(SubsetError::NotEnoughSuccessfulRuns { required, found })
                    && required == settings.player_count && found == after.len()
            } else {
                session_from(cars, settings, after, pool_after, (attempts_left - 1) as nat, outcome)
            },
        }
}

/// The parameters that a session for these arguments runs under: the time
/// budget is at least `MIN_TIMEOUT_MS`.
pub open spec fn session_settings(
    target: u32,
    lap_count: usize,
    player_count: usize,
    timeout_ms: u64,
    tolerance: Tolerance,
) -> SubsetCalculationConfig {
    SubsetCalculationConfig {
        target,
        lap_count,
        player_count,
        timeout_ms: if timeout_ms >= crate::clock::MIN_TIMEOUT_MS {
            timeout_ms
        } else {
            crate::clock::MIN_TIMEOUT_MS
        },
        tolerance,
    }
}

/// A session that goes on after a step is a session from that step.
proof fn lemma_session_from_step(
    cars: Seq<Car>,
    settings: SubsetCalculationConfig,
    accepted: Seq<Vec<CarIndex>>,
    pool: Set<CarIndex>,
    attempts_left: nat,
    elapsed_ms: u128,
    after: Seq<Vec<CarIndex>>,
    pool_after: Set<CarIndex>,
)
    requires
        attempts_left > 0,
        is_step(
            cars,
            settings,
            accepted,
            pool,
            elapsed_ms,
            after,
            pool_after,
            SessionStep::Searching,
        ),
    ensures
        forall|outcome: Result<Vec<Vec<CarIndex>>, SubsetError>| #[trigger]
            session_from(cars, settings, after, pool_after, (attempts_left - 1) as nat, outcome)
                ==> session_from(cars, settings, accepted, pool, attempts_left, outcome),
{
}

impl RunSession {
    /// The parameters of the session; the time budget is the budget that the
    /// session runs under.
    pub closed spec fn settings(&self) -> SubsetCalculationConfig {
        SubsetCalculationConfig {
            target: self.target,
            lap_count: self.lap_count,
            player_count: self.player_count,
            timeout_ms: self.max_runtime_ms,
            tolerance: self.tolerance,
        }
    }

    /// The subsets accepted so far, in the order in which they were found.
    pub closed spec fn accepted(&self) -> Seq<Vec<CarIndex>> {
        self.results@
    }

    /// The cars that the accepted subsets hold.
    pub closed spec fn reuse_pool(&self) -> Set<CarIndex> {
        self.previously_selected@
    }

    /// The session fits the pool: every accepted subset holds distinct cars
    /// of the pool within tolerance of the target, there are no more subsets
    /// than players, and the cars for reuse are cars of the pool, none while
    /// no subset is accepted.
    pub closed spec fn wf(&self, cars: Seq<Car>) -> bool {
        &&& self.results@.len() <= self.player_count
        &&& forall|i: int|
            0 <= i < self.results@.len() ==> is_accepted(
                cars,
                (#[trigger] self.results@[i])@,
                self.target,
                self.lap_count as nat,
                self.tolerance,
            )
        &&& set_in_pool(self.previously_selected@, cars.len())
        &&& self.results@.len() == 0 ==> self.previously_selected@ == Set::<CarIndex>::empty()
    }

    /// A session at its start. The time budget is at least `MIN_TIMEOUT_MS`.
    pub fn new(config: SubsetCalculationConfig) -> (session: RunSession)
        ensures
            session.settings() == (SubsetCalculationConfig {
                timeout_ms: if config.timeout_ms >= crate::clock::MIN_TIMEOUT_MS {
                    config.timeout_ms
                } else {
                    crate::clock::MIN_TIMEOUT_MS
                },
                ..config
            }),
            session.accepted() == Seq::<Vec<CarIndex>>::empty(),
            session.reuse_pool() == Set::<CarIndex>::empty(),
            forall|cars: Seq<Car>| #[trigger] session.wf(cars),
    {
        RunSession {
            target: config.target,
            lap_count: config.lap_count,
            player_count: config.player_count,
            max_runtime_ms: effective_timeout(config.timeout_ms),
            tolerance: config.tolerance,
            previously_selected: HashSet::new(),
            results: Vec::new(),
        }
    }

    /// How many subsets are accepted so far.
    pub fn accepted_count(&self) -> (count: usize)
        ensures
            count == self.accepted().len(),
    {
        self.results.len()
    }

    /// The subsets that the session accepted.
    pub fn into_results(self) -> (subsets: Vec<Vec<CarIndex>>)
        ensures
            subsets@ == self.accepted(),
    {
        self.results
    }

    /// Advances the session by one step, `elapsed_ms` milliseconds after its
    /// start. `is_step` says what a step does.
    pub fn step(&mut self, cars: &[Car], elapsed_ms: u128) -> (step: SessionStep)
        requires
            search_sums_fit(cars@, old(self).settings().lap_count as nat),
            old(self).wf(cars@),
        ensures
            final(self).wf(cars@),
            final(self).settings() == old(self).settings(),
            is_step(
                cars@,
                old(self).settings(),
                old(self).accepted(),
                old(self).reuse_pool(),
                elapsed_ms,
                final(self).accepted(),
                final(self).reuse_pool(),
                step,
            ),
    {
        if self.results.len() >= self.player_count {
            return SessionStep::Complete;
        }
        if let Some(error) = budget_check(
            elapsed_ms,
            self.max_runtime_ms,
            self.player_count,
            self.results.len(),
        ) {
            return SessionStep::Failed(error);
        }
        let searched = find_approximate_subset(
            cars,
            self.target,
            self.lap_count,
            &self.previously_selected,
            self.tolerance,
        );
        let ghost found = searched;
        let ghost settings = self.settings();
        let ghost pool_before = self.previously_selected@;
        let ghost accepted_before = self.results@;
        proof {
            assert(search_outcome(
                cars@,
                settings.target,
                settings.lap_count as nat,
                pool_before,
                settings.tolerance,
                found,
            ));
        }
        let attempt = match searched {
            Ok(subset) => subset,
            Err(error) => {
                proof {
                    assert(step_search(
                        cars@,
                        settings,
                        accepted_before,
                        pool_before,
                        self.results@,
                        self.previously_selected@,
                        SessionStep::Failed(error),
                        found,
                    ));
                }
                return SessionStep::Failed(error);
            },
        };
        proof {
            lemma_subset_fits_pool(attempt@, cars@.len());
            crate::search::lemma_distinct_sum_fits(cars@, attempt@, self.lap_count as nat);
        }
        if !accept_attempt(cars, attempt.as_slice(), self.target, self.tolerance) {
            proof {
                assert(found == Ok::<Vec<CarIndex>, SubsetError>(attempt));
                assert(step_search(
                    cars@,
                    settings,
                    accepted_before,
                    pool_before,
                    self.results@,
                    self.previously_selected@,
                    SessionStep::Searching,
                    found,
                ));
            }
            return SessionStep::Searching;
        }
        let ghost before = self.results@;
        mark_selected(&mut self.previously_selected, attempt.as_slice());
        self.results.push(attempt);
        proof {
            assert(self.results@.drop_last() =~= before);
            assert(found matches Ok(subset) && self.results@ == before.push(subset));
            assert forall|x: CarIndex| self.previously_selected@.contains(x) implies x
                < cars@.len() by {
                if !pool_before.contains(x) {
                    assert(attempt@.to_set().contains(x));
                    assert(attempt@.contains(x));
                }
            }
            assert forall|i: int| 0 <= i < self.results@.len() implies is_accepted(
                cars@,
                (#[trigger] self.results@[i])@,
                self.target,
                self.lap_count as nat,
                self.tolerance,
            ) by {
                if i < before.len() {
                    assert(self.results@[i] == before[i]);
                }
            }
        }
        let step = if self.results.len() >= self.player_count {
            SessionStep::Complete
        } else {
            SessionStep::Searching
        };
        proof {
            assert(step_search(
                cars@,
                settings,
                accepted_before,
                pool_before,
                self.results@,
                self.previously_selected@,
                step,
                found,
            ));
        }
        step
    }
}

/// All the cars of the pool have the lap time `lap_time`, `lap_count` of them
/// hit the target, which is not zero, and the pool holds enough cars for
/// every player to have cars of their own.
pub open spec fn uniform_session(
    cars: Seq<Car>,
    target: u32,
    lap_count: nat,
    player_count: nat,
    lap_time: u32,
) -> bool {
    &&& forall|x: int| 0 <= x < cars.len() ==> (#[trigger] cars[x]).lap_time == lap_time
    &&& target == lap_count * lap_time
    &&& target > 0
    &&& player_count * lap_count <= cars.len()
}

/// No car stands in two of the subsets.
pub open spec fn share_no_car(subsets: Seq<Vec<CarIndex>>) -> bool {
    forall|a: int, b: int, i: int, j: int|
        #![trigger subsets[a]@[i], subsets[b]@[j]]
        0 <= a < b < subsets.len() && 0 <= i < subsets[a]@.len() && 0 <= j < subsets[b]@.len()
            ==> subsets[a]@[i] != subsets[b]@[j]
}

/// The subsets share no car, and the cars for reuse are their cars, each
/// counted once.
pub open spec fn apart_so_far(
    subsets: Seq<Vec<CarIndex>>,
    pool: Set<CarIndex>,
    lap_count: nat,
) -> bool {
    &&& share_no_car(subsets)
    &&& pool.finite()
    &&& pool.len() == subsets.len() * lap_count
    &&& forall|r: int, i: int|
        0 <= r < subsets.len() && 0 <= i < subsets[r]@.len() ==> pool.contains(
            #[trigger] subsets[r]@[i],
        )
}

/// In a session among cars of one lap time, the next search goes among cars
/// of one lap time that are enough and hit the target.
proof fn lemma_uniform_session_search(
    cars: Seq<Car>,
    target: u32,
    lap_count: nat,
    player_count: nat,
    t: u32,
    before: Seq<Vec<CarIndex>>,
    pool_before: Set<CarIndex>,
)
    requires
        uniform_session(cars, target, lap_count, player_count, t),
        apart_so_far(before, pool_before, lap_count),
        before.len() < player_count,
    ensures
        crate::search::uniform_search(cars, pool_before, target, lap_count, t),
{
    let done = before.len() as int;
    let l = lap_count as int;
    let p = player_count as int;
    assert(l + done * l <= p * l) by (nonlinear_arith)
        requires
            0 <= done < p,
            0 <= l,
    ;
    assert forall|c: CarIndex|
        #![trigger crate::search::is_left(cars, pool_before, c)]
        crate::search::is_left(cars, pool_before, c) implies cars[c as int].lap_time == t by {
        assert(cars[c as int].lap_time == t);
    }
}

/// Accepting a subset that a search among cars of one lap time returned
/// keeps the subsets apart.
proof fn lemma_uniform_session_step(
    cars: Seq<Car>,
    target: u32,
    lap_count: nat,
    player_count: nat,
    tolerance: Tolerance,
    t: u32,
    before: Seq<Vec<CarIndex>>,
    pool_before: Set<CarIndex>,
    after: Seq<Vec<CarIndex>>,
    pool_after: Set<CarIndex>,
)
    requires
        uniform_session(cars, target, lap_count, player_count, t),
        apart_so_far(before, pool_before, lap_count),
        before.len() < player_count,
        after.len() == before.len() + 1,
        after.drop_last() == before,
        search_outcome(
            cars,
            target,
            lap_count,
            pool_before,
            tolerance,
            Ok::<Vec<CarIndex>, SubsetError>(after.last()),
        ),
        pool_after == pool_before.union(after.last()@.to_set()),
    ensures
        apart_so_far(after, pool_after, lap_count),
{
    lemma_uniform_session_search(cars, target, lap_count, player_count, t, before, pool_before);
    let fresh = after.last()@;
    assert(crate::search::all_left_with(cars, pool_before, fresh, t));
    assert(is_subset_of_pool(fresh, lap_count, cars.len()));
    fresh.unique_seq_to_set();
    vstd::seq_lib::seq_to_set_is_finite(fresh);
    assert(pool_before.disjoint(fresh.to_set())) by {
        assert forall|x: CarIndex| !(pool_before.contains(x) && fresh.to_set().contains(x)) by {
            if fresh.contains(x) {
                let i = choose|i: int| 0 <= i < fresh.len() && fresh[i] == x;
                assert(crate::search::is_left(cars, pool_before, fresh[i]));
            }
        }
    }
    vstd::set_lib::lemma_set_disjoint_lens(pool_before, fresh.to_set());
    let done = before.len() as int;
    let l = lap_count as int;
    assert(done * l + l == (done + 1) * l) by (nonlinear_arith);
    assert forall|a: int, b: int, i: int, j: int|
        #![trigger after[a]@[i], after[b]@[j]]
        0 <= a < b < after.len() && 0 <= i < after[a]@.len() && 0 <= j < after[b]@.len() implies after[a]@[i]
        != after[b]@[j] by {
        assert(after[a] == before[a]);
        if b < before.len() {
            assert(after[b] == before[b]);
            assert(before[a]@[i] != before[b]@[j]);
        } else {
            assert(pool_before.contains(before[a]@[i]));
            assert(crate::search::is_left(cars, pool_before, fresh[j]));
        }
    }
    assert forall|r: int, i: int|
        0 <= r < after.len() && 0 <= i < after[r]@.len() implies pool_after.contains(
        #[trigger] after[r]@[i],
    ) by {
        if r < before.len() {
            assert(after[r] == before[r]);
            assert(pool_before.contains(before[r]@[i]));
        } else {
            assert(fresh.contains(fresh[i]));
        }
    }
}

/// A sum that hits a target above zero is within every tolerance.
pub proof fn lemma_exact_is_within(target: u32, tolerance: Tolerance)
    requires
        target > 0,
    ensures
        accuracy_within(target as int, target as int, tolerance.millipercent as int),
{
    let m = tolerance.millipercent as int;
    assert((100_000 - m) * target <= 100_000 * target <= (100_000 + m) * target)
        by (nonlinear_arith)
        requires
            0 <= m,
            0 < target,
    ;
}

/// The search of a step that has subsets to find and time left.
pub open spec fn step_search(
    cars: Seq<Car>,
    settings: SubsetCalculationConfig,
    before: Seq<Vec<CarIndex>>,
    pool_before: Set<CarIndex>,
    after: Seq<Vec<CarIndex>>,
    pool_after: Set<CarIndex>,
    step: SessionStep,
    found: Result<Vec<CarIndex>, SubsetError>,
) -> bool {
    let unchanged = after == before && pool_after == pool_before;
    search_outcome(
        cars,
        settings.target,
        settings.lap_count as nat,
        pool_before,
        settings.tolerance,
        found,
    ) && match found {
        Err(error) => step == SessionStep::Failed(error) && unchanged,
        Ok(subset) => if is_accepted(
            cars,
            subset@,
            settings.target,
            settings.lap_count as nat,
            settings.tolerance,
        ) {
            &&& after == before.push(subset)
            &&& pool_after == pool_before.union(subset@.to_set())
            &&& step == if after.len() >= settings.player_count {
                SessionStep::Complete
            } else {
                SessionStep::Searching
            }
        } else {
            unchanged && step == SessionStep::Searching
        },
    }
}

/// A step with subsets to find and time left, in a session for all the cars
/// of the pool with the pool's total for its target, accepts a subset that
/// holds every car, whatever the draws and whatever was accepted before.
pub proof fn step_accepts_the_whole_pool(
    cars: Seq<Car>,
    settings: SubsetCalculationConfig,
    before: Seq<Vec<CarIndex>>,
    pool_before: Set<CarIndex>,
    elapsed_ms: u128,
    after: Seq<Vec<CarIndex>>,
    pool_after: Set<CarIndex>,
    step: SessionStep,
)
    requires
        is_step(cars, settings, before, pool_before, elapsed_ms, after, pool_after, step),
        before.len() < settings.player_count,
        elapsed_ms <= settings.timeout_ms,
        cars.len() <= usize::MAX,
        pool_before.finite(),
        set_in_pool(pool_before, cars.len()),
        settings.lap_count == cars.len(),
        settings.target == crate::sums::pool_total(cars),
        settings.target > 0,
    ensures
        after.len() == before.len() + 1,
        after.drop_last() == before,
        forall|x: CarIndex| x < cars.len() ==> after.last()@.contains(x),
        step == if after.len() >= settings.player_count {
            SessionStep::Complete
        } else {
            SessionStep::Searching
        },
{
    let found = choose|found: Result<Vec<CarIndex>, SubsetError>|
        step_search(cars, settings, before, pool_before, after, pool_after, step, found);
    crate::laws::search_for_the_whole_pool_succeeds(
        cars,
        settings.target,
        pool_before,
        settings.tolerance,
        found,
    );
    lemma_exact_is_within(settings.target, settings.tolerance);
    assert(after.drop_last() =~= before);
}

/// A step with subsets to find and time left, in a session among cars of
/// one lap time that hit the target and are enough for every player, accepts
/// a subset that shares no car with those accepted before.
pub proof fn step_accepts_in_a_uniform_pool(
    cars: Seq<Car>,
    settings: SubsetCalculationConfig,
    before: Seq<Vec<CarIndex>>,
    pool_before: Set<CarIndex>,
    elapsed_ms: u128,
    after: Seq<Vec<CarIndex>>,
    pool_after: Set<CarIndex>,
    step: SessionStep,
    lap_time: u32,
)
    requires
        is_step(cars, settings, before, pool_before, elapsed_ms, after, pool_after, step),
        before.len() < settings.player_count,
        elapsed_ms <= settings.timeout_ms,
        uniform_session(
            cars,
            settings.target,
            settings.lap_count as nat,
            settings.player_count as nat,
            lap_time,
        ),
        apart_so_far(before, pool_before, settings.lap_count as nat),
    ensures
        after.len() == before.len() + 1,
        after.drop_last() == before,
        apart_so_far(after, pool_after, settings.lap_count as nat),
        step == if after.len() >= settings.player_count {
            SessionStep::Complete
        } else {
            SessionStep::Searching
        },
{
    let found = choose|found: Result<Vec<CarIndex>, SubsetError>|
        step_search(cars, settings, before, pool_before, after, pool_after, step, found);
    lemma_uniform_session_search(
        cars,
        settings.target,
        settings.lap_count as nat,
        settings.player_count as nat,
        lap_time,
        before,
        pool_before,
    );
    let subset = found->Ok_0;
    let times = crate::car::lap_times_of(cars, subset@);
    assert forall|i: int| 0 <= i < times.len() implies times[i] == lap_time as int by {
        assert(crate::search::is_left(cars, pool_before, subset@[i]));
    }
    crate::search::lemma_constant_sum(times, lap_time as int);
    lemma_exact_is_within(settings.target, settings.tolerance);
    assert(after.drop_last() =~= before);
    lemma_uniform_session_step(
        cars,
        settings.target,
        settings.lap_count as nat,
        settings.player_count as nat,
        settings.tolerance,
        lap_time,
        before,
        pool_before,
        after,
        pool_after,
    );
}

/// The first step of a session with time left, where more cars are asked for
/// than the pool holds, fails with the error of its search.
pub proof fn step_passes_on_a_search_for_too_many_cars(
    cars: Seq<Car>,
    settings: SubsetCalculationConfig,
    elapsed_ms: u128,
    after: Seq<Vec<CarIndex>>,
    pool_after: Set<CarIndex>,
    step: SessionStep,
)
    requires
        is_step(
            cars,
            settings,
            Seq::<Vec<CarIndex>>::empty(),
            Set::<CarIndex>::empty(),
            elapsed_ms,
            after,
            pool_after,
            step,
        ),
        settings.player_count > 0,
        elapsed_ms <= settings.timeout_ms,
        settings.lap_count > cars.len(),
        cars.len() <= usize::MAX,
    ensures
        step == SessionStep::Failed(
            SubsetError::InsufficientCandidates(settings.lap_count, cars.len() as usize),
        ),
        after == Seq::<Vec<CarIndex>>::empty(),
{
    let before = Seq::<Vec<CarIndex>>::empty();
    let pool_before = Set::<CarIndex>::empty();
    let found = choose|found: Result<Vec<CarIndex>, SubsetError>|
        step_search(cars, settings, before, pool_before, after, pool_after, step, found);
    assert(crate::search::too_few_cars(cars.len(), pool_before.len(), settings.lap_count as nat));
}

/// Finds `player_count` subsets of `lap_count` cars each, every one within
/// `tolerance` of `target`.
///
/// The session is advanced step by step, by the clock of the operating
/// system, until it is complete or fails: `session_from` says how the outcome
/// comes about from the steps, and `is_step` what a step does.
/// A search that fails ends the session with its error. The session gives up
/// with `NotEnoughSuccessfulRuns` once it has run for longer than
/// `timeout_ms` (or than `MIN_TIMEOUT_MS`, if that is more), which is looked
/// at before each search, and after `MAX_ATTEMPTS` searches. It never returns
/// fewer subsets than asked for.
///
/// The clock and the draws decide between success and failure wherever
/// success is possible, so the contract states what holds of either outcome,
/// and on which inputs failure is certain. Where the first search is bound to
/// fail, the session ends with the error of that search, unless the time was
/// up before it. Where all the cars have one lap time that hits the target
/// and every player can have cars of their own, no search fails, and the
/// subsets share no car.
pub fn perform_multiple_runs(
    global_cars: &[Car],
    target: u32,
    lap_count: usize,
    player_count: usize,
    timeout_ms: u64,
    tolerance: Tolerance,
) -> (outcome: Result<Vec<Vec<CarIndex>>, SubsetError>)
    requires
        search_sums_fit(global_cars@, lap_count as nat),
    ensures
        session_from(
            global_cars@,
            session_settings(target, lap_count, player_count, timeout_ms, tolerance),
            Seq::<Vec<CarIndex>>::empty(),
            Set::<CarIndex>::empty(),
            MAX_ATTEMPTS as nat,
            outcome,
        ),
        outcome matches Ok(subsets) ==> {
            &&& subsets@.len() == player_count
            &&& forall|i: int|
                0 <= i < subsets@.len() ==> is_accepted(
                    global_cars@,
                    (#[trigger] subsets@[i])@,
                    target,
                    lap_count as nat,
                    tolerance,
                )
        },
        outcome matches Err(error) ==> is_session_error(
            global_cars@,
            target,
            lap_count as nat,
            player_count as nat,
            error,
        ),
        player_count == 0 ==> outcome is Ok,
        player_count > 0 && (target == 0 || lap_count > global_cars@.len()) ==> outcome is Err,
        player_count > 0 && lap_count > global_cars@.len() ==> (outcome matches Err(error) && (
        error == SubsetError::InsufficientCandidates(lap_count, global_cars@.len() as usize)
            || error == (SubsetError::NotEnoughSuccessfulRuns {
            required: player_count,
            found: 0,
        }))),
        player_count > 0 && out_of_reach(global_cars@, 0, target, lap_count as nat) ==> (
        outcome matches Err(error) && (error == (SubsetError::TargetUnreachable {
            target,
            current_sum: 0,
            min_possible: feasible_min(global_cars@, lap_count as nat) as u32,
            max_possible: feasible_max(global_cars@, lap_count as nat) as u32,
        }) || error == (SubsetError::NotEnoughSuccessfulRuns {
            required: player_count,
            found: 0,
        }))),
        forall|lap_time: u32| #[trigger]
            uniform_session(
                global_cars@,
                target,
                lap_count as nat,
                player_count as nat,
                lap_time,
            ) ==> match outcome {
                Ok(subsets) => share_no_car(subsets@),
                Err(error) => error is NotEnoughSuccessfulRuns,
            },
{
    let start_time = instant_now();
    let mut session = RunSession::new(
        SubsetCalculationConfig { target, lap_count, player_count, timeout_ms, tolerance },
    );
    let ghost doomed = player_count > 0 && (lap_count > global_cars@.len() || out_of_reach(
        global_cars@,
        0,
        target,
        lap_count as nat,
    ));
    let mut attempts_left: u64 = MAX_ATTEMPTS;
    let ghost settings = session_settings(target, lap_count, player_count, timeout_ms, tolerance);
    proof {
        assert(session.previously_selected@.len() == 0);
        assert(0 * (lap_count as nat) == 0) by (nonlinear_arith);
    }
    loop
        invariant
            search_sums_fit(global_cars@, lap_count as nat),
            session.wf(global_cars@),
            settings == session_settings(target, lap_count, player_count, timeout_ms, tolerance),
            session.settings() == settings,
            forall|outcome: Result<Vec<Vec<CarIndex>>, SubsetError>| #[trigger]
                session_from(
                    global_cars@,
                    settings,
                    session.results@,
                    session.previously_selected@,
                    attempts_left as nat,
                    outcome,
                ) ==> session_from(
                    global_cars@,
                    settings,
                    Seq::<Vec<CarIndex>>::empty(),
                    Set::<CarIndex>::empty(),
                    MAX_ATTEMPTS as nat,
                    outcome,
                ),
            session.target == target,
            session.lap_count == lap_count,
            session.player_count == player_count,
            session.tolerance == tolerance,
            doomed == (player_count > 0 && (lap_count > global_cars@.len() || out_of_reach(
                global_cars@,
                0,
                target,
                lap_count as nat,
            ))),
            doomed ==> session.results@.len() == 0,
            forall|t: u32| #[trigger]
                uniform_session(global_cars@, target, lap_count as nat, player_count as nat, t)
                    ==> apart_so_far(
                    session.results@,
                    session.previously_selected@,
                    lap_count as nat,
                ),
        decreases attempts_left,
    {
        let ghost before = session.results@;
        let ghost pool_before = session.previously_selected@;
        let elapsed_ms = elapsed_millis(&start_time);
        let step = session.step(global_cars, elapsed_ms);
        let ghost after = session.results@;
        let ghost pool_after = session.previously_selected@;
        proof {
            assert(is_step(
                global_cars@,
                settings,
                before,
                pool_before,
                elapsed_ms,
                after,
                pool_after,
                step,
            ));
            if before.len() == 0 {
                assert(pool_before.len() == 0);
            }
            if session.results@.len() > before.len() {
                lemma_subset_fits_pool(session.results@.last()@, global_cars@.len());
            }
            assert forall|t: u32| #[trigger]
                uniform_session(
                    global_cars@,
                    target,
                    lap_count as nat,
                    player_count as nat,
                    t,
                ) implies apart_so_far(
                session.results@,
                session.previously_selected@,
                lap_count as nat,
            ) && !(step matches SessionStep::Failed(error) && !(error is NotEnoughSuccessfulRuns)) by {
                if before.len() < player_count {
                    lemma_uniform_session_search(
                        global_cars@,
                        target,
                        lap_count as nat,
                        player_count as nat,
                        t,
                        before,
                        pool_before,
                    );
                    if session.results@.len() > before.len() {
                        assert(session.results@.drop_last() =~= before);
                        lemma_uniform_session_step(
                            global_cars@,
                            target,
                            lap_count as nat,
                            player_count as nat,
                            tolerance,
                            t,
                            before,
                            pool_before,
                            session.results@,
                            session.previously_selected@,
                        );
                    }
                }
            }
        }
        match step {
            SessionStep::Complete => {
                proof {
                    if player_count > 0 {
                        lemma_subset_fits_pool(session.results@[0]@, global_cars@.len());
                    }
                }
                let subsets = session.into_results();
                proof {
                    assert(session_from(
                        global_cars@,
                        settings,
                        before,
                        pool_before,
                        attempts_left as nat,
                        Ok::<Vec<Vec<CarIndex>>, SubsetError>(subsets),
                    ));
                }
                return Ok(subsets);
            },
            SessionStep::Failed(error) => {
                proof {
                    assert(session_from(
                        global_cars@,
                        settings,
                        before,
                        pool_before,
                        attempts_left as nat,
                        Err::<Vec<Vec<CarIndex>>, SubsetError>(error),
                    ));
                }
                return Err(error);
            },
            SessionStep::Searching => {
                if attempts_left == 0 {
                    let error = SubsetError::NotEnoughSuccessfulRuns {
                        required: player_count,
                        found: session.accepted_count(),
                    };
                    proof {
                        assert(session_from(
                            global_cars@,
                            settings,
                            before,
                            pool_before,
                            attempts_left as nat,
                            Err::<Vec<Vec<CarIndex>>, SubsetError>(error),
                        ));
                    }
                    return Err(error);
                }
                let ghost attempts_before = attempts_left as nat;
                attempts_left = attempts_left - 1;
                proof {
                    lemma_session_from_step(
                        global_cars@,
                        settings,
                        before,
                        pool_before,
                        attempts_before,
                        elapsed_ms,
                        after,
                        pool_after,
                    );
                    assert forall|outcome: Result<Vec<Vec<CarIndex>>, SubsetError>| #[trigger]
                        session_from(
                            global_cars@,
                            settings,
                            after,
                            pool_after,
                            attempts_left as nat,
                            outcome,
                        ) implies session_from(
                        global_cars@,
                        settings,
                        Seq::<Vec<CarIndex>>::empty(),
                        Set::<CarIndex>::empty(),
                        MAX_ATTEMPTS as nat,
                        outcome,
                    ) by {
                        assert(session_from(
                            global_cars@,
                            settings,
                            after,
                            pool_after,
                            (attempts_before - 1) as nat,
                            outcome,
                        ));
                        assert(session_from(
                            global_cars@,
                            settings,
                            before,
                            pool_before,
                            attempts_before,
                            outcome,
                        ));
                    }
                }
            },
        }
    }
}

} // verus!
