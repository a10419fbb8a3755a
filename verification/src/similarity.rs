//! How much the subsets of a session have in common: for every pair of
//! subsets, the size of their intersection and of their union. The Jaccard
//! similarity of a pair is the first divided by the second.

use vstd::prelude::*;
use std::collections::HashSet;
use vstd::set_lib::lemma_set_intersect_union_lens;
use crate::car::CarIndex;
use crate::fallback::{lemma_hash_set_finite, set_members};

verus! {

broadcast use vstd::std_specs::hash::group_hash_axioms;

/// What two subsets have in common.
#[derive(Debug, Clone, Copy, PartialEq, Eq, Structural)]
pub struct PairOverlap {
    /// Position of the first subset of the pair.
    pub first: usize,
    /// Position of the second subset of the pair; it is larger than `first`.
    pub second: usize,
    /// How many cars are in both subsets.
    pub shared: usize,
    /// How many cars are in either subset.
    pub combined: usize,
}

/// There are fewer than two subsets, so there is no pair to compare.
#[derive(Debug, Clone, Copy, PartialEq, Eq, Structural)]
pub struct NotComputable;

/// The overlap of the subsets at `first` and `second`.
pub open spec fn overlap_of(results: Seq<Vec<CarIndex>>, first: int, second: int) -> PairOverlap {
    let a = results[first]@.to_set();
    let b = results[second]@.to_set();
    PairOverlap {
        first: first as usize,
        second: second as usize,
        shared: a.intersect(b).len() as usize,
        combined: a.union(b).len() as usize,
    }
}

/// The overlaps of the subset at `first` with the `count` subsets behind it.
pub open spec fn row_of(results: Seq<Vec<CarIndex>>, first: int, count: int) -> Seq<PairOverlap> {
    Seq::new(count as nat, |k: int| overlap_of(results, first, first + 1 + k))
}

/// The overlaps of all pairs whose first subset stands before `rows`: the
/// pairs of the first subset, then those of the second, and so on.
pub open spec fn rows_before(results: Seq<Vec<CarIndex>>, rows: int) -> Seq<PairOverlap>
    decreases rows,
{
    if rows <= 0 {
        Seq::empty()
    } else {
        rows_before(results, rows - 1) + row_of(results, rows - 1, results.len() - rows)
    }
}

/// The overlaps of all pairs of subsets.
pub open spec fn all_overlaps(results: Seq<Vec<CarIndex>>) -> Seq<PairOverlap> {
    rows_before(results, results.len() as int)
}

/// The Jaccard similarity of a pair as a ratio of whole numbers: the cars
/// shared over the cars held together. Two subsets without any car are taken
/// as identical, which is a ratio of one to one, so the second number is
/// never zero.
pub open spec fn ratio_of(pair: PairOverlap) -> (usize, usize) {
    if pair.combined == 0 {
        (1usize, 1usize)
    } else {
        (pair.shared, pair.combined)
    }
}

/// The similarity of a pair as a ratio with a divisor that is not zero. For
/// a pair that shares no more than it holds, the ratio is at most one.
pub fn jaccard_ratio(pair: &PairOverlap) -> (ratio: (usize, usize))
    ensures
        ratio == ratio_of(*pair),
        ratio.1 > 0,
        pair.shared <= pair.combined ==> ratio.0 <= ratio.1,
{
    if pair.combined == 0 {
        (1, 1)
    } else {
        (pair.shared, pair.combined)
    }
}

/// The cars of a subset as a set.
pub fn index_set(subset: &[CarIndex]) -> (set: HashSet<CarIndex>)
    ensures
        set@ == subset@.to_set(),
{
    let mut set: HashSet<CarIndex> = HashSet::new();
    let mut i: usize = 0;
    assert(subset@.take(0).to_set() =~= Set::<CarIndex>::empty());
    while i < subset.len()
        invariant
            i <= subset@.len(),
            set@ == subset@.take(i as int).to_set(),
        decreases subset@.len() - i,
    {
        set.insert(subset[i]);
        proof {
            let done = subset@.take(i as int);
            assert(subset@.take(i + 1) =~= done.push(subset@[i as int]));
            done.lemma_push_to_set_commute(subset@[i as int]);
        }
        i += 1;
    }
    proof {
        assert(subset@.take(subset@.len() as int) =~= subset@);
    }
    set
}

/// How many cars two sets share, and how many they hold together.
pub fn pair_overlap(a: &HashSet<CarIndex>, b: &HashSet<CarIndex>) -> (counts: (usize, usize))
    requires
        a@.len() + b@.len() <= usize::MAX,
    ensures
        counts.0 == a@.intersect(b@).len(),
        counts.1 == a@.union(b@).len(),
        counts.0 <= counts.1,
{
    proof {
        lemma_hash_set_finite(a);
        lemma_hash_set_finite(b);
    }
    let members = set_members(a);
    let mut shared: usize = 0;
    let mut i: usize = 0;
    assert(members@.take(0).to_set().intersect(b@) =~= Set::<CarIndex>::empty());
    while i < members.len()
        invariant
            i <= members@.len(),
            members@.no_duplicates(),
            b@.finite(),
            shared == members@.take(i as int).to_set().intersect(b@).len(),
            shared <= i,
        decreases members@.len() - i,
    {
        let x = members[i];
        proof {
            let done = members@.take(i as int);
            let next = members@.take(i + 1);
            assert(next =~= done.push(x));
            done.lemma_push_to_set_commute(x);
            vstd::seq_lib::seq_to_set_is_finite(done);
            assert(!done.to_set().contains(x)) by {
                if done.contains(x) {
                    let k = choose|k: int| 0 <= k < done.len() && done[k] == x;
                    assert(members@[k] == members@[i as int]);
                }
            }
            let before = done.to_set().intersect(b@);
            vstd::set_lib::lemma_len_intersect(done.to_set(), b@);
            assert(before.finite());
            if b@.contains(x) {
                assert(next.to_set().intersect(b@) =~= before.insert(x));
            } else {
                assert(next.to_set().intersect(b@) =~= before);
            }
        }
        if b.contains(&x) {
            shared += 1;
        }
        i += 1;
    }
    proof {
        assert(members@.take(members@.len() as int) =~= members@);
        lemma_set_intersect_union_lens(a@, b@);
        vstd::set_lib::lemma_len_intersect(a@, b@);
        vstd::set_lib::lemma_len_intersect(b@, a@);
        assert(a@.intersect(b@) =~= b@.intersect(a@));
    }
    let combined = a.len() + (b.len() - shared);
    (shared, combined)
}

/// Compares every pair of subsets: for each pair, how many cars the two
/// share and how many they hold together, a car counting once in a subset
/// however often it stands in it. The pairs come in the order of their first
/// subset, then of their second. With fewer than two subsets there is no
/// pair, and the result is `NotComputable`.
pub fn pairwise_overlaps(results: &[Vec<CarIndex>]) -> (outcome: Result<
    Vec<PairOverlap>,
    NotComputable,
>)
    requires
        forall|i: int, j: int|
            0 <= i < results@.len() && 0 <= j < results@.len() ==> (#[trigger] results@[i])@.len()
                + (#[trigger] results@[j])@.len() <= usize::MAX,
    ensures
        outcome is Err <==> results@.len() < 2,
        outcome matches Ok(pairs) ==> pairs@ == all_overlaps(results@),
        outcome matches Ok(pairs) ==> forall|k: int|
            0 <= k < pairs@.len() ==> (#[trigger] pairs@[k]).shared <= pairs@[k].combined,
{
    let n = results.len();
    if n < 2 {
        return Err(NotComputable);
    }
    let mut sets: Vec<HashSet<CarIndex>> = Vec::new();
    let mut s: usize = 0;
    while s < n
        invariant
            s <= n,
            n == results@.len(),
            sets@.len() == s,
            forall|k: int| 0 <= k < s ==> (#[trigger] sets@[k])@ == results@[k]@.to_set(),
        decreases n - s,
    {
        sets.push(index_set(results[s].as_slice()));
        s += 1;
    }
    let mut pairs: Vec<PairOverlap> = Vec::new();
    let mut i: usize = 0;
    while i < n
        invariant
            i <= n,
            n == results@.len(),
            sets@.len() == n,
            forall|k: int| 0 <= k < n ==> (#[trigger] sets@[k])@ == results@[k]@.to_set(),
            forall|a: int, b: int|
                0 <= a < results@.len() && 0 <= b < results@.len() ==> (#[trigger] results@[a])@.len()
                    + (#[trigger] results@[b])@.len() <= usize::MAX,
            pairs@ == rows_before(results@, i as int),
            forall|k: int|
                0 <= k < pairs@.len() ==> (#[trigger] pairs@[k]).shared <= pairs@[k].combined,
        decreases n - i,
    {
        let ghost done = pairs@;
        let mut j: usize = i + 1;
        assert(pairs@ =~= done + row_of(results@, i as int, 0));
        while j < n
            invariant
                i < j <= n,
                n == results@.len(),
                sets@.len() == n,
                forall|k: int| 0 <= k < n ==> (#[trigger] sets@[k])@ == results@[k]@.to_set(),
                forall|a: int, b: int|
                    0 <= a < results@.len() && 0 <= b < results@.len() ==> (
                    #[trigger] results@[a])@.len() + (#[trigger] results@[b])@.len() <= usize::MAX,
                pairs@ == done + row_of(results@, i as int, j - i - 1),
                forall|k: int|
                    0 <= k < pairs@.len() ==> (#[trigger] pairs@[k]).shared <= pairs@[k].combined,
            decreases n - j,
        {
            proof {
                let a = results@[i as int]@;
                let b = results@[j as int]@;
                vstd::seq_lib::seq_to_set_is_finite(a);
                vstd::seq_lib::seq_to_set_is_finite(b);
                lemma_set_len_at_most(a);
                lemma_set_len_at_most(b);
            }
            let (shared, combined) = pair_overlap(&sets[i], &sets[j]);
            let ghost before = pairs@;
            pairs.push(PairOverlap { first: i, second: j, shared, combined });
            proof {
                assert(pairs@ =~= done + row_of(results@, i as int, j - i));
            }
            j += 1;
        }
        i += 1;
    }
    Ok(pairs)
}

/// A list holds no more distinct entries than it has entries.
pub proof fn lemma_set_len_at_most(list: Seq<CarIndex>)
    ensures
        list.to_set().len() <= list.len(),
    decreases list.len(),
{
    if list.len() == 0 {
        assert(list.to_set() =~= Set::<CarIndex>::empty());
    } else {
        let front = list.drop_last();
        lemma_set_len_at_most(front);
        assert(list =~= front.push(list.last()));
        front.lemma_push_to_set_commute(list.last());
        vstd::seq_lib::seq_to_set_is_finite(front);
    }
}

/// Two subsets with the same cars share all the cars that they hold: their
/// similarity is one, unless both are empty.
pub proof fn lemma_identical_subsets(results: Seq<Vec<CarIndex>>, first: int, second: int)
    requires
        0 <= first < results.len(),
        0 <= second < results.len(),
        results[first]@.to_set() == results[second]@.to_set(),
        results[first]@.len() <= usize::MAX,
    ensures
        overlap_of(results, first, second).shared == overlap_of(results, first, second).combined,
        overlap_of(results, first, second).shared == results[first]@.to_set().len(),
{
    let a = results[first]@.to_set();
    assert(a.intersect(a) =~= a);
    assert(a.union(a) =~= a);
    lemma_set_len_at_most(results[first]@);
}

/// Two subsets without a common car share nothing: their similarity is zero.
pub proof fn lemma_disjoint_subsets(results: Seq<Vec<CarIndex>>, first: int, second: int)
    requires
        0 <= first < results.len(),
        0 <= second < results.len(),
        forall|x: CarIndex| !(results[first]@.contains(x) && results[second]@.contains(x)),
    ensures
        overlap_of(results, first, second).shared == 0,
{
    let a = results[first]@.to_set();
    let b = results[second]@.to_set();
    assert(a.intersect(b) =~= Set::<CarIndex>::empty());
}

} // verus!
