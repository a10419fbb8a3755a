use random_karma::{
    index_set, jaccard_ratio, pair_overlap, pairwise_overlaps, NotComputable, PairOverlap,
};
use std::collections::HashSet;

fn average_similarity(results: &[Vec<usize>]) -> Result<f64, NotComputable> {
    let pairs = pairwise_overlaps(results)?;
    let total: f64 = pairs
        .iter()
        .map(|p| {
            let (shared, combined) = jaccard_ratio(p);
            shared as f64 / combined as f64
        })
        .sum();
    Ok(total / pairs.len() as f64)
}

#[test]
fn identical_subsets_have_similarity_one() {
    let results = vec![vec![0, 1, 2], vec![0, 1, 2]];
    assert_eq!(
        pairwise_overlaps(&results),
        Ok(vec![PairOverlap { first: 0, second: 1, shared: 3, combined: 3 }])
    );
    assert_eq!(average_similarity(&results), Ok(1.0));
    assert_eq!(average_similarity(&[vec![2, 0, 1], vec![1, 2, 0]]), Ok(1.0));
}

#[test]
fn disjoint_subsets_have_similarity_zero() {
    let results = vec![vec![0, 1], vec![2, 3]];
    assert_eq!(
        pairwise_overlaps(&results),
        Ok(vec![PairOverlap { first: 0, second: 1, shared: 0, combined: 4 }])
    );
    assert_eq!(average_similarity(&results), Ok(0.0));
}

#[test]
fn similarity_is_the_average_over_all_pairs() {
    let results = vec![vec![0, 1, 2], vec![1, 2, 3], vec![4, 5, 6]];
    assert_eq!(
        pairwise_overlaps(&results),
        Ok(vec![
            PairOverlap { first: 0, second: 1, shared: 2, combined: 4 },
            PairOverlap { first: 0, second: 2, shared: 0, combined: 6 },
            PairOverlap { first: 1, second: 2, shared: 0, combined: 6 },
        ])
    );
    assert_eq!(average_similarity(&results), Ok(0.5 / 3.0));
}

#[test]
fn similarity_needs_two_subsets() {
    assert_eq!(pairwise_overlaps(&[]), Err(NotComputable));
    assert_eq!(pairwise_overlaps(&[vec![0, 1, 2]]), Err(NotComputable));
    assert_eq!(average_similarity(&[vec![0, 1, 2]]), Err(NotComputable));
}

#[test]
fn a_car_counts_once_in_a_subset() {
    let results = vec![vec![0, 0, 1], vec![1, 1, 1, 2]];
    assert_eq!(
        pairwise_overlaps(&results),
        Ok(vec![PairOverlap { first: 0, second: 1, shared: 1, combined: 3 }])
    );
    let a: HashSet<usize> = index_set(&[0, 0, 1]);
    let b: HashSet<usize> = index_set(&[1, 1, 1, 2]);
    assert_eq!(a.len(), 2);
    assert_eq!(pair_overlap(&a, &b), (1, 3));
    assert_eq!(pair_overlap(&a, &a), (2, 2));
    assert_eq!(pair_overlap(&HashSet::new(), &b), (0, 2));
    assert_eq!(pair_overlap(&HashSet::new(), &HashSet::new()), (0, 0));
}

#[test]
fn empty_subsets_count_as_identical() {
    assert_eq!(
        pairwise_overlaps(&[vec![], vec![]]),
        Ok(vec![PairOverlap { first: 0, second: 1, shared: 0, combined: 0 }])
    );
    assert_eq!(jaccard_ratio(&PairOverlap { first: 0, second: 1, shared: 0, combined: 0 }), (1, 1));
    assert_eq!(jaccard_ratio(&PairOverlap { first: 0, second: 1, shared: 0, combined: 4 }), (0, 4));
    assert_eq!(jaccard_ratio(&PairOverlap { first: 0, second: 1, shared: 2, combined: 3 }), (2, 3));
    assert_eq!(average_similarity(&[vec![], vec![]]), Ok(1.0));
    assert_eq!(average_similarity(&[vec![], vec![], vec![1]]), Ok(1.0 / 3.0));
    let mixed = average_similarity(&[vec![0, 1], vec![1, 2], vec![], vec![]]).unwrap();
    assert!((0.0..=1.0).contains(&mixed));
}
