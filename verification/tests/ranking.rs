//! Ranking permutations: stable sorts, their inverses, and the
//! historical single-flag entry point.

use uamutations::calculate_dists::get_ordering_index;

const S: i64 = 1_000_000;

#[test]
fn calculate_dists_test_get_ordering_index() {
    let vals = vec![1 * S, -2 * S, 3 * S, -4 * S, 5 * S];
    // Indices of vals in ascending order, and the inverse permutation.
    let expected_sort = vec![3, 1, 0, 2, 4];
    let expected_reorder = vec![2, 1, 3, 0, 4];
    let oi = get_ordering_index(&vals, false, false);
    assert_eq!(oi.index_sort, expected_sort);
    assert_eq!(oi.index_reorder, expected_reorder);
}

#[test]
fn calculate_dists_test_get_ordering_index_abs() {
    let vals = vec![1 * S, -2 * S, 3 * S, -4 * S, 5 * S];
    // Indices of the magnitudes in ascending order.
    let expected_sort = vec![0, 1, 2, 3, 4];
    let expected_reorder = vec![0, 1, 2, 3, 4];
    let oi = get_ordering_index(&vals, false, true);
    assert_eq!(oi.index_sort, expected_sort);
    assert_eq!(oi.index_reorder, expected_reorder);
}

#[test]
fn vector_fns_test_get_ordering_index() {
    let vals = vec![1 * S, -2 * S, 3 * S, -4 * S, 5 * S];
    let mut expected = vec![3, 1, 0, 2, 4];
    assert_eq!(
        uamutations::vector_fns::get_ordering_index(&vals, false, false),
        expected
    );
    expected.reverse();
    assert_eq!(
        uamutations::vector_fns::get_ordering_index(&vals, true, false),
        expected
    );
}

#[test]
fn vector_fns_test_get_ordering_index_abs() {
    let vals = vec![1 * S, -2 * S, 3 * S, -4 * S, 5 * S];
    let mut expected = vec![0, 1, 2, 3, 4];
    assert_eq!(
        uamutations::vector_fns::get_ordering_index(&vals, false, true),
        expected
    );
    expected.reverse();
    assert_eq!(
        uamutations::vector_fns::get_ordering_index(&vals, true, true),
        expected
    );
}

#[test]
fn test_ordering_is_stable_on_ties() {
    let vals = vec![2 * S, 1 * S, 2 * S, 1 * S];
    // Equal values keep their original relative order.
    let oi = get_ordering_index(&vals, false, false);
    assert_eq!(oi.index_sort, vec![1, 3, 0, 2]);
    assert_eq!(oi.index_reorder, vec![2, 0, 3, 1]);
}

#[test]
fn test_ordering_roundtrip_restores_positions() {
    let vals = vec![9 * S, -7 * S, 0, 3 * S, 3 * S, -7 * S];
    let oi = get_ordering_index(&vals, false, false);
    // The two permutations are inverse to one another.
    for j in 0..vals.len() {
        assert_eq!(oi.index_sort[oi.index_reorder[j]], j);
        assert_eq!(oi.index_reorder[oi.index_sort[j]], j);
    }
    // Reading the values through index_sort yields them in ascending order.
    for p in 1..vals.len() {
        assert!(vals[oi.index_sort[p - 1]] <= vals[oi.index_sort[p]]);
    }
}

#[test]
fn test_sort_fns_descending() {
    let vals = vec![1 * S, -2 * S, 3 * S, -4 * S, 5 * S];
    assert_eq!(
        uamutations::sort_fns::get_ordering_index(&vals, false),
        vec![4, 2, 0, 1, 3]
    );
    assert_eq!(
        uamutations::sort_fns::get_ordering_index(&vals, true),
        vec![4, 3, 2, 1, 0]
    );
}
