//! The two assignment strategies: the order-preserving
//! minimum-distance engine and the greedy multi-dimensional variant.

use uamutations::matrix::Matrix;
use uamutations::MutError;

const S: i64 = 1_000_000;

fn row(vals: &[i64]) -> Vec<i64> {
    vals.iter().map(|v| v * S).collect()
}

#[test]
fn calculate_dists_test_calculate_dists_absolute() {
    // Note that 2.0 is closest to 2.0, but is matched to 3.0 because of
    // sequential and unique matching.
    let values1 = Matrix::new(vec![row(&[1, 2, 4, 5])]).unwrap();
    let values2 = Matrix::new(vec![row(&[7, 9, 3, 2])]).unwrap();
    let result = uamutations::calculate_dists::calculate_dists(&values1, &values2, true).unwrap();
    assert_eq!(result, row(&[1, 1, 3, 4]));
}

#[test]
fn calculate_dists_test_calculate_dists_relative() {
    let values1 = Matrix::new(vec![row(&[1, 2, 4, 5])]).unwrap();
    let values2 = Matrix::new(vec![row(&[7, 9, 3, 2])]).unwrap();
    let result = uamutations::calculate_dists::calculate_dists(&values1, &values2, false).unwrap();
    assert_eq!(result, vec![1_000_000, 500_000, 750_000, 800_000]);
}

#[test]
fn vector_fns_test_calculate_dists_absolute() {
    let values1 = Matrix::new(vec![row(&[1, 2, 4, 5])]).unwrap();
    let values2 = Matrix::new(vec![row(&[7, 9, 3, 2])]).unwrap();
    let result = uamutations::vector_fns::calculate_dists(&values1, &values2, true).unwrap();
    assert_eq!(result, row(&[1, 1, 3, 4]));
}

#[test]
fn vector_fns_test_calculate_dists_relative() {
    let values1 = Matrix::new(vec![row(&[1, 2, 4, 5])]).unwrap();
    let values2 = Matrix::new(vec![row(&[7, 9, 3, 2])]).unwrap();
    let result = uamutations::vector_fns::calculate_dists(&values1, &values2, false).unwrap();
    assert_eq!(result, vec![1_000_000, 500_000, 750_000, 800_000]);
}

#[test]
fn test_calculate_dists_unsorted_source() {
    // Distances come back in the source's original observation order.
    let values1 = Matrix::new(vec![row(&[5, 1, 3])]).unwrap();
    let values2 = Matrix::new(vec![row(&[10, 0, 6])]).unwrap();
    let result = uamutations::calculate_dists::calculate_dists(&values1, &values2, true).unwrap();
    assert_eq!(result, row(&[5, -1, 3]));
}

#[test]
fn test_calculate_dists_empty_input() {
    let empty = Matrix::new(Vec::new()).unwrap();
    let other = Matrix::new(vec![row(&[1])]).unwrap();
    let r = uamutations::calculate_dists::calculate_dists(&empty, &other, true);
    assert_eq!(r, Err(MutError::EmptyInput));
}

#[test]
fn test_calculate_dists_dimension_mismatch() {
    let values1 = Matrix::new(vec![row(&[1, 2, 3])]).unwrap();
    let values2 = Matrix::new(vec![row(&[1, 2])]).unwrap();
    let r = uamutations::calculate_dists::calculate_dists(&values1, &values2, true);
    assert_eq!(r, Err(MutError::DimensionMismatch));
}

#[test]
fn test_calculate_dists_relative_zero_source() {
    // A zero source value makes the relative quotient undefined.
    let values1 = Matrix::new(vec![row(&[0, 2])]).unwrap();
    let values2 = Matrix::new(vec![row(&[1, 3])]).unwrap();
    let r = uamutations::calculate_dists::calculate_dists(&values1, &values2, false);
    assert_eq!(r, Err(MutError::Numerical));
}

#[test]
fn test_order_vectors_two_dimensional() {
    // Source observation columns are (1,0), (4,0); targets (5,0), (2,0).
    // Visiting 1 first, it claims the nearer target (2,0).
    let values1 = Matrix::new(vec![row(&[1, 4]), row(&[0, 0])]).unwrap();
    let values2 = Matrix::new(vec![row(&[5, 2]), row(&[0, 0])]).unwrap();
    let mapping = uamutations::vector_fns::order_vectors(&values1, &values2).unwrap();
    assert_eq!(mapping, vec![1, 0]);
}

#[test]
fn test_squared_euclidean_exact() {
    let p1 = row(&[1, 2]);
    let p2 = row(&[4, 6]);
    // (3^2 + 4^2) = 25 square units, in squared fixed-point units.
    let expected: i128 = 25 * (S as i128) * (S as i128);
    assert_eq!(uamutations::vector_fns::squared_euclidean(&p1, &p2), expected);
}

#[test]
fn test_greedy_matches_use_each_target_once() {
    let values1 = Matrix::new(vec![row(&[3, 3, 3, 3])]).unwrap();
    let values2 = Matrix::new(vec![row(&[3, 3, 3, 3])]).unwrap();
    let mut mapping = uamutations::vector_fns::order_vectors(&values1, &values2).unwrap();
    mapping.sort();
    assert_eq!(mapping, vec![0, 1, 2, 3]);
}

#[test]
fn test_assignment_cost_is_minimal_on_example() {
    // The order-preserving pairing of sorted [1, 2] with sorted [0, 10]
    // costs |1-0| + |2-10| = 9; the only other (crossing) pairing
    // would cost |1-10| + |2-0| = 11.
    let values1 = Matrix::new(vec![row(&[1, 2])]).unwrap();
    let values2 = Matrix::new(vec![row(&[10, 0])]).unwrap();
    let result = uamutations::calculate_dists::calculate_dists(&values1, &values2, true).unwrap();
    assert_eq!(result, row(&[-1, 8]));
    let produced: i64 = result.iter().map(|d| d.abs()).sum();
    let crossing = 9 * S + 2 * S;
    assert!(produced < crossing);
}
