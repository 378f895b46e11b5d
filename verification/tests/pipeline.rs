//! Group aggregation and the end-to-end mutation pipeline.

use uamutations::matrix::Matrix;
use uamutations::{aggregate_to_groups, uamutate, MutError};

const S: i64 = 1_000_000;

fn row(vals: &[i64]) -> Vec<i64> {
    vals.iter().map(|v| v * S).collect()
}

#[test]
fn test_aggregate_group_means() {
    let dists = row(&[4, 12, 6, 5]);
    let groups: Vec<usize> = vec![1, 1, 2, 2];
    let sums = aggregate_to_groups(&dists, &groups).unwrap();
    // Group 1 mean 8.0, group 2 mean 5.5.
    assert_eq!(sums, vec![8 * S, 5_500_000]);
}

#[test]
fn test_aggregate_empty_group_is_zero() {
    let dists = row(&[4, 12, 6, 5]);
    let groups: Vec<usize> = vec![1, 1, 3, 3];
    let sums = aggregate_to_groups(&dists, &groups).unwrap();
    assert_eq!(sums, vec![8 * S, 0, 5_500_000]);
}

#[test]
fn test_aggregate_length_mismatch() {
    let dists = row(&[4, 12]);
    let groups: Vec<usize> = vec![1];
    assert_eq!(
        aggregate_to_groups(&dists, &groups),
        Err(MutError::DimensionMismatch)
    );
}

#[test]
fn test_aggregate_empty_input() {
    let dists: Vec<i64> = Vec::new();
    let groups: Vec<usize> = Vec::new();
    assert_eq!(
        aggregate_to_groups(&dists, &groups),
        Err(MutError::EmptyInput)
    );
}

#[test]
fn test_aggregate_group_id_out_of_range() {
    let dists = row(&[4]);
    let groups: Vec<usize> = vec![0x10_0000];
    assert_eq!(
        aggregate_to_groups(&dists, &groups),
        Err(MutError::OutOfRange)
    );
}

#[test]
fn test_uamutate_no_auxiliaries() {
    // Two 10-record populations that differ only in the primary
    // variable's distribution: the target is exactly double the
    // source, so every observation's relative mutation is 1.0.
    let v1: Vec<i64> = (1..=10).map(|k| k * S).collect();
    let v2: Vec<i64> = (1..=10).map(|k| 2 * k * S).collect();
    let m1 = Matrix::new(vec![v1]).unwrap();
    let m2 = Matrix::new(vec![v2]).unwrap();
    let groups: Vec<usize> = (1..=10).collect();
    let sums = uamutate(&m1, &m2, &groups).unwrap();
    // One relative-mutation value per record, in original input order.
    assert_eq!(sums, vec![S; 10]);
}

#[test]
fn test_uamutate_grouped_means() {
    let m1 = Matrix::new(vec![row(&[1, 2, 4, 5])]).unwrap();
    let m2 = Matrix::new(vec![row(&[7, 9, 3, 2])]).unwrap();
    let groups: Vec<usize> = vec![1, 1, 2, 2];
    let sums = uamutate(&m1, &m2, &groups).unwrap();
    // The relative distances are [1.0, 0.5, 0.75, 0.8]; group means
    // are 0.75 and 0.775.
    assert_eq!(sums, vec![750_000, 775_000]);
}

#[test]
fn test_uamutate_with_auxiliaries() {
    let m1 = Matrix::new(vec![
        row(&[1, 2, 3, 4, 5]),
        row(&[2, 3, 4, 5, 7]),
    ])
    .unwrap();
    let m2 = Matrix::new(vec![
        row(&[2, 3, 4, 5, 6]),
        row(&[3, 4, 5, 7, 8]),
    ])
    .unwrap();
    let groups: Vec<usize> = vec![1, 1, 2, 2, 2];
    let sums = uamutate(&m1, &m2, &groups).unwrap();
    // With auxiliary variables the primary row is first replaced by the
    // regression adjustment; the output still has one mean per group.
    assert_eq!(sums.len(), 2);
}

#[test]
fn test_uamutate_dimension_mismatch() {
    let m1 = Matrix::new(vec![row(&[1, 2])]).unwrap();
    let m2 = Matrix::new(vec![row(&[1, 2, 3])]).unwrap();
    let groups: Vec<usize> = vec![1, 1];
    assert_eq!(uamutate(&m1, &m2, &groups), Err(MutError::DimensionMismatch));
}

#[test]
fn test_uamutate_empty_input() {
    let m1 = Matrix::new(Vec::new()).unwrap();
    let m2 = Matrix::new(Vec::new()).unwrap();
    let groups: Vec<usize> = Vec::new();
    assert_eq!(uamutate(&m1, &m2, &groups), Err(MutError::EmptyInput));
}

#[test]
fn test_matrix_rejects_out_of_range_value() {
    let r = Matrix::new(vec![vec![0x2000_0000_0001]]);
    assert_eq!(r.err(), Some(MutError::OutOfRange));
}

#[test]
fn test_matrix_rejects_ragged_rows() {
    let r = Matrix::new(vec![vec![1, 2], vec![3]]);
    assert_eq!(r.err(), Some(MutError::DimensionMismatch));
}

#[test]
fn test_uamutate_constant_auxiliary_fails() {
    // A constant auxiliary variable has zero pooled variance, so the
    // regression adjustment cannot standardize it.
    let m1 = Matrix::new(vec![row(&[1, 2, 3]), row(&[5, 5, 5])]).unwrap();
    let m2 = Matrix::new(vec![row(&[2, 3, 4]), row(&[5, 5, 5])]).unwrap();
    let groups: Vec<usize> = vec![1, 1, 1];
    assert_eq!(uamutate(&m1, &m2, &groups), Err(MutError::Numerical));
}
