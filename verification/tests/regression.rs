//! Standardization, least-squares coefficients, the dependency swap,
//! and the small per-variable statistics.

use uamutations::matrix::Matrix;
use uamutations::MutError;

const S: i64 = 1_000_000;

fn fx(v: f64) -> i64 {
    (v * 1_000_000.0).round() as i64
}

fn frow(vals: &[f64]) -> Vec<i64> {
    vals.iter().map(|v| fx(*v)).collect()
}

#[test]
fn test_mlr_beta_2_variables() {
    let data_2 = Matrix::new(vec![
        frow(&[1.0, 2.0, 3.0, 4.0, 5.0]),
        frow(&[2.1, 3.2, 4.1, 5.2, 5.9]),
    ])
    .unwrap();
    let result_2 = uamutations::mlr::mlr_beta(&data_2).unwrap();
    assert_eq!(result_2.len(), 1);
}

#[test]
fn test_mlr_beta_3_variables() {
    let data_3 = Matrix::new(vec![
        frow(&[1.0, 2.0, 3.0, 4.0, 5.0]),
        frow(&[2.1, 3.2, 4.1, 5.2, 5.9]),
        frow(&[3.0, 4.1, 4.9, 6.0, 7.1]),
    ])
    .unwrap();
    let result_3 = uamutations::mlr::mlr_beta(&data_3).unwrap();
    assert_eq!(result_3.len(), 2);
}

#[test]
fn test_mlr_beta_simple_ratio() {
    // One auxiliary variable: the coefficient is the exact dot-product
    // ratio sum(x*y) / sum(x*x), here 2 exactly.
    let data = Matrix::new(vec![frow(&[2.0, 4.0, 6.0]), frow(&[1.0, 2.0, 3.0])]).unwrap();
    let beta = uamutations::mlr::mlr_beta(&data).unwrap();
    assert_eq!(beta, vec![2 * S]);
}

#[test]
fn test_mlr_beta_singular_system() {
    // Proportional auxiliary rows make the normal equations singular.
    let data = Matrix::new(vec![
        frow(&[1.0, 2.0, 3.0]),
        frow(&[1.0, 2.0, 1.0]),
        frow(&[2.0, 4.0, 2.0]),
    ])
    .unwrap();
    let r = uamutations::mlr::mlr_beta(&data);
    assert_eq!(r, Err(MutError::Numerical));
}

#[test]
fn test_mlr_beta_too_few_rows() {
    let data = Matrix::new(vec![frow(&[1.0, 2.0, 3.0])]).unwrap();
    assert_eq!(uamutations::mlr::mlr_beta(&data), Err(MutError::EmptyInput));
}

#[test]
fn test_adj_for_beta() {
    let mut v1 = Matrix::new(vec![
        frow(&[1.0, 2.0, 3.0, 4.0, 5.0]),
        frow(&[2.1, 3.2, 4.1, 5.2, 5.9]),
    ])
    .unwrap();
    let v1_orig = v1.clone();
    let v2 = Matrix::new(vec![
        frow(&[1.0, 2.0, 3.0, 4.0, 5.0]),
        frow(&[3.1, 4.3, 5.3, 6.5, 7.3]),
    ])
    .unwrap();
    uamutations::mlr::adj_for_beta(&mut v1, &v2).unwrap();
    assert_ne!(
        v1.rows, v1_orig.rows,
        "v1 should be different from v1_orig after adj_for_beta"
    );
    assert_eq!(
        v1.rows[1..],
        v1_orig.rows[1..],
        "Only the first row of v1 should be different"
    );
}

#[test]
fn test_standardise_arrays() {
    let values1 = Matrix::new(vec![
        frow(&[1.0, 2.0, 3.0, 4.0, 5.0]),
        frow(&[2.1, 3.2, 4.1, 5.2, 5.9]),
    ])
    .unwrap();
    let values2 = Matrix::new(vec![
        frow(&[1.0, 2.0, 3.0, 4.0, 5.0]),
        frow(&[3.1, 4.3, 5.3, 6.5, 7.3]),
    ])
    .unwrap();
    let mut values1_std = values1.clone();
    let mut values2_std = values2.clone();

    uamutations::mlr::standardise_arrays(&mut values1_std, &mut values2_std).unwrap();

    // Standardising should reduce both mean values and standard
    // deviations of all variables.
    let mean = |r: &Vec<i64>| -> f64 {
        r.iter().map(|v| *v as f64 / S as f64).sum::<f64>() / r.len() as f64
    };
    let sd = |r: &Vec<i64>| -> f64 {
        let m = mean(r);
        let ss: f64 = r
            .iter()
            .map(|v| {
                let x = *v as f64 / S as f64 - m;
                x * x
            })
            .sum();
        (ss / (r.len() as f64 - 1.0)).sqrt()
    };
    for i in 0..values1.rows.len() {
        assert!(mean(&values1_std.rows[i]).abs() < mean(&values1.rows[i]).abs());
        assert!(mean(&values2_std.rows[i]).abs() < mean(&values2.rows[i]).abs());
        assert!(sd(&values1_std.rows[i]).abs() < sd(&values1.rows[i]).abs());
        assert!(sd(&values2_std.rows[i]).abs() < sd(&values2.rows[i]).abs());
    }
}

#[test]
fn test_standardise_zero_variance() {
    // A constant variable has no deviation to scale by.
    let mut m1 = Matrix::new(vec![frow(&[2.0, 2.0, 2.0])]).unwrap();
    let mut m2 = Matrix::new(vec![frow(&[2.0, 2.0, 2.0])]).unwrap();
    let r = uamutations::mlr::standardise_arrays(&mut m1, &mut m2);
    assert_eq!(r, Err(MutError::Numerical));
    // The matrices are untouched on failure.
    assert_eq!(m1.rows, vec![frow(&[2.0, 2.0, 2.0])]);
}

#[test]
fn test_standardise_exact_values() {
    // Both rows [1..5]: pooled mean 3, pooled sd sqrt(2); each value
    // becomes (x - 3) / sqrt(2), truncated in fixed point.
    let mut m1 = Matrix::new(vec![frow(&[1.0, 2.0, 3.0, 4.0, 5.0])]).unwrap();
    let mut m2 = Matrix::new(vec![frow(&[1.0, 2.0, 3.0, 4.0, 5.0])]).unwrap();
    uamutations::mlr::standardise_arrays(&mut m1, &mut m2).unwrap();
    let expected = vec![-1_414_214, -707_107, 0, 707_107, 1_414_214];
    assert_eq!(m1.rows[0], expected);
    assert_eq!(m2.rows[0], expected);
}

#[test]
fn test_mean_sd_column_exact() {
    let col = frow(&[1.0, 2.0, 3.0, 4.0, 5.0]);
    let (mean, sd) = uamutations::utils::mean_sd_column(&col).unwrap();
    assert_eq!(mean, 3 * S);
    // The sample deviation is sqrt(2.5) = 1.5811388..., truncated.
    assert_eq!(sd, 1_581_138);
}

#[test]
fn test_mean_sd_dmat_matches_column() {
    let m = Matrix::new(vec![frow(&[1.0, 2.0, 3.0, 4.0, 5.0]), frow(&[9.0, 9.0, 9.0, 9.0, 9.0])])
        .unwrap();
    let (mean, sd) = uamutations::utils::mean_sd_dmat(&m).unwrap();
    assert_eq!((mean, sd), (3 * S, 1_581_138));
}

#[test]
fn test_mean_sd_column_single_value() {
    let col = frow(&[4.0]);
    assert_eq!(
        uamutations::utils::mean_sd_column(&col),
        Err(MutError::Numerical)
    );
}

#[test]
fn test_transform_values_bike_index() {
    let m = Matrix::new(vec![frow(&[0.2, 0.4]), frow(&[7.0, 8.0])]).unwrap();
    let t = uamutations::transform::transform_values(&m, "bike_index").unwrap();
    assert_eq!(t.rows[0], frow(&[0.8, 0.6]));
    assert_eq!(t.rows[1], m.rows[1]);
}

#[test]
fn test_transform_values_other_name() {
    let m = Matrix::new(vec![frow(&[0.2, 0.4])]).unwrap();
    let t = uamutations::transform::transform_values(&m, "transport").unwrap();
    assert_eq!(t.rows, m.rows);
}

#[test]
fn test_standardise_centres_pooled_values() {
    // Pooled over both rows, the standardized values sum to nearly
    // nothing: mean 4, sd ~2.58 pooled over [1,2,4] and [3,5,9].
    let mut m1 = Matrix::new(vec![frow(&[1.0, 2.0, 4.0])]).unwrap();
    let mut m2 = Matrix::new(vec![frow(&[3.0, 5.0, 9.0])]).unwrap();
    uamutations::mlr::standardise_arrays(&mut m1, &mut m2).unwrap();
    assert_eq!(m1.rows[0], vec![-1_161_895, -774_596, 0]);
    assert_eq!(m2.rows[0], vec![-387_298, 387_298, 1_936_492]);
    let total: i64 = m1.rows[0].iter().chain(m2.rows[0].iter()).sum();
    assert!(total.abs() <= 8);
}
