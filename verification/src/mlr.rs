//! Regression adjustment: pooled standardization, ordinary
//! least-squares coefficients, and the dependency swap.
//!
//! [`standardise_arrays`] puts two matrices onto a common scale per
//! variable.  [`mlr_beta`] fits the primary variable on the auxiliary
//! variables by ordinary least squares, solving the normal equations
//! exactly with integer determinants (Cramer's rule).  [`adj_for_beta`]
//! replaces the source matrix's primary row by the auxiliary values
//! weighted with the difference of the two populations' coefficients.

use vstd::prelude::*;

use crate::fixed::{iabs, is_sqrt, sqrt_of, tdiv, KMAX, NMAX, SCALE, VMAX};
use crate::matrix::{cols_of, mat_wf, Matrix};
use crate::MutError;

verus! {

/// Sum of the first `m` values of a row.
pub open spec fn sum_upto(v: Seq<i64>, m: int) -> int
    decreases m,
{
    if m <= 0 {
        0
    } else {
        sum_upto(v, m - 1) + v[m - 1]
    }
}

/// Sum of the squares of the first `m` values of a row.
pub open spec fn sumsq_upto(v: Seq<i64>, m: int) -> int
    decreases m,
{
    if m <= 0 {
        0
    } else {
        sumsq_upto(v, m - 1) + v[m - 1] * v[m - 1]
    }
}

/// Mean over the observations of one variable pooled across both
/// matrices, with the truncated rounding of fixed-point division.
pub open spec fn pooled_mean(a: Seq<i64>, b: Seq<i64>) -> int {
    tdiv(sum_upto(a, a.len() as int) + sum_upto(b, b.len() as int), a.len() + b.len() as int)
}

/// Pooled population variance (in squared fixed-point units): mean of
/// squares minus square of the mean.
pub open spec fn pooled_var(a: Seq<i64>, b: Seq<i64>) -> int {
    tdiv(sumsq_upto(a, a.len() as int) + sumsq_upto(b, b.len() as int), a.len() + b.len() as int)
        - pooled_mean(a, b) * pooled_mean(a, b)
}

/// Pooled population standard deviation: the integer square root of
/// the pooled variance.
pub open spec fn pooled_sd(a: Seq<i64>, b: Seq<i64>) -> int {
    sqrt_of(pooled_var(a, b))
}

/// One standardized value: `(x - mean) / sd` in fixed point.
pub open spec fn std_val(x: i64, mean: int, sd: int) -> int {
    tdiv((x - mean) * SCALE, sd)
}

/// A variable can be standardized: its pooled variance is positive and
/// every standardized value stays in the fixed-point range.
pub open spec fn row_std_ok(a: Seq<i64>, b: Seq<i64>) -> bool {
    &&& pooled_var(a, b) >= 1
    &&& forall|j: int|
        0 <= j < a.len() ==> iabs(std_val(#[trigger] a[j], pooled_mean(a, b), pooled_sd(a, b)))
            <= VMAX
    &&& forall|j: int|
        0 <= j < b.len() ==> iabs(std_val(#[trigger] b[j], pooled_mean(a, b), pooled_sd(a, b)))
            <= VMAX
}

/// Every variable of the pair of matrices can be standardized.
pub open spec fn std_ok(m1: Seq<Seq<i64>>, m2: Seq<Seq<i64>>) -> bool {
    forall|i: int| 0 <= i < m1.len() ==> #[trigger] row_std_ok(m1[i], m2[i])
}

/// The standardized version of `m`, scaled by the means and deviations
/// pooled with `other`.
pub open spec fn std_mat(m: Seq<Seq<i64>>, other: Seq<Seq<i64>>) -> Seq<Seq<int>> {
    Seq::new(
        m.len(),
        |i: int|
            Seq::new(
                m[i].len(),
                |j: int| std_val(m[i][j], pooled_mean(m[i], other[i]), pooled_sd(m[i], other[i])),
            ),
    )
}

/// Sums a whole row, exactly.
pub(crate) fn row_sum_exec(v: &Vec<i64>) -> (r: i128)
    requires
        v@.len() <= 2 * NMAX,
        crate::calculate_dists::bounded_vals(v@),
    ensures
        r as int == sum_upto(v@, v@.len() as int),
        iabs(r as int) <= v@.len() * VMAX,
{
    let n = v.len();
    let mut acc: i128 = 0;
    let mut m: usize = 0;
    while m < n
        invariant
            m <= n,
            n == v@.len(),
            n <= 2 * NMAX,
            crate::calculate_dists::bounded_vals(v@),
            acc as int == sum_upto(v@, m as int),
            iabs(acc as int) <= m * VMAX,
        decreases n - m,
    {
        acc = acc + (v[m] as i128);
        m += 1;
    }
    acc
}

/// Sums the squares of a whole row, exactly.
pub(crate) fn row_sumsq_exec(v: &Vec<i64>) -> (r: i128)
    requires
        v@.len() <= 2 * NMAX,
        crate::calculate_dists::bounded_vals(v@),
    ensures
        r as int == sumsq_upto(v@, v@.len() as int),
        0 <= r as int <= v@.len() * (VMAX * VMAX),
{
    let n = v.len();
    let mut acc: i128 = 0;
    let mut m: usize = 0;
    while m < n
        invariant
            m <= n,
            n == v@.len(),
            n <= 2 * NMAX,
            crate::calculate_dists::bounded_vals(v@),
            acc as int == sumsq_upto(v@, m as int),
            0 <= acc as int <= m * (VMAX * VMAX),
        decreases n - m,
    {
        let x = v[m] as i128;
        proof {
            assert(iabs(v@[m as int] as int) <= VMAX);
            assert(0 <= x * x <= VMAX * VMAX) by (nonlinear_arith)
                requires
                    iabs(x as int) <= VMAX,
                    0 < VMAX,
            ;
            assert(acc + x * x <= (m + 1) * (VMAX * VMAX)) by (nonlinear_arith)
                requires
                    0 <= acc as int <= m * (VMAX * VMAX),
                    0 <= x * x <= VMAX * VMAX,
            ;
            assert((m + 1) * (VMAX * VMAX) <= (2 * NMAX as int + 1) * (VMAX * VMAX))
                by (nonlinear_arith)
                requires
                    0 <= m + 1 <= 2 * NMAX as int + 1,
                    0 <= VMAX * VMAX,
            ;
            assert((2 * NMAX as int + 1) * (VMAX * VMAX) < i128::MAX) by (nonlinear_arith)
                requires
                    NMAX == 0x10_0000,
                    VMAX == 0x2000_0000_0000,
            ;
        }
        acc = acc + x * x;
        m += 1;
    }
    acc
}

/// The pooled mean and standard deviation of one variable.
///
/// Returns `(mean, sd, ok)`: `ok` is false exactly when the pooled
/// variance is below one fixed-point quantum, the zero-variance case
/// the regression contracts reject.
fn pooled_stats(a: &Vec<i64>, b: &Vec<i64>) -> (r: (i64, i64, bool))
    requires
        a@.len() <= NMAX,
        b@.len() <= NMAX,
        a@.len() + b@.len() > 0,
        crate::calculate_dists::bounded_vals(a@),
        crate::calculate_dists::bounded_vals(b@),
    ensures
        r.2 <==> pooled_var(a@, b@) >= 1,
        r.2 ==> {
            &&& r.0 as int == pooled_mean(a@, b@)
            &&& r.1 as int == pooled_sd(a@, b@)
            &&& 1 <= r.1 as int <= VMAX
            &&& iabs(r.0 as int) <= VMAX
        },
{
    let sa = row_sum_exec(a);
    let sb = row_sum_exec(b);
    let qa = row_sumsq_exec(a);
    let qb = row_sumsq_exec(b);
    let nobs = (a.len() + b.len()) as i128;
    let sum = sa + sb;
    let ssq = qa + qb;
    let mean = crate::fixed::div_i128(sum, nobs);
    proof {
        crate::fixed::lemma_tdiv_bound(sum as int, nobs as int);
        assert(iabs(mean as int) * nobs <= iabs(sum as int));
        assert(iabs(sum as int) <= nobs * VMAX);
        assert(iabs(mean as int) <= VMAX) by (nonlinear_arith)
            requires
                iabs(mean as int) * nobs <= nobs * VMAX,
                nobs >= 1,
                0 <= iabs(mean as int),
        ;
    }
    let msq = crate::fixed::div_i128(ssq, nobs);
    proof {
        crate::fixed::lemma_tdiv_bound(ssq as int, nobs as int);
        assert(iabs(msq as int) * nobs <= iabs(ssq as int));
        assert(iabs(ssq as int) <= nobs * (VMAX * VMAX));
        assert(iabs(msq as int) <= VMAX * VMAX) by (nonlinear_arith)
            requires
                iabs(msq as int) * nobs <= nobs * (VMAX * VMAX),
                nobs >= 1,
                0 <= iabs(msq as int),
        ;
        assert(0 <= mean * mean <= VMAX * VMAX) by (nonlinear_arith)
            requires
                iabs(mean as int) <= VMAX,
                0 < VMAX,
        ;
    }
    let var = msq - mean * mean;
    proof {
        assert(var as int == pooled_var(a@, b@));
    }
    if var < 1 {
        return (0, 0, false);
    }
    let sd = crate::fixed::isqrt(var);
    proof {
        assert(is_sqrt(var as int, sd as int));
        assert(1 <= sd as int) by (nonlinear_arith)
            requires
                is_sqrt(var as int, sd as int),
                var >= 1,
        ;
        assert(sd as int <= VMAX) by (nonlinear_arith)
            requires
                is_sqrt(var as int, sd as int),
                var as int <= VMAX * VMAX,
                0 < VMAX,
        ;
    }
    (mean as i64, sd as i64, true)
}

/// Standardizes one row in place of a fresh vector: each value becomes
/// `(x - mean) / sd` in fixed point.  Fails (`None`) exactly when some
/// standardized value leaves the fixed-point range.
fn std_row(v: &Vec<i64>, mean: i64, sd: i64) -> (r: Option<Vec<i64>>)
    requires
        crate::calculate_dists::bounded_vals(v@),
        iabs(mean as int) <= VMAX,
        1 <= sd as int <= VMAX,
    ensures
        r is Some <==> forall|j: int|
            0 <= j < v@.len() ==> iabs(std_val(#[trigger] v@[j], mean as int, sd as int)) <= VMAX,
        r is Some ==> {
            &&& r->Some_0@.len() == v@.len()
            &&& forall|j: int|
                0 <= j < v@.len() ==> #[trigger] r->Some_0@[j] as int == std_val(
                    v@[j],
                    mean as int,
                    sd as int,
                )
        },
{
    let n = v.len();
    let mut out: Vec<i64> = Vec::new();
    let mut j: usize = 0;
    while j < n
        invariant
            j <= n,
            n == v@.len(),
            crate::calculate_dists::bounded_vals(v@),
            iabs(mean as int) <= VMAX,
            1 <= sd as int <= VMAX,
            out@.len() == j,
            forall|p: int|
                0 <= p < j ==> #[trigger] out@[p] as int == std_val(v@[p], mean as int, sd as int),
            forall|p: int|
                0 <= p < j ==> iabs(std_val(#[trigger] v@[p], mean as int, sd as int)) <= VMAX,
        decreases n - j,
    {
        proof {
            assert(iabs(v@[j as int] as int) <= VMAX);
            assert(-(2 * VMAX) <= v@[j as int] - mean <= 2 * VMAX);
            assert(SCALE == 1_000_000);
            assert((v@[j as int] - mean) * (SCALE as int) < i128::MAX && -((v@[j as int] - mean)
                * (SCALE as int)) < i128::MAX) by (nonlinear_arith)
                requires
                    -(2 * VMAX) <= v@[j as int] - mean <= 2 * VMAX,
                    SCALE == 1_000_000,
                    VMAX == 0x2000_0000_0000,
            ;
        }
        let num = ((v[j] - mean) as i128) * (SCALE as i128);
        let q = crate::fixed::div_i128(num, sd as i128);
        if q > (VMAX as i128) || q < -(VMAX as i128) {
            proof {
                assert(iabs(std_val(v@[j as int], mean as int, sd as int)) > VMAX);
            }
            return None;
        }
        out.push(q as i64);
        j += 1;
    }
    Some(out)
}

/// Puts both matrices onto a common scale: for every variable, each
/// value is replaced by `(x - mean) / sd`, where the mean and the
/// population standard deviation are pooled over the observations of
/// both matrices.
///
/// On success both matrices are overwritten with [`std_mat`] of their
/// old values.  On failure neither matrix is changed: `EmptyInput`
/// when `values1` has no variable or no observation,
/// `DimensionMismatch` when the shapes differ, and `Numerical` exactly
/// when some variable cannot be standardized ([`std_ok`]): zero (or
/// sub-quantum) pooled variance, or a standardized value out of range.
pub fn standardise_arrays(values1: &mut Matrix, values2: &mut Matrix) -> (r: Result<
    (),
    MutError,
>)
    requires
        old(values1).wf(),
        old(values2).wf(),
    ensures
        final(values1).wf(),
        final(values2).wf(),
        r is Err ==> final(values1)@ == old(values1)@ && final(values2)@ == old(values2)@,
        !(old(values1)@.len() > 0 && cols_of(old(values1)@) > 0) ==> r == Err::<(), MutError>(
            MutError::EmptyInput,
        ),
        old(values1)@.len() > 0 && cols_of(old(values1)@) > 0
            && !(old(values1)@.len() == old(values2)@.len()
            && cols_of(old(values1)@) == cols_of(old(values2)@))
            ==> r == Err::<(), MutError>(MutError::DimensionMismatch),
        crate::calculate_dists::dists_shape_ok(old(values1)@, old(values2)@) ==> (r is Err <==> !std_ok(
            old(values1)@,
            old(values2)@,
        )),
        crate::calculate_dists::dists_shape_ok(old(values1)@, old(values2)@) && r is Err ==> r
            == Err::<(), MutError>(MutError::Numerical),
        r is Ok ==> {
            &&& final(values1)@.len() == old(values1)@.len()
            &&& final(values2)@.len() == old(values2)@.len()
            &&& forall|i: int|
                0 <= i < old(values1)@.len()
                    ==> #[trigger] final(values1)@[i].len() == old(values1)@[i].len()
            &&& forall|i: int|
                0 <= i < old(values2)@.len()
                    ==> #[trigger] final(values2)@[i].len() == old(values2)@[i].len()
            &&& forall|i: int, j: int|
                0 <= i < old(values1)@.len() && 0 <= j < old(values1)@[i].len()
                    ==> #[trigger] final(values1)@[i][j] as int
                    == std_mat(old(values1)@, old(values2)@)[i][j]
            &&& forall|i: int, j: int|
                0 <= i < old(values2)@.len() && 0 <= j < old(values2)@[i].len()
                    ==> #[trigger] final(values2)@[i][j] as int
                    == std_mat(old(values2)@, old(values1)@)[i][j]
        },
{
    let ghost m1 = values1@;
    let ghost m2 = values2@;
    let nr1 = values1.nrows();
    let nc1 = values1.ncols();
    if nr1 == 0 || nc1 == 0 {
        return Err(MutError::EmptyInput);
    }
    if nr1 != values2.nrows() || nc1 != values2.ncols() {
        return Err(MutError::DimensionMismatch);
    }
    let mut new1: Vec<Vec<i64>> = Vec::new();
    let mut new2: Vec<Vec<i64>> = Vec::new();
    let mut i: usize = 0;
    while i < nr1
        invariant
            i <= nr1,
            m1 == old(values1)@,
            m2 == old(values2)@,
            values1@ == m1,
            values2@ == m2,
            values1.wf(),
            values2.wf(),
            crate::calculate_dists::dists_shape_ok(m1, m2),
            nr1 == m1.len(),
            nc1 == cols_of(m1),
            new1@.len() == i,
            new2@.len() == i,
            forall|a: int| 0 <= a < i ==> #[trigger] row_std_ok(m1[a], m2[a]),
            forall|a: int|
                0 <= a < i ==> #[trigger] new1@[a]@.len() == m1[a].len(),
            forall|a: int|
                0 <= a < i ==> #[trigger] new2@[a]@.len() == m2[a].len(),
            forall|a: int, j: int|
                0 <= a < i && 0 <= j < m1[a].len() ==> #[trigger] new1@[a]@[j] as int == std_val(
                    m1[a][j],
                    pooled_mean(m1[a], m2[a]),
                    pooled_sd(m1[a], m2[a]),
                ),
            forall|a: int, j: int|
                0 <= a < i && 0 <= j < m2[a].len() ==> #[trigger] new2@[a]@[j] as int == std_val(
                    m2[a][j],
                    pooled_mean(m2[a], m1[a]),
                    pooled_sd(m2[a], m1[a]),
                ),
        decreases nr1 - i,
    {
        let ra = values1.row(i);
        let rb = values2.row(i);
        proof {
            assert(crate::calculate_dists::bounded_vals(ra@)) by {
                assert forall|j: int| 0 <= j < ra@.len() implies iabs(#[trigger] ra@[j] as int)
                    <= VMAX by {
                    assert(iabs(m1[i as int][j] as int) <= VMAX);
                }
            }
            assert(crate::calculate_dists::bounded_vals(rb@)) by {
                assert forall|j: int| 0 <= j < rb@.len() implies iabs(#[trigger] rb@[j] as int)
                    <= VMAX by {
                    assert(iabs(m2[i as int][j] as int) <= VMAX);
                }
            }
        }
        let (mean, sd, ok) = pooled_stats(&ra, &rb);
        if !ok {
            proof {
                assert(!row_std_ok(m1[i as int], m2[i as int]));
                assert(!std_ok(m1, m2));
            }
            return Err(MutError::Numerical);
        }
        proof {
            assert(pooled_mean(m2[i as int], m1[i as int]) == pooled_mean(
                m1[i as int],
                m2[i as int],
            ));
            assert(pooled_var(m2[i as int], m1[i as int]) == pooled_var(
                m1[i as int],
                m2[i as int],
            ));
        }
        let s1 = std_row(&ra, mean, sd);
        let row1 = match s1 {
            Some(x) => x,
            None => {
                proof {
                    assert(!row_std_ok(m1[i as int], m2[i as int]));
                    assert(!std_ok(m1, m2));
                }
                return Err(MutError::Numerical);
            },
        };
        let s2 = std_row(&rb, mean, sd);
        let row2 = match s2 {
            Some(x) => x,
            None => {
                proof {
                    assert(!row_std_ok(m1[i as int], m2[i as int]));
                    assert(!std_ok(m1, m2));
                }
                return Err(MutError::Numerical);
            },
        };
        proof {
            assert(row_std_ok(m1[i as int], m2[i as int]));
        }
        new1.push(row1);
        new2.push(row2);
        i += 1;
    }
    let r1 = Matrix { rows: new1 };
    let r2 = Matrix { rows: new2 };
    proof {
        assert(std_ok(m1, m2));
        assert forall|a: int| 0 <= a < r1@.len() implies #[trigger] r1@[a].len() == cols_of(
            r1@,
        ) by {
            assert(r1@[a] == new1@[a]@);
            assert(r1@[0] == new1@[0]@);
            assert(m1[a].len() == cols_of(m1));
            assert(m1[0].len() == cols_of(m1));
        }
        assert forall|a: int, j: int|
            0 <= a < r1@.len() && 0 <= j < r1@[a].len() implies iabs(#[trigger] r1@[a][j] as int)
            <= VMAX by {
            assert(r1@[a] == new1@[a]@);
            assert(row_std_ok(m1[a], m2[a]));
            assert(new1@[a]@[j] as int == std_val(
                m1[a][j],
                pooled_mean(m1[a], m2[a]),
                pooled_sd(m1[a], m2[a]),
            ));
        }
        assert(mat_wf(r1@));
        assert forall|a: int| 0 <= a < r2@.len() implies #[trigger] r2@[a].len() == cols_of(
            r2@,
        ) by {
            assert(r2@[a] == new2@[a]@);
            assert(r2@[0] == new2@[0]@);
            assert(m2[a].len() == cols_of(m2));
            assert(m2[0].len() == cols_of(m2));
        }
        assert forall|a: int, j: int|
            0 <= a < r2@.len() && 0 <= j < r2@[a].len() implies iabs(#[trigger] r2@[a][j] as int)
            <= VMAX by {
            assert(r2@[a] == new2@[a]@);
            assert(row_std_ok(m1[a], m2[a]));
            assert(new2@[a]@[j] as int == std_val(
                m2[a][j],
                pooled_mean(m2[a], m1[a]),
                pooled_sd(m2[a], m1[a]),
            ));
        }
        assert(mat_wf(r2@));
    }
    *values1 = r1;
    *values2 = r2;
    proof {
        assert forall|i2: int, j: int|
            0 <= i2 < m1.len() && 0 <= j < m1[i2].len() implies #[trigger] values1@[i2][j] as int
            == std_mat(m1, m2)[i2][j] by {
            assert(values1@[i2] == r1@[i2]);
        }
        assert forall|i2: int, j: int|
            0 <= i2 < m2.len() && 0 <= j < m2[i2].len() implies #[trigger] values2@[i2][j] as int
            == std_mat(m2, m1)[i2][j] by {
            assert(values2@[i2] == r2@[i2]);
        }
    }
    Ok(())
}

/// Sum of the first `k` standardized values of a row.
pub open spec fn std_sum_upto(v: Seq<i64>, mean: int, sd: int, k: int) -> int
    decreases k,
{
    if k <= 0 {
        0
    } else {
        std_sum_upto(v, mean, sd, k - 1) + std_val(v[k - 1], mean, sd)
    }
}

/// Scaled by the deviation, a prefix of standardized values sums to
/// the centred prefix sum, up to one rounding error per value.
proof fn lemma_std_sum_err(v: Seq<i64>, mean: int, sd: int, k: int)
    requires
        sd >= 1,
        0 <= k <= v.len(),
    ensures
        iabs(sd * std_sum_upto(v, mean, sd, k) - (sum_upto(v, k) - k * mean) * SCALE) <= k * (sd
            - 1),
    decreases k,
{
    if k <= 0 {
        assert(sd * std_sum_upto(v, mean, sd, k) == 0) by (nonlinear_arith)
            requires
                std_sum_upto(v, mean, sd, k) == 0,
        ;
        assert((sum_upto(v, k) - k * mean) * SCALE == 0) by (nonlinear_arith)
            requires
                sum_upto(v, k) == 0,
                k == 0,
        ;
    }
    if k > 0 {
        lemma_std_sum_err(v, mean, sd, k - 1);
        crate::fixed::lemma_tdiv_remainder((v[k - 1] - mean) * SCALE, sd);
        assert(iabs(sd * std_sum_upto(v, mean, sd, k) - (sum_upto(v, k) - k * mean) * SCALE) <= k
            * (sd - 1)) by (nonlinear_arith)
            requires
                iabs(
                    sd * std_sum_upto(v, mean, sd, k - 1) - (sum_upto(v, k - 1) - (k - 1) * mean)
                        * SCALE,
                ) <= (k - 1) * (sd - 1),
                iabs((v[k - 1] - mean) * SCALE - sd * tdiv((v[k - 1] - mean) * SCALE, sd)) <= sd
                    - 1,
                std_sum_upto(v, mean, sd, k) == std_sum_upto(v, mean, sd, k - 1) + tdiv(
                    (v[k - 1] - mean) * SCALE,
                    sd,
                ),
                std_val(v[k - 1], mean, sd) == tdiv((v[k - 1] - mean) * SCALE, sd),
                sum_upto(v, k) == sum_upto(v, k - 1) + v[k - 1],
                sd >= 1,
                k >= 1,
        ;
    }
}

/// Standardization centres the data.  Over the pooled observations of
/// one variable, the standardized values sum to zero up to rounding:
/// scaled by the pooled deviation, the total stays below one rounding
/// error per observation plus the rounding of the mean itself.  (The
/// magnitudes of the mean and the deviation of a particular row need
/// not shrink strictly -- a row whose mean is already exactly zero
/// cannot move closer to it.)
pub proof fn lemma_standardise_centres(a: Seq<i64>, b: Seq<i64>)
    requires
        pooled_var(a, b) >= 1,
        a.len() + b.len() >= 1,
    ensures
        pooled_sd(a, b) >= 1,
        iabs(
            pooled_sd(a, b) * (std_sum_upto(a, pooled_mean(a, b), pooled_sd(a, b), a.len() as int)
                + std_sum_upto(b, pooled_mean(a, b), pooled_sd(a, b), b.len() as int)),
        ) <= (a.len() + b.len()) * (pooled_sd(a, b) - 1) + (a.len() + b.len() - 1) * SCALE,
{
    let m = pooled_mean(a, b);
    let sd = pooled_sd(a, b);
    let n1 = a.len() as int;
    let n2 = b.len() as int;
    let total = sum_upto(a, n1) + sum_upto(b, n2);
    crate::fixed::lemma_sqrt_exists(pooled_var(a, b));
    assert(crate::fixed::is_sqrt(pooled_var(a, b), sd));
    assert(sd >= 1) by (nonlinear_arith)
        requires
            crate::fixed::is_sqrt(pooled_var(a, b), sd),
            pooled_var(a, b) >= 1,
    ;
    crate::fixed::lemma_tdiv_remainder(total, n1 + n2);
    assert(iabs(total - (n1 + n2) * m) <= n1 + n2 - 1);
    lemma_std_sum_err(a, m, sd, n1);
    lemma_std_sum_err(b, m, sd, n2);
    let ta = std_sum_upto(a, m, sd, n1);
    let tb = std_sum_upto(b, m, sd, n2);
    let e1 = sd * ta - (sum_upto(a, n1) - n1 * m) * SCALE;
    let e2 = sd * tb - (sum_upto(b, n2) - n2 * m) * SCALE;
    let e0 = total - (n1 + n2) * m;
    assert(sd * (ta + tb) == e1 + e2 + SCALE * e0) by (nonlinear_arith)
        requires
            e1 == sd * ta - (sum_upto(a, n1) - n1 * m) * SCALE,
            e2 == sd * tb - (sum_upto(b, n2) - n2 * m) * SCALE,
            e0 == sum_upto(a, n1) + sum_upto(b, n2) - (n1 + n2) * m,
    ;
    assert(iabs(e1 + e2 + SCALE * e0) <= iabs(e1) + iabs(e2) + SCALE * iabs(e0))
        by (nonlinear_arith)
        requires
            SCALE >= 1,
    ;
    assert(iabs(e1) + iabs(e2) + SCALE * iabs(e0) <= (n1 + n2) * (sd - 1) + (n1 + n2 - 1)
        * SCALE) by (nonlinear_arith)
        requires
            iabs(e1) <= n1 * (sd - 1),
            iabs(e2) <= n2 * (sd - 1),
            iabs(e0) <= n1 + n2 - 1,
            SCALE >= 1,
            sd >= 1,
            n1 >= 0,
            n2 >= 0,
    ;
}

/// A row of fixed-point values read as mathematical integers.
pub open spec fn row_int(v: Seq<i64>) -> Seq<int> {
    v.map_values(|x: i64| x as int)
}

/// A matrix of fixed-point values read as mathematical integers.
pub open spec fn mat_int(m: Seq<Seq<i64>>) -> Seq<Seq<int>> {
    m.map_values(|r: Seq<i64>| row_int(r))
}

/// A matrix of machine integers read as mathematical integers.
pub open spec fn mat128_int(m: Seq<Vec<i128>>) -> Seq<Seq<int>> {
    m.map_values(|r: Vec<i128>| r@.map_values(|x: i128| x as int))
}

/// Dot product of the first `m` positions of two rows.
pub open spec fn dot_upto(a: Seq<int>, b: Seq<int>, m: int) -> int
    decreases m,
{
    if m <= 0 {
        0
    } else {
        dot_upto(a, b, m - 1) + a[m - 1] * b[m - 1]
    }
}

/// Dot product of two whole rows.
pub open spec fn dot(a: Seq<int>, b: Seq<int>) -> int {
    dot_upto(a, b, a.len() as int)
}

/// The Gram matrix of the auxiliary variables: entry `(a, b)` is the
/// dot product of auxiliary rows `a` and `b`.
pub open spec fn gram(m: Seq<Seq<int>>) -> Seq<Seq<int>> {
    Seq::new((m.len() - 1) as nat, |a: int| Seq::new((m.len() - 1) as nat, |b: int| dot(m[a + 1], m[b + 1])))
}

/// The Gram matrix with column `col` replaced by the dot products of
/// the auxiliary rows with the primary row (the right-hand side of the
/// normal equations), as Cramer's rule requires.
pub open spec fn gram_replaced(m: Seq<Seq<int>>, col: int) -> Seq<Seq<int>> {
    Seq::new(
        (m.len() - 1) as nat,
        |a: int|
            Seq::new(
                (m.len() - 1) as nat,
                |b: int| if b == col { dot(m[a + 1], m[0]) } else { dot(m[a + 1], m[b + 1]) },
            ),
    )
}

/// Addition that fails where an `i128` would overflow.
pub open spec fn cadd(a: Option<int>, b: Option<int>) -> Option<int> {
    match (a, b) {
        (Some(x), Some(y)) => if x + y > i128::MAX || x + y < i128::MIN {
            None
        } else {
            Some(x + y)
        },
        _ => None,
    }
}

/// Multiplication that fails where an `i128` would overflow.
pub open spec fn cmul(a: Option<int>, b: Option<int>) -> Option<int> {
    match (a, b) {
        (Some(x), Some(y)) => if x * y > i128::MAX || x * y < i128::MIN {
            None
        } else {
            Some(x * y)
        },
        _ => None,
    }
}

/// Negation that fails where an `i128` would overflow.
pub open spec fn cneg(a: Option<int>) -> Option<int> {
    match a {
        Some(x) => if -x > i128::MAX {
            None
        } else {
            Some(-x)
        },
        None => None,
    }
}

/// The square matrix `m` without its first row and without column
/// `col`.
pub open spec fn minor(m: Seq<Seq<int>>, col: int) -> Seq<Seq<int>> {
    m.subrange(1, m.len() as int).map_values(|row: Seq<int>| row.remove(col))
}

/// Determinant by cofactor expansion along the first row, evaluated in
/// `i128` arithmetic: `None` exactly where that arithmetic would
/// overflow.
pub open spec fn det_chk(m: Seq<Seq<int>>) -> Option<int>
    decreases m.len(), m.len() + 1,
{
    if m.len() == 0 {
        Some(1)
    } else {
        det_expand(m, 0)
    }
}

/// The cofactor terms of columns `j ..` of the first row.
pub open spec fn det_expand(m: Seq<Seq<int>>, j: int) -> Option<int>
    decreases m.len(), m.len() - j,
{
    if j >= m.len() || j < 0 {
        Some(0)
    } else {
        let sub = det_chk(minor(m, j));
        let term = cmul(Some(m[0][j]), sub);
        let signed = if j % 2 == 0 {
            term
        } else {
            cneg(term)
        };
        cadd(signed, det_expand(m, j + 1))
    }
}

/// Dot product of two rows, exact in `i128`.
fn dot_exec(a: &Vec<i64>, b: &Vec<i64>) -> (r: i128)
    requires
        a@.len() == b@.len(),
        a@.len() <= NMAX,
        crate::calculate_dists::bounded_vals(a@),
        crate::calculate_dists::bounded_vals(b@),
    ensures
        r as int == dot(row_int(a@), row_int(b@)),
        iabs(r as int) <= a@.len() * (VMAX * VMAX),
{
    let n = a.len();
    let mut acc: i128 = 0;
    let mut m: usize = 0;
    while m < n
        invariant
            m <= n,
            n == a@.len() == b@.len(),
            n <= NMAX,
            crate::calculate_dists::bounded_vals(a@),
            crate::calculate_dists::bounded_vals(b@),
            acc as int == dot_upto(row_int(a@), row_int(b@), m as int),
            iabs(acc as int) <= m * (VMAX * VMAX),
        decreases n - m,
    {
        let x = a[m] as i128;
        let y = b[m] as i128;
        proof {
            assert(iabs(a@[m as int] as int) <= VMAX);
            assert(iabs(b@[m as int] as int) <= VMAX);
            assert(iabs(x * y) <= VMAX * VMAX) by (nonlinear_arith)
                requires
                    iabs(x as int) <= VMAX,
                    iabs(y as int) <= VMAX,
                    0 < VMAX,
            ;
            assert(iabs(acc + x * y) <= (m + 1) * (VMAX * VMAX)) by (nonlinear_arith)
                requires
                    iabs(acc as int) <= m * (VMAX * VMAX),
                    iabs(x * y) <= VMAX * VMAX,
            ;
            assert((m + 1) * (VMAX * VMAX) <= (NMAX as int) * (VMAX * VMAX)) by (nonlinear_arith)
                requires
                    0 <= m + 1 <= NMAX as int,
                    0 <= VMAX * VMAX,
            ;
            assert((NMAX as int) * (VMAX * VMAX) < i128::MAX) by (nonlinear_arith)
                requires
                    NMAX == 0x10_0000,
                    VMAX == 0x2000_0000_0000,
            ;
            assert(row_int(a@)[m as int] == x as int);
            assert(row_int(b@)[m as int] == y as int);
        }
        acc = acc + x * y;
        m += 1;
    }
    acc
}

/// Determinant of a square `i128` matrix by cofactor expansion along
/// the first row, with every product and sum overflow-checked.
/// Mirrors [`det_chk`] exactly: `None` exactly where the checked
/// arithmetic fails.
fn det_exec(m: &Vec<Vec<i128>>) -> (r: Option<i128>)
    requires
        forall|i: int| 0 <= i < m@.len() ==> #[trigger] m@[i]@.len() == m@.len(),
    ensures
        r is Some ==> det_chk(mat128_int(m@)) == Some(r->Some_0 as int),
        r is None ==> det_chk(mat128_int(m@)) is None,
    decreases m@.len(),
{
    let ghost mm = mat128_int(m@);
    let n = m.len();
    if n == 0 {
        return Some(1);
    }
    let mut acc: Option<i128> = Some(0);
    let mut j: usize = n;
    while j > 0
        invariant
            j <= n,
            n == m@.len(),
            mm == mat128_int(m@),
            forall|i: int| 0 <= i < m@.len() ==> #[trigger] m@[i]@.len() == m@.len(),
            acc is Some ==> det_expand(mm, j as int) == Some(acc->Some_0 as int),
            acc is None ==> det_expand(mm, j as int) is None,
        decreases j,
    {
        j -= 1;
        let mut sub: Vec<Vec<i128>> = Vec::new();
        let mut rr: usize = 1;
        while rr < n
            invariant
                1 <= rr <= n,
                n == m@.len(),
                j < n,
                forall|i: int| 0 <= i < m@.len() ==> #[trigger] m@[i]@.len() == m@.len(),
                sub@.len() == rr - 1,
                forall|i: int| 0 <= i < rr - 1 ==> #[trigger] sub@[i]@.len() == n - 1,
                forall|i: int, c: int|
                    0 <= i < rr - 1 && 0 <= c < n - 1 ==> #[trigger] sub@[i]@[c] == (if c < j {
                        m@[i + 1]@[c]
                    } else {
                        m@[i + 1]@[c + 1]
                    }),
            decreases n - rr,
        {
            let mut rw: Vec<i128> = Vec::new();
            let mut c: usize = 0;
            while c < n
                invariant
                    c <= n,
                    j < n,
                    rr < n,
                    n == m@.len(),
                    forall|i: int| 0 <= i < m@.len() ==> #[trigger] m@[i]@.len() == m@.len(),
                    rw@.len() == (if c <= j {
                        c as int
                    } else {
                        c - 1
                    }),
                    forall|q: int|
                        0 <= q < rw@.len() ==> #[trigger] rw@[q] == (if q < j {
                            m@[rr as int]@[q]
                        } else {
                            m@[rr as int]@[q + 1]
                        }),
                decreases n - c,
            {
                if c != j {
                    rw.push(m[rr][c]);
                }
                c += 1;
            }
            sub.push(rw);
            rr += 1;
        }
        proof {
            assert(mat128_int(sub@) =~~= minor(mm, j as int)) by {
                assert forall|i: int| 0 <= i < n - 1 implies mat128_int(sub@)[i] =~= minor(
                    mm,
                    j as int,
                )[i] by {
                    assert(minor(mm, j as int)[i] == mm[i + 1].remove(j as int));
                    assert(mm[i + 1] == m@[i + 1]@.map_values(|x: i128| x as int));
                    assert forall|c: int| 0 <= c < n - 1 implies mat128_int(sub@)[i][c] == mm[i
                        + 1].remove(j as int)[c] by {
                        assert(mat128_int(sub@)[i][c] == sub@[i]@[c] as int);
                    }
                }
            }
        }
        let sd = det_exec(&sub);
        let ghost spec_sub = det_chk(minor(mm, j as int));
        let ghost spec_term = cmul(Some(mm[0][j as int]), spec_sub);
        let term: Option<i128> = match sd {
            Some(d) => m[0][j].checked_mul(d),
            None => None,
        };
        proof {
            assert(mm[0] == m@[0]@.map_values(|x: i128| x as int));
            assert(mm[0][j as int] == m@[0]@[j as int] as int);
            if sd is Some {
                assert(det_chk(mat128_int(sub@)) == Some(sd->Some_0 as int));
                assert(spec_sub == Some(sd->Some_0 as int));
            } else {
                assert(det_chk(mat128_int(sub@)) is None);
                assert(spec_sub is None);
            }
        }
        let signed: Option<i128> = if j % 2 == 0 {
            term
        } else {
            match term {
                Some(t) => {
                    if t == i128::MIN {
                        None
                    } else {
                        Some(-t)
                    }
                },
                None => None,
            }
        };
        let ghost spec_signed = if j % 2 == 0 {
            spec_term
        } else {
            cneg(spec_term)
        };
        proof {
            if signed is Some {
                assert(spec_signed == Some(signed->Some_0 as int));
            } else {
                assert(spec_signed is None);
            }
        }
        let prev = acc;
        acc = match (signed, prev) {
            (Some(x), Some(y)) => x.checked_add(y),
            _ => None,
        };
        proof {
            assert(det_expand(mm, j as int) == cadd(spec_signed, det_expand(mm, j + 1)));
        }
    }
    acc
}

/// The Cramer-rule solution of the normal equations for auxiliary
/// variable `a`: the determinant ratio `det(G_a) / det(G)` in fixed
/// point, where `G` is the Gram matrix of the auxiliary rows and `G_a`
/// has column `a` replaced by the right-hand side.  `None` exactly
/// where the system is singular, the checked `i128` arithmetic
/// overflows, or the coefficient leaves the fixed-point range.
pub open spec fn beta_at(m: Seq<Seq<int>>, a: int) -> Option<int> {
    match det_chk(gram(m)) {
        Some(d) => if d == 0 {
            None
        } else {
            match det_chk(gram_replaced(m, a)) {
                Some(da) => match cmul(Some(da), Some(SCALE as int)) {
                    Some(num) => if iabs(tdiv(num, d)) <= VMAX {
                        Some(tdiv(num, d))
                    } else {
                        None
                    },
                    None => None,
                },
                None => None,
            }
        },
        None => None,
    }
}

/// Every regression coefficient of `m` is defined.
pub open spec fn beta_ok(m: Seq<Seq<int>>) -> bool {
    forall|a: int| 0 <= a < m.len() - 1 ==> #[trigger] beta_at(m, a) is Some
}

/// The vector of regression coefficients of `m`.
pub open spec fn beta_seq(m: Seq<Seq<int>>) -> Seq<int> {
    Seq::new((m.len() - 1) as nat, |a: int| beta_at(m, a)->Some_0)
}

/// Fits the primary variable (row 0) on all auxiliary variables (rows
/// 1 and up) by ordinary least squares without an intercept, returning
/// one fixed-point coefficient per auxiliary variable.
///
/// The normal equations `G b = c` (with `G` the Gram matrix of the
/// auxiliary rows and `c` their dot products with the primary row) are
/// solved exactly by Cramer's rule over integer determinants; only the
/// final ratio rounds, see [`beta_at`].  Fails with `EmptyInput` when
/// the matrix has no observation or fewer than two rows, and with
/// `Numerical` exactly when some coefficient is undefined
/// ([`beta_ok`]): a singular system, checked-arithmetic overflow, or a
/// coefficient out of range.
pub fn mlr_beta(data: &Matrix) -> (r: Result<Vec<i64>, MutError>)
    requires
        data.wf(),
    ensures
        !(data@.len() >= 2 && cols_of(data@) > 0) ==> r == Err::<Vec<i64>, MutError>(
            MutError::EmptyInput,
        ),
        data@.len() >= 2 && cols_of(data@) > 0 ==> {
            &&& (r is Err <==> !beta_ok(mat_int(data@)))
            &&& (r is Err ==> r == Err::<Vec<i64>, MutError>(MutError::Numerical))
        },
        r is Ok ==> {
            &&& r->Ok_0@.len() == data@.len() - 1
            &&& forall|a: int|
                0 <= a < data@.len() - 1 ==> beta_at(mat_int(data@), a) == Some(
                    #[trigger] r->Ok_0@[a] as int,
                )
            &&& forall|a: int|
                0 <= a < data@.len() - 1 ==> iabs(#[trigger] r->Ok_0@[a] as int) <= VMAX
        },
{
    let nr = data.nrows();
    let nc = data.ncols();
    if nr < 2 || nc == 0 {
        return Err(MutError::EmptyInput);
    }
    let k = nr - 1;
    let ghost mm = mat_int(data@);
    proof {
        assert(mm.len() == data@.len());
        assert forall|i: int| 0 <= i < mm.len() implies #[trigger] mm[i] == row_int(
            data@[i],
        ) by {}
    }
    let r0 = data.row(0);
    let mut auxs: Vec<Vec<i64>> = Vec::new();
    let mut a: usize = 0;
    while a < k
        invariant
            a <= k,
            k == data@.len() - 1,
            data.wf(),
            auxs@.len() == a,
            forall|t: int| 0 <= t < a ==> #[trigger] auxs@[t]@ == data@[t + 1],
        decreases k - a,
    {
        auxs.push(data.row(a + 1));
        a += 1;
    }
    proof {
        assert forall|t: int|
            0 <= t < k implies crate::calculate_dists::bounded_vals(#[trigger] auxs@[t]@) by {
            assert(auxs@[t]@ == data@[t + 1]);
            assert forall|j: int|
                0 <= j < data@[t + 1].len() implies iabs(#[trigger] data@[t + 1][j] as int)
                <= VMAX by {}
        }
        assert(crate::calculate_dists::bounded_vals(r0@)) by {
            assert forall|j: int| 0 <= j < r0@.len() implies iabs(#[trigger] r0@[j] as int)
                <= VMAX by {
                assert(iabs(data@[0][j] as int) <= VMAX);
            }
        }
    }
    let mut g: Vec<Vec<i128>> = Vec::new();
    let mut ga_row: usize = 0;
    while ga_row < k
        invariant
            ga_row <= k,
            k == data@.len() - 1,
            data.wf(),
            mm == mat_int(data@),
            auxs@.len() == k,
            r0@ == data@[0],
            forall|t: int| 0 <= t < k ==> #[trigger] auxs@[t]@ == data@[t + 1],
            forall|t: int| 0 <= t < k ==> crate::calculate_dists::bounded_vals(#[trigger] auxs@[t]@),
            g@.len() == ga_row,
            forall|t: int| 0 <= t < ga_row ==> #[trigger] g@[t]@.len() == k,
            forall|t: int, u: int|
                0 <= t < ga_row && 0 <= u < k ==> #[trigger] g@[t]@[u] as int == dot(
                    mm[t + 1],
                    mm[u + 1],
                ),
        decreases k - ga_row,
    {
        let mut row: Vec<i128> = Vec::new();
        let mut b: usize = 0;
        while b < k
            invariant
                b <= k,
                ga_row < k,
                k == data@.len() - 1,
                data.wf(),
                mm == mat_int(data@),
                auxs@.len() == k,
                forall|t: int| 0 <= t < k ==> #[trigger] auxs@[t]@ == data@[t + 1],
                forall|t: int|
                    0 <= t < k ==> crate::calculate_dists::bounded_vals(#[trigger] auxs@[t]@),
                row@.len() == b,
                forall|u: int|
                    0 <= u < b ==> #[trigger] row@[u] as int == dot(
                        mm[ga_row + 1],
                        mm[u + 1],
                    ),
            decreases k - b,
        {
            let d = dot_exec(&auxs[ga_row], &auxs[b]);
            proof {
                assert(row_int(auxs@[ga_row as int]@) == mm[ga_row + 1]);
                assert(row_int(auxs@[b as int]@) == mm[b + 1]);
            }
            row.push(d);
            b += 1;
        }
        g.push(row);
        ga_row += 1;
    }
    let mut cv: Vec<i128> = Vec::new();
    let mut ci: usize = 0;
    while ci < k
        invariant
            ci <= k,
            k == data@.len() - 1,
            data.wf(),
            mm == mat_int(data@),
            auxs@.len() == k,
            r0@ == data@[0],
            crate::calculate_dists::bounded_vals(r0@),
            forall|t: int| 0 <= t < k ==> #[trigger] auxs@[t]@ == data@[t + 1],
            forall|t: int| 0 <= t < k ==> crate::calculate_dists::bounded_vals(#[trigger] auxs@[t]@),
            cv@.len() == ci,
            forall|t: int|
                0 <= t < ci ==> #[trigger] cv@[t] as int == dot(mm[t + 1], mm[0]),
        decreases k - ci,
    {
        let d = dot_exec(&auxs[ci], &r0);
        proof {
            assert(row_int(auxs@[ci as int]@) == mm[ci + 1]);
            assert(row_int(r0@) == mm[0]);
        }
        cv.push(d);
        ci += 1;
    }
    proof {
        assert(mat128_int(g@) =~~= gram(mm)) by {
            assert forall|t: int| 0 <= t < k implies mat128_int(g@)[t] =~= gram(mm)[t] by {
                assert forall|u: int| 0 <= u < k implies mat128_int(g@)[t][u] == gram(
                    mm,
                )[t][u] by {
                    assert(mat128_int(g@)[t][u] == g@[t]@[u] as int);
                }
            }
        }
    }
    let dg = det_exec(&g);
    let d = match dg {
        Some(v) => v,
        None => {
            proof {
                assert(det_chk(gram(mm)) is None);
                assert(beta_at(mm, 0) is None);
                assert(!beta_ok(mm));
            }
            return Err(MutError::Numerical);
        },
    };
    if d == 0 {
        proof {
            assert(det_chk(gram(mm)) == Some(0int));
            assert(beta_at(mm, 0) is None);
            assert(!beta_ok(mm));
        }
        return Err(MutError::Numerical);
    }
    let mut out: Vec<i64> = Vec::new();
    let mut aa: usize = 0;
    while aa < k
        invariant
            aa <= k,
            k == data@.len() - 1,
            1 <= k < KMAX,
            cols_of(data@) > 0,
            mm == mat_int(data@),
            k == mm.len() - 1,
            g@.len() == k,
            cv@.len() == k,
            forall|t: int| 0 <= t < k ==> #[trigger] g@[t]@.len() == k,
            forall|t: int, u: int|
                0 <= t < k && 0 <= u < k ==> #[trigger] g@[t]@[u] as int == dot(
                    mm[t + 1],
                    mm[u + 1],
                ),
            forall|t: int|
                0 <= t < k ==> #[trigger] cv@[t] as int == dot(mm[t + 1], mm[0]),
            det_chk(gram(mm)) == Some(d as int),
            d != 0,
            out@.len() == aa,
            forall|t: int|
                0 <= t < aa ==> beta_at(mm, t) == Some(#[trigger] out@[t] as int),
            forall|t: int| 0 <= t < aa ==> iabs(#[trigger] out@[t] as int) <= VMAX,
        decreases k - aa,
    {
        let mut ga: Vec<Vec<i128>> = Vec::new();
        let mut t: usize = 0;
        while t < k
            invariant
                t <= k,
                aa < k,
                g@.len() == k,
                cv@.len() == k,
                forall|t2: int| 0 <= t2 < k ==> #[trigger] g@[t2]@.len() == k,
                ga@.len() == t,
                forall|t2: int| 0 <= t2 < t ==> #[trigger] ga@[t2]@.len() == k,
                forall|t2: int, u: int|
                    0 <= t2 < t && 0 <= u < k ==> #[trigger] ga@[t2]@[u] == (if u == aa {
                        cv@[t2]
                    } else {
                        g@[t2]@[u]
                    }),
            decreases k - t,
        {
            let mut row: Vec<i128> = Vec::new();
            let mut u: usize = 0;
            while u < k
                invariant
                    u <= k,
                    t < k,
                    aa < k,
                    g@.len() == k,
                    cv@.len() == k,
                    forall|t2: int| 0 <= t2 < k ==> #[trigger] g@[t2]@.len() == k,
                    row@.len() == u,
                    forall|u2: int|
                        0 <= u2 < u ==> #[trigger] row@[u2] == (if u2 == aa {
                            cv@[t as int]
                        } else {
                            g@[t as int]@[u2]
                        }),
                decreases k - u,
            {
                if u == aa {
                    row.push(cv[t]);
                } else {
                    row.push(g[t][u]);
                }
                u += 1;
            }
            ga.push(row);
            t += 1;
        }
        proof {
            assert(mat128_int(ga@) =~~= gram_replaced(mm, aa as int)) by {
                assert forall|t2: int| 0 <= t2 < k implies mat128_int(ga@)[t2] =~= gram_replaced(
                    mm,
                    aa as int,
                )[t2] by {
                    assert forall|u: int| 0 <= u < k implies mat128_int(ga@)[t2][u]
                        == gram_replaced(mm, aa as int)[t2][u] by {
                        assert(mat128_int(ga@)[t2][u] == ga@[t2]@[u] as int);
                    }
                }
            }
        }
        let da = det_exec(&ga);
        let dv = match da {
            Some(v) => v,
            None => {
                proof {
                    assert(det_chk(gram_replaced(mm, aa as int)) is None);
                    assert(beta_at(mm, aa as int) is None);
                    assert(!beta_ok(mm));
                }
                return Err(MutError::Numerical);
            },
        };
        let num = match dv.checked_mul(SCALE as i128) {
            Some(v) => v,
            None => {
                proof {
                    assert(cmul(Some(dv as int), Some(SCALE as int)) is None);
                    assert(beta_at(mm, aa as int) is None);
                    assert(!beta_ok(mm));
                }
                return Err(MutError::Numerical);
            },
        };
        let q = match num.checked_div(d) {
            Some(v) => v,
            None => {
                proof {
                    assert(tdiv(num as int, d as int) > i128::MAX);
                    assert(iabs(tdiv(num as int, d as int)) > VMAX);
                    assert(beta_at(mm, aa as int) is None);
                    assert(!beta_ok(mm));
                }
                return Err(MutError::Numerical);
            },
        };
        proof {
            assert(q as int == tdiv(num as int, d as int));
        }
        if q > (VMAX as i128) || q < -(VMAX as i128) {
            proof {
                assert(iabs(tdiv(num as int, d as int)) > VMAX);
                assert(beta_at(mm, aa as int) is None);
                assert(!beta_ok(mm));
            }
            return Err(MutError::Numerical);
        }
        proof {
            assert(beta_at(mm, aa as int) == Some(q as int));
        }
        out.push(q as i64);
        aa += 1;
    }
    proof {
        assert forall|t: int| 0 <= t < mm.len() - 1 implies #[trigger] beta_at(mm, t) is Some by {
            assert(beta_at(mm, t) == Some(out@[t] as int));
        }
        assert(beta_ok(mm));
    }
    Ok(out)
}


/// Sum, over the auxiliary variables, of the standardized auxiliary
/// value at observation `o` weighted by `SCALE + beta2 - beta1`, for
/// the first `m` auxiliary variables.
pub open spec fn adj_sum_upto(
    s: Seq<Seq<int>>,
    b1: Seq<int>,
    b2: Seq<int>,
    o: int,
    m: int,
) -> int
    decreases m,
{
    if m <= 0 {
        0
    } else {
        adj_sum_upto(s, b1, b2, o, m - 1) + s[m][o] * (SCALE + b2[m - 1] - b1[m - 1])
    }
}

/// The adjusted primary value of observation `o`: the weighted sum of
/// its standardized auxiliary values, scaled back to fixed point.
pub open spec fn adj_val(s: Seq<Seq<int>>, b1: Seq<int>, b2: Seq<int>, o: int) -> int {
    tdiv(adj_sum_upto(s, b1, b2, o, s.len() - 1), SCALE as int)
}

/// The matrix pair cannot be adjusted: standardization fails, a
/// regression system is undefined, or an adjusted value leaves the
/// fixed-point range.
pub open spec fn adj_fails(m1: Seq<Seq<i64>>, m2: Seq<Seq<i64>>) -> bool {
    let s1 = std_mat(m1, m2);
    let s2 = std_mat(m2, m1);
    ||| !std_ok(m1, m2)
    ||| !beta_ok(s1)
    ||| !beta_ok(s2)
    ||| exists|o: int|
        0 <= o < cols_of(m1) && iabs(
            #[trigger] adj_val(s1, beta_seq(s1), beta_seq(s2), o),
        ) > VMAX
}

/// Replaces the primary row of `values1` by the dependency observed in
/// `values2`: both matrices are standardized (4.3A, on private
/// copies), regression coefficients are fitted for each population
/// ([`mlr_beta`]), and each primary value becomes the sum of the
/// observation's standardized auxiliary values weighted by
/// `1 + beta2 - beta1`.  Rows 1 and up of `values1`, and all of
/// `values2`, are left untouched.
///
/// Fails with `EmptyInput` when `values1` has no observation or no
/// auxiliary variable, with `DimensionMismatch` when the shapes
/// differ, and with `Numerical` exactly in the cases of
/// [`adj_fails`]; on failure `values1` is unchanged.
pub fn adj_for_beta(values1: &mut Matrix, values2: &Matrix) -> (r: Result<(), MutError>)
    requires
        old(values1).wf(),
        values2.wf(),
    ensures
        final(values1).wf(),
        r is Err ==> final(values1)@ == old(values1)@,
        !(old(values1)@.len() >= 2 && cols_of(old(values1)@) > 0) ==> r == Err::<(), MutError>(
            MutError::EmptyInput,
        ),
        old(values1)@.len() >= 2 && cols_of(old(values1)@) > 0
            && !(old(values1)@.len() == values2@.len()
            && cols_of(old(values1)@) == cols_of(values2@))
            ==> r == Err::<(), MutError>(MutError::DimensionMismatch),
        old(values1)@.len() >= 2 && cols_of(old(values1)@) > 0
            && old(values1)@.len() == values2@.len()
            && cols_of(old(values1)@) == cols_of(values2@) ==> {
            &&& (r is Err <==> adj_fails(old(values1)@, values2@))
            &&& (r is Err ==> r == Err::<(), MutError>(MutError::Numerical))
        },
        r is Ok ==> {
            &&& final(values1)@.len() == old(values1)@.len()
            &&& forall|i: int|
                1 <= i < old(values1)@.len() ==> #[trigger] final(values1)@[i] == old(
                    values1,
                )@[i]
            &&& final(values1)@[0].len() == old(values1)@[0].len()
            &&& forall|o: int|
                0 <= o < cols_of(old(values1)@) ==> #[trigger] final(values1)@[0][o] as int
                    == adj_val(
                    std_mat(old(values1)@, values2@),
                    beta_seq(std_mat(old(values1)@, values2@)),
                    beta_seq(std_mat(values2@, old(values1)@)),
                    o,
                )
        },
{
    let ghost m1 = values1@;
    let ghost m2 = values2@;
    let nr = values1.nrows();
    let nc = values1.ncols();
    if nr < 2 || nc == 0 {
        return Err(MutError::EmptyInput);
    }
    if nr != values2.nrows() || nc != values2.ncols() {
        return Err(MutError::DimensionMismatch);
    }
    let mut c1 = crate::matrix::copy_matrix(values1);
    let mut c2 = crate::matrix::copy_matrix(values2);
    let std_r = standardise_arrays(&mut c1, &mut c2);
    if std_r.is_err() {
        proof {
            assert(!std_ok(m1, m2));
        }
        return Err(MutError::Numerical);
    }
    let ghost s1 = std_mat(m1, m2);
    let ghost s2 = std_mat(m2, m1);
    proof {
        assert(mat_int(c1@) =~~= s1) by {
            assert forall|i: int| 0 <= i < nr implies mat_int(c1@)[i] =~= s1[i] by {
                assert forall|j: int| 0 <= j < m1[i].len() implies mat_int(c1@)[i][j] == s1[i][j] by {
                    assert(mat_int(c1@)[i][j] == c1@[i][j] as int);
                    assert(c1@[i][j] as int == std_mat(m1, m2)[i][j]);
                }
            }
        }
        assert(mat_int(c2@) =~~= s2) by {
            assert forall|i: int| 0 <= i < nr implies mat_int(c2@)[i] =~= s2[i] by {
                assert forall|j: int| 0 <= j < m2[i].len() implies mat_int(c2@)[i][j] == s2[i][j] by {
                    assert(mat_int(c2@)[i][j] == c2@[i][j] as int);
                    assert(c2@[i][j] as int == std_mat(m2, m1)[i][j]);
                }
            }
        }
    }
    let b1 = match mlr_beta(&c1) {
        Ok(b) => b,
        Err(_) => {
            proof {
                assert(!beta_ok(s1));
            }
            return Err(MutError::Numerical);
        },
    };
    let b2 = match mlr_beta(&c2) {
        Ok(b) => b,
        Err(_) => {
            proof {
                assert(!beta_ok(s2));
            }
            return Err(MutError::Numerical);
        },
    };
    let ghost bs1 = beta_seq(s1);
    let ghost bs2 = beta_seq(s2);
    proof {
        assert(row_int(b1@) =~= bs1) by {
            assert forall|a: int| 0 <= a < nr - 1 implies row_int(b1@)[a] == bs1[a] by {
                assert(beta_at(s1, a) == Some(b1@[a] as int));
            }
        }
        assert(row_int(b2@) =~= bs2) by {
            assert forall|a: int| 0 <= a < nr - 1 implies row_int(b2@)[a] == bs2[a] by {
                assert(beta_at(s2, a) == Some(b2@[a] as int));
            }
        }
    }
    let k = nr - 1;
    let mut row0: Vec<i64> = Vec::new();
    let mut o: usize = 0;
    while o < nc
        invariant
            o <= nc,
            m1 == old(values1)@,
            m2 == values2@,
            values1@ == m1,
            values1.wf(),
            mat_wf(m1),
            nr == m1.len(),
            nr >= 2,
            nr <= KMAX,
            nc == cols_of(m1),
            nc > 0,
            m1.len() == m2.len(),
            cols_of(m1) == cols_of(m2),
            k == nr - 1,
            s1 == std_mat(m1, m2),
            s2 == std_mat(m2, m1),
            s1.len() == nr,
            bs1 == beta_seq(s1),
            bs2 == beta_seq(s2),
            std_ok(m1, m2),
            beta_ok(s1),
            beta_ok(s2),
            c1.wf(),
            c1@.len() == nr,
            forall|i: int| 0 <= i < nr ==> #[trigger] c1@[i].len() == nc,
            forall|i: int, j: int|
                0 <= i < nr && 0 <= j < nc ==> #[trigger] c1@[i][j] as int == s1[i][j],
            b1@.len() == k,
            b2@.len() == k,
            forall|a: int| 0 <= a < k ==> #[trigger] b1@[a] as int == bs1[a],
            forall|a: int| 0 <= a < k ==> #[trigger] b2@[a] as int == bs2[a],
            forall|a: int| 0 <= a < k ==> iabs(#[trigger] b1@[a] as int) <= VMAX,
            forall|a: int| 0 <= a < k ==> iabs(#[trigger] b2@[a] as int) <= VMAX,
            row0@.len() == o,
            forall|p: int|
                0 <= p < o ==> #[trigger] row0@[p] as int == adj_val(s1, bs1, bs2, p),
            forall|p: int| 0 <= p < o ==> iabs(#[trigger] row0@[p] as int) <= VMAX,
        decreases nc - o,
    {
        let mut acc: i128 = 0;
        let mut t: usize = 0;
        while t < k
            invariant
                t <= k,
                o < nc,
                k == nr - 1,
                nr >= 2,
                nr <= KMAX,
                nc == cols_of(m1),
                s1.len() == nr,
                c1.wf(),
                c1@.len() == nr,
                forall|i: int| 0 <= i < nr ==> #[trigger] c1@[i].len() == nc,
                forall|i: int, j: int|
                    0 <= i < nr && 0 <= j < nc ==> #[trigger] c1@[i][j] as int == s1[i][j],
                b1@.len() == k,
                b2@.len() == k,
                forall|a: int| 0 <= a < k ==> #[trigger] b1@[a] as int == bs1[a],
                forall|a: int| 0 <= a < k ==> #[trigger] b2@[a] as int == bs2[a],
                forall|a: int| 0 <= a < k ==> iabs(#[trigger] b1@[a] as int) <= VMAX,
                forall|a: int| 0 <= a < k ==> iabs(#[trigger] b2@[a] as int) <= VMAX,
                acc as int == adj_sum_upto(s1, bs1, bs2, o as int, t as int),
                iabs(acc as int) <= t * (VMAX * (SCALE + 2 * VMAX)),
            decreases k - t,
        {
            let w = (SCALE as i128) + (b2[t] as i128) - (b1[t] as i128);
            let x = c1.get(t + 1, o) as i128;
            proof {
                assert(iabs(c1@[t + 1][o as int] as int) <= VMAX);
                assert(iabs(w as int) <= SCALE + 2 * VMAX);
                assert(iabs(x * w) <= VMAX * (SCALE + 2 * VMAX)) by (nonlinear_arith)
                    requires
                        iabs(x as int) <= VMAX,
                        iabs(w as int) <= SCALE + 2 * VMAX,
                        0 < VMAX,
                        0 < SCALE,
                ;
                assert(iabs(acc + x * w) <= (t + 1) * (VMAX * (SCALE + 2 * VMAX)))
                    by (nonlinear_arith)
                    requires
                        iabs(acc as int) <= t * (VMAX * (SCALE + 2 * VMAX)),
                        iabs(x * w) <= VMAX * (SCALE + 2 * VMAX),
                ;
                assert((t + 1) * (VMAX * (SCALE + 2 * VMAX)) <= (KMAX as int) * (VMAX * (SCALE
                    + 2 * VMAX))) by (nonlinear_arith)
                    requires
                        0 <= t + 1 <= KMAX as int,
                        0 <= VMAX * (SCALE + 2 * VMAX),
                ;
                assert((KMAX as int) * (VMAX * (SCALE + 2 * VMAX)) < i128::MAX)
                    by (nonlinear_arith)
                    requires
                        KMAX == 0x400,
                        VMAX == 0x2000_0000_0000,
                        SCALE == 1_000_000,
                ;
                assert(x as int == s1[t + 1][o as int]);
                assert(w as int == SCALE + bs2[t as int] - bs1[t as int]);
            }
            acc = acc + x * w;
            t += 1;
        }
        proof {
            assert(iabs(acc as int) <= (KMAX as int) * (VMAX * (SCALE + 2 * VMAX)))
                by (nonlinear_arith)
                requires
                    iabs(acc as int) <= (k as int) * (VMAX * (SCALE + 2 * VMAX)),
                    0 <= k as int <= KMAX as int,
                    0 <= VMAX * (SCALE + 2 * VMAX),
            ;
            assert((KMAX as int) * (VMAX * (SCALE + 2 * VMAX)) < i128::MAX) by (nonlinear_arith)
                requires
                    KMAX == 0x400,
                    VMAX == 0x2000_0000_0000,
                    SCALE == 1_000_000,
            ;
        }
        let q = crate::fixed::div_i128(acc, SCALE as i128);
        proof {
            assert(q as int == adj_val(s1, bs1, bs2, o as int));
        }
        if q > (VMAX as i128) || q < -(VMAX as i128) {
            proof {
                assert(iabs(adj_val(s1, bs1, bs2, o as int)) > VMAX);
                assert(adj_fails(m1, m2));
            }
            return Err(MutError::Numerical);
        }
        row0.push(q as i64);
        o += 1;
    }
    values1.rows.set(0, row0);
    proof {
        assert(final(values1)@.len() == m1.len());
        assert forall|i: int| 1 <= i < m1.len() implies #[trigger] values1@[i] == m1[i] by {
            assert(values1@[i] == values1.rows@[i]@);
        }
        assert(values1@[0] == values1.rows@[0]@);
        assert(mat_wf(values1@)) by {
            assert forall|i: int| 0 <= i < values1@.len() implies #[trigger] values1@[i].len()
                == cols_of(values1@) by {
                if i > 0 {
                    assert(values1@[i] == m1[i]);
                }
            }
            assert forall|i: int, j: int|
                0 <= i < values1@.len() && 0 <= j < values1@[i].len() implies iabs(
                #[trigger] values1@[i][j] as int,
            ) <= VMAX by {
                if i > 0 {
                    assert(values1@[i] == m1[i]);
                }
            }
        }
        assert forall|p: int| 0 <= p < cols_of(m1) implies iabs(
            #[trigger] adj_val(s1, beta_seq(s1), beta_seq(s2), p),
        ) <= VMAX by {
            assert(row0@[p] as int == adj_val(s1, bs1, bs2, p));
        }
        assert(!adj_fails(m1, m2));
    }
    Ok(())
}

} // verus!
