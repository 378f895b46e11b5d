//! Sample statistics of a single variable.
//!
//! Unlike the pooled population statistics that standardization uses
//! ([`crate::mlr::pooled_mean`]), these report the sample standard
//! deviation, with the `n / (n - 1)` correction.

use vstd::prelude::*;

use crate::calculate_dists::bounded_vals;
use crate::fixed::{iabs, is_sqrt, sqrt_of, tdiv, NMAX, VMAX};
use crate::matrix::{cols_of, Matrix};
use crate::mlr::{sum_upto, sumsq_upto};
use crate::MutError;

verus! {

/// Mean of a variable's values, in fixed point.
pub open spec fn col_mean(v: Seq<i64>) -> int {
    tdiv(sum_upto(v, v.len() as int), v.len() as int)
}

/// Sample variance of a variable's values (in squared fixed-point
/// units): the population variance scaled by `n / (n - 1)`.
pub open spec fn col_var_samp(v: Seq<i64>) -> int {
    tdiv(
        (tdiv(sumsq_upto(v, v.len() as int), v.len() as int) - col_mean(v) * col_mean(v)) * (
        v.len() as int),
        v.len() - 1,
    )
}

/// Sample standard deviation: the integer square root of the sample
/// variance.
pub open spec fn col_sd_samp(v: Seq<i64>) -> int {
    sqrt_of(col_var_samp(v))
}

/// Mean and sample standard deviation of one variable's values.
///
/// Fails with `EmptyInput` on an empty vector and with `Numerical`
/// when the sample deviation is undefined: a single observation, or a
/// (rounded) sample variance below zero.
pub fn mean_sd_column(column: &Vec<i64>) -> (r: Result<(i64, i64), MutError>)
    requires
        column@.len() <= NMAX,
        bounded_vals(column@),
    ensures
        column@.len() == 0 ==> r == Err::<(i64, i64), MutError>(MutError::EmptyInput),
        column@.len() == 1 ==> r == Err::<(i64, i64), MutError>(MutError::Numerical),
        column@.len() >= 2 ==> {
            &&& (r is Err <==> col_var_samp(column@) < 0)
            &&& (r is Err ==> r == Err::<(i64, i64), MutError>(MutError::Numerical))
        },
        r is Ok ==> {
            &&& r->Ok_0.0 as int == col_mean(column@)
            &&& r->Ok_0.1 as int == col_sd_samp(column@)
        },
{
    let n = column.len();
    if n == 0 {
        return Err(MutError::EmptyInput);
    }
    if n == 1 {
        return Err(MutError::Numerical);
    }
    let sum = crate::mlr::row_sum_exec(column);
    let ssq = crate::mlr::row_sumsq_exec(column);
    let nn = n as i128;
    let mean = crate::fixed::div_i128(sum, nn);
    proof {
        crate::fixed::lemma_tdiv_bound(sum as int, nn as int);
        assert(iabs(mean as int) * nn <= iabs(sum as int));
        assert(iabs(sum as int) <= nn * VMAX);
        assert(iabs(mean as int) <= VMAX) by (nonlinear_arith)
            requires
                iabs(mean as int) * nn <= nn * VMAX,
                nn >= 1,
                0 <= iabs(mean as int),
        ;
    }
    let msq = crate::fixed::div_i128(ssq, nn);
    proof {
        crate::fixed::lemma_tdiv_bound(ssq as int, nn as int);
        assert(iabs(msq as int) * nn <= iabs(ssq as int));
        assert(iabs(ssq as int) <= nn * (VMAX * VMAX));
        assert(iabs(msq as int) <= VMAX * VMAX) by (nonlinear_arith)
            requires
                iabs(msq as int) * nn <= nn * (VMAX * VMAX),
                nn >= 1,
                0 <= iabs(msq as int),
        ;
        assert(0 <= mean * mean <= VMAX * VMAX) by (nonlinear_arith)
            requires
                iabs(mean as int) <= VMAX,
                0 < VMAX,
        ;
    }
    let varp = msq - mean * mean;
    proof {
        assert(iabs(varp as int) <= 2 * (VMAX * VMAX));
        assert(iabs(varp * nn) <= (NMAX as int) * (2 * (VMAX * VMAX))) by (nonlinear_arith)
            requires
                iabs(varp as int) <= 2 * (VMAX * VMAX),
                1 <= nn <= NMAX as int,
                0 < VMAX,
        ;
        assert((NMAX as int) * (2 * (VMAX * VMAX)) < i128::MAX) by (nonlinear_arith)
            requires
                NMAX == 0x10_0000,
                VMAX == 0x2000_0000_0000,
        ;
    }
    let num = varp * nn;
    let vars = crate::fixed::div_i128(num, nn - 1);
    if vars < 0 {
        return Err(MutError::Numerical);
    }
    let sd = crate::fixed::isqrt(vars);
    proof {
        crate::fixed::lemma_tdiv_bound(num as int, nn as int - 1);
        assert(iabs(vars as int) <= iabs(num as int));
        assert(is_sqrt(vars as int, sd as int));
        assert(sd as int * sd as int <= vars as int);
        assert(sd < 0x100_0000_0000_0000i128) by (nonlinear_arith)
            requires
                0 <= sd,
                sd as int * sd as int <= vars as int,
                vars as int <= (NMAX as int) * (2 * (VMAX * VMAX)),
                NMAX == 0x10_0000,
                VMAX == 0x2000_0000_0000,
        ;
    }
    Ok((mean as i64, sd as i64))
}

/// Mean and sample standard deviation of the primary variable (row 0)
/// of a matrix.
///
/// Fails with `EmptyInput` on a matrix without rows or observations,
/// and with `Numerical` as [`mean_sd_column`] does.
pub fn mean_sd_dmat(values: &Matrix) -> (r: Result<(i64, i64), MutError>)
    requires
        values.wf(),
    ensures
        !(values@.len() > 0 && cols_of(values@) > 0) ==> r == Err::<(i64, i64), MutError>(
            MutError::EmptyInput,
        ),
        values@.len() > 0 && cols_of(values@) == 1 ==> r == Err::<(i64, i64), MutError>(
            MutError::Numerical,
        ),
        values@.len() > 0 && cols_of(values@) >= 2 ==> {
            &&& (r is Err <==> col_var_samp(values@[0]) < 0)
            &&& (r is Err ==> r == Err::<(i64, i64), MutError>(MutError::Numerical))
        },
        r is Ok ==> {
            &&& r->Ok_0.0 as int == col_mean(values@[0])
            &&& r->Ok_0.1 as int == col_sd_samp(values@[0])
        },
{
    let nr = values.nrows();
    let nc = values.ncols();
    if nr == 0 || nc == 0 {
        return Err(MutError::EmptyInput);
    }
    let row = values.row(0);
    proof {
        assert(bounded_vals(row@)) by {
            assert forall|j: int| 0 <= j < row@.len() implies iabs(#[trigger] row@[j] as int)
                <= VMAX by {
                assert(iabs(values@[0][j] as int) <= VMAX);
            }
        }
    }
    mean_sd_column(&row)
}

} // verus!
