//! Named per-variable value transforms.
//!
//! A small table maps variable names to a reflection constant `c`; a
//! matrix whose primary variable carries such a name has each of its
//! primary values `x` replaced by `c - x`, turning "higher is better"
//! scores into distances.  Every other variable, and any unlisted
//! name, passes through unchanged.

use vstd::prelude::*;

use crate::fixed::{iabs, SCALE, VMAX};
use crate::matrix::{cols_of, mat_wf, Matrix};
use crate::MutError;

verus! {

/// The reflection constant of a variable name: 1.0 in fixed point for
/// the cycling score, nothing for any other name.
pub open spec fn transform_offset(name: Seq<char>) -> Option<int> {
    if name == "bike_index"@ {
        Some(SCALE as int)
    } else {
        None
    }
}

/// Replaces each primary value `x` of `values` by `c - x` when
/// `varname` has a reflection constant `c` ([`transform_offset`]);
/// with any other name the matrix is returned unchanged.
///
/// Fails with `EmptyInput` on a matrix without rows or observations,
/// and with `OutOfRange` exactly when some reflected value would
/// leave the fixed-point range.
pub fn transform_values(values: &Matrix, varname: &str) -> (r: Result<Matrix, MutError>)
    requires
        values.wf(),
    ensures
        !(values@.len() > 0 && cols_of(values@) > 0) ==> r == Err::<Matrix, MutError>(
            MutError::EmptyInput,
        ),
        values@.len() > 0 && cols_of(values@) > 0 && transform_offset(varname@) is None ==> {
            &&& r is Ok
            &&& r->Ok_0@ == values@
        },
        values@.len() > 0 && cols_of(values@) > 0 && transform_offset(varname@) is Some ==> {
            &&& (r is Err <==> exists|j: int|
                0 <= j < cols_of(values@) && iabs(
                    transform_offset(varname@)->Some_0 - #[trigger] values@[0][j],
                ) > VMAX)
            &&& (r is Err ==> r == Err::<Matrix, MutError>(MutError::OutOfRange))
            &&& (r is Ok ==> {
                &&& r->Ok_0@.len() == values@.len()
                &&& r->Ok_0.wf()
                &&& forall|i: int| 1 <= i < values@.len() ==> #[trigger] r->Ok_0@[i] == values@[i]
                &&& r->Ok_0@[0].len() == cols_of(values@)
                &&& forall|j: int|
                    0 <= j < cols_of(values@) ==> #[trigger] r->Ok_0@[0][j] as int
                        == transform_offset(varname@)->Some_0 - values@[0][j]
            })
        },
{
    let nr = values.nrows();
    let nc = values.ncols();
    if nr == 0 || nc == 0 {
        return Err(MutError::EmptyInput);
    }
    let name = varname.to_owned();
    let key: String = "bike_index".to_owned();
    if !(name == key) {
        proof {
            assert(transform_offset(varname@) is None);
        }
        let out = crate::matrix::copy_matrix(values);
        return Ok(out);
    }
    proof {
        assert(varname@ == "bike_index"@);
        assert(transform_offset(varname@) == Some(SCALE as int));
    }
    let offset = SCALE;
    let mut row0: Vec<i64> = Vec::new();
    let mut j: usize = 0;
    while j < nc
        invariant
            j <= nc,
            values.wf(),
            nc == cols_of(values@),
            values@.len() > 0,
            cols_of(values@) > 0,
            transform_offset(varname@) == Some(SCALE as int),
            offset == SCALE,
            row0@.len() == j,
            forall|p: int|
                0 <= p < j ==> #[trigger] row0@[p] as int == SCALE - values@[0][p],
            forall|p: int|
                0 <= p < j ==> iabs(SCALE - #[trigger] values@[0][p] as int) <= VMAX,
        decreases nc - j,
    {
        let x = values.get(0, j);
        proof {
            assert(iabs(values@[0][j as int] as int) <= VMAX);
        }
        let v = offset - x;
        if v > VMAX || v < -VMAX {
            return Err(MutError::OutOfRange);
        }
        row0.push(v);
        j += 1;
    }
    let mut out = crate::matrix::copy_matrix(values);
    let ghost m = values@;
    out.rows.set(0, row0);
    proof {
        assert(out@.len() == m.len());
        assert forall|i: int| 1 <= i < m.len() implies #[trigger] out@[i] == m[i] by {
            assert(out@[i] == out.rows@[i]@);
        }
        assert(out@[0] == out.rows@[0]@);
        assert(mat_wf(out@)) by {
            assert forall|i: int| 0 <= i < out@.len() implies #[trigger] out@[i].len() == cols_of(
                out@,
            ) by {
                if i > 0 {
                    assert(out@[i] == m[i]);
                }
            }
            assert forall|i: int, j2: int|
                0 <= i < out@.len() && 0 <= j2 < out@[i].len() implies iabs(
                #[trigger] out@[i][j2] as int,
            ) <= VMAX by {
                if i > 0 {
                    assert(out@[i] == m[i]);
                }
            }
        }
    }
    Ok(out)
}

} // verus!
