//! Variable matrices.
//!
//! A [`Matrix`] is a rectangular table of fixed-point values with one row
//! per variable and one column per observation.  Row 0 is the primary
//! variable, the one the engine mutates; every other row is an auxiliary
//! variable.

use vstd::prelude::*;

use crate::fixed::{iabs, KMAX, NMAX, VMAX};
use crate::MutError;

verus! {

/// A (variables x observations) table of fixed-point values.
///
/// The engine's contracts all assume [`Matrix::wf`]; [`Matrix::new`] is
/// the checked way to establish it.
#[derive(Clone, Debug)]
pub struct Matrix {
    pub rows: Vec<Vec<i64>>,
}

impl View for Matrix {
    type V = Seq<Seq<i64>>;

    open spec fn view(&self) -> Seq<Seq<i64>> {
        self.rows@.map_values(|r: Vec<i64>| r@)
    }
}

/// Number of observations described by a matrix view: the width of its
/// first row, or zero if there are no rows.
pub open spec fn cols_of(m: Seq<Seq<i64>>) -> int {
    if m.len() == 0 {
        0
    } else {
        m[0].len() as int
    }
}

/// The matrix view is rectangular, within the size caps, and every value
/// is within the fixed-point range.
pub open spec fn mat_wf(m: Seq<Seq<i64>>) -> bool {
    &&& m.len() <= KMAX
    &&& cols_of(m) <= NMAX
    &&& forall|i: int| 0 <= i < m.len() ==> #[trigger] m[i].len() == cols_of(m)
    &&& forall|i: int, j: int|
        0 <= i < m.len() && 0 <= j < m[i].len() ==> iabs(#[trigger] m[i][j] as int) <= VMAX
}

impl Matrix {
    /// Well-formedness: rectangular, within the size caps, all values in
    /// range.
    pub open spec fn wf(&self) -> bool {
        mat_wf(self@)
    }

    pub open spec fn spec_nrows(&self) -> int {
        self@.len() as int
    }

    pub open spec fn spec_ncols(&self) -> int {
        cols_of(self@)
    }

    /// Number of variables (rows).
    pub fn nrows(&self) -> (r: usize)
        ensures
            r == self.spec_nrows(),
    {
        self.rows.len()
    }

    /// Number of observations (columns).
    pub fn ncols(&self) -> (r: usize)
        requires
            self.wf(),
        ensures
            r == self.spec_ncols(),
    {
        if self.rows.len() == 0 {
            0
        } else {
            self.rows[0].len()
        }
    }

    /// The value of variable `i` at observation `j`.
    pub fn get(&self, i: usize, j: usize) -> (r: i64)
        requires
            self.wf(),
            i < self.spec_nrows(),
            j < self.spec_ncols(),
        ensures
            r == self@[i as int][j as int],
    {
        proof {
            assert(self@[i as int] == self.rows@[i as int]@);
        }
        self.rows[i][j]
    }

    /// A copy of variable row `i`.
    pub fn row(&self, i: usize) -> (r: Vec<i64>)
        requires
            i < self.spec_nrows(),
        ensures
            r@ == self@[i as int],
    {
        let mut out: Vec<i64> = Vec::new();
        let n = self.rows[i].len();
        let mut j: usize = 0;
        while j < n
            invariant
                j <= n,
                i < self.rows@.len(),
                n == self.rows@[i as int].len(),
                out@ =~= self.rows@[i as int]@.subrange(0, j as int),
            decreases n - j,
        {
            out.push(self.rows[i][j]);
            j += 1;
        }
        proof {
            assert(out@ =~= self@[i as int]);
        }
        out
    }

    /// Builds a matrix after checking shape, size and value bounds.
    ///
    /// Fails with `DimensionMismatch` when the rows are ragged, and with
    /// `OutOfRange` when a size cap or the fixed-point value range is
    /// exceeded.
    pub fn new(rows: Vec<Vec<i64>>) -> (r: Result<Matrix, MutError>)
        ensures
            r is Ok ==> {
                &&& r->Ok_0.wf()
                &&& r->Ok_0.rows@ == rows@
            },
            r is Err ==> r->Err_0 == MutError::DimensionMismatch || r->Err_0
                == MutError::OutOfRange,
            r is Ok <==> mat_wf(rows@.map_values(|v: Vec<i64>| v@)),
    {
        let ghost view = rows@.map_values(|v: Vec<i64>| v@);
        if rows.len() > KMAX {
            return Err(MutError::OutOfRange);
        }
        let nr = rows.len();
        let nc = if nr == 0 {
            0
        } else {
            rows[0].len()
        };
        proof {
            assert(nc == cols_of(view));
        }
        let mut i: usize = 0;
        while i < nr
            invariant
                i <= nr,
                nr == rows@.len(),
                view == rows@.map_values(|v: Vec<i64>| v@),
                nc == cols_of(view),
                forall|a: int| 0 <= a < i ==> #[trigger] view[a].len() == nc,
            decreases nr - i,
        {
            if rows[i].len() != nc {
                proof {
                    assert(view[i as int] == rows@[i as int]@);
                }
                return Err(MutError::DimensionMismatch);
            }
            proof {
                assert(view[i as int] == rows@[i as int]@);
            }
            i += 1;
        }
        if nc > NMAX {
            return Err(MutError::OutOfRange);
        }
        let mut a: usize = 0;
        while a < nr
            invariant
                a <= nr,
                nr == rows@.len(),
                view == rows@.map_values(|v: Vec<i64>| v@),
                nc == cols_of(view),
                forall|i2: int| 0 <= i2 < nr ==> #[trigger] view[i2].len() == nc,
                forall|i2: int, j2: int|
                    0 <= i2 < a && 0 <= j2 < nc ==> iabs(#[trigger] view[i2][j2] as int) <= VMAX,
            decreases nr - a,
        {
            let mut b: usize = 0;
            while b < nc
                invariant
                    b <= nc,
                    a < nr,
                    nr == rows@.len(),
                    view == rows@.map_values(|v: Vec<i64>| v@),
                    nc == cols_of(view),
                    forall|i2: int| 0 <= i2 < nr ==> #[trigger] view[i2].len() == nc,
                    forall|j2: int|
                        0 <= j2 < b ==> iabs(#[trigger] view[a as int][j2] as int) <= VMAX,
                decreases nc - b,
            {
                proof {
                    assert(view[a as int] == rows@[a as int]@);
                }
                let v = rows[a][b];
                if v > VMAX || v < -VMAX {
                    proof {
                        assert(iabs(view[a as int][b as int] as int) > VMAX);
                    }
                    return Err(MutError::OutOfRange);
                }
                b += 1;
            }
            a += 1;
        }
        let m = Matrix { rows };
        proof {
            assert(m@ == view);
        }
        Ok(m)
    }
}

/// An exact copy of a matrix.
pub fn copy_matrix(m: &Matrix) -> (r: Matrix)
    ensures
        r@ == m@,
{
    let nr = m.nrows();
    let mut rows: Vec<Vec<i64>> = Vec::new();
    let mut i: usize = 0;
    while i < nr
        invariant
            i <= nr,
            nr == m@.len(),
            rows@.len() == i,
            forall|t: int| 0 <= t < i ==> #[trigger] rows@[t]@ == m@[t],
        decreases nr - i,
    {
        rows.push(m.row(i));
        i += 1;
    }
    let out = Matrix { rows };
    proof {
        assert(out@ =~~= m@);
    }
    out
}

} // verus!
