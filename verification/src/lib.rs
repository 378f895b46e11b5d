//! Distribution-matching and adjustment engine.
//!
//! Given two populations described by variable matrices (one row per
//! variable, one column per observation, row 0 the primary variable),
//! the library computes for every observation of the source population a
//! scalar mutation signal: how far, and in which direction, the primary
//! variable should move so that the source distribution comes to resemble
//! the target distribution.  The signal can be adjusted by a regression
//! step that swaps the source population's dependency on the auxiliary
//! variables for the target population's, and is finally averaged within
//! observation groups.
//!
//! All numeric values are fixed-point: an `i64` holding the real quantity
//! multiplied by [`fixed::SCALE`].

use vstd::prelude::*;

pub mod calculate_dists;
pub mod fixed;
pub mod matrix;
pub mod mlr;
pub mod sort_fns;
pub mod transform;
pub mod utils;
pub mod vector_fns;

use crate::matrix::Matrix;

verus! {

/// Why a computation was rejected.  Every failure is fatal: the caller is
/// expected to abort and report it.
#[derive(Clone, Copy, Debug, PartialEq, Eq, Structural)]
pub enum MutError {
    /// An input matrix or vector was empty where data is required.
    EmptyInput,
    /// Two inputs that must have identical shape did not.
    DimensionMismatch,
    /// A value or dimension exceeded the bounds the engine supports.
    OutOfRange,
    /// A fixed-point computation failed: division by zero, a
    /// zero-variance variable, a singular regression system, or an
    /// intermediate value too large to represent.
    Numerical,
}

/// How many of the first `m` observations carry group id `g`.
pub open spec fn group_count_upto(groups: Seq<usize>, g: int, m: int) -> int
    decreases m,
{
    if m <= 0 {
        0
    } else {
        group_count_upto(groups, g, m - 1) + if groups[m - 1] == g {
            1int
        } else {
            0int
        }
    }
}

/// Sum of the distances of the first `m` observations carrying group
/// id `g`.
pub open spec fn group_sum_upto(dists: Seq<i64>, groups: Seq<usize>, g: int, m: int) -> int
    decreases m,
{
    if m <= 0 {
        0
    } else {
        group_sum_upto(dists, groups, g, m - 1) + if groups[m - 1] == g {
            dists[m - 1] as int
        } else {
            0int
        }
    }
}

/// The largest group id among the first `m` observations.
pub open spec fn max_group_upto(groups: Seq<usize>, m: int) -> int
    decreases m,
{
    if m <= 0 {
        0
    } else {
        let rest = max_group_upto(groups, m - 1);
        if groups[m - 1] > rest {
            groups[m - 1] as int
        } else {
            rest
        }
    }
}

/// The largest group id observed.
pub open spec fn max_group(groups: Seq<usize>) -> int {
    max_group_upto(groups, groups.len() as int)
}

/// The mean distance of group `g`: sum over count, or zero for a group
/// no observation carries.
pub open spec fn group_mean(dists: Seq<i64>, groups: Seq<usize>, g: int) -> int {
    let c = group_count_upto(groups, g, groups.len() as int);
    if c == 0 {
        0
    } else {
        crate::fixed::tdiv(group_sum_upto(dists, groups, g, groups.len() as int), c)
    }
}

/// Averages a per-observation signal within groups.
///
/// `groups[i]` is the 1-based group id of observation `i`; the result
/// holds, for each id from 1 to the largest observed, the mean of the
/// distances of its observations (`0` for an id none carries).
/// Observations with group id 0 are discarded, as the 1-based source
/// ids never use slot 0.
///
/// Fails with `DimensionMismatch` when the two inputs' lengths differ,
/// with `EmptyInput` when they are empty, and with `OutOfRange` when a
/// group id exceeds the supported maximum.
pub fn aggregate_to_groups(dists: &Vec<i64>, groups: &Vec<usize>) -> (r: Result<
    Vec<i64>,
    MutError,
>)
    requires
        forall|i: int|
            0 <= i < dists@.len() ==> crate::fixed::iabs(#[trigger] dists@[i] as int) <= 2
                * crate::fixed::VMAX,
    ensures
        dists@.len() != groups@.len() ==> r == Err::<Vec<i64>, MutError>(
            MutError::DimensionMismatch,
        ),
        dists@.len() == groups@.len() && groups@.len() == 0 ==> r == Err::<Vec<i64>, MutError>(
            MutError::EmptyInput,
        ),
        dists@.len() == groups@.len() && groups@.len() > 0 && max_group(groups@)
            >= crate::fixed::NMAX ==> r == Err::<Vec<i64>, MutError>(MutError::OutOfRange),
        dists@.len() == groups@.len() && groups@.len() > 0 && max_group(groups@)
            < crate::fixed::NMAX ==> r is Ok,
        r is Ok ==> {
            &&& r->Ok_0@.len() == max_group(groups@)
            &&& forall|g: int|
                1 <= g <= max_group(groups@) ==> #[trigger] r->Ok_0@[g - 1] as int == group_mean(
                    dists@,
                    groups@,
                    g,
                )
        },
{
    let n = dists.len();
    if n != groups.len() {
        return Err(MutError::DimensionMismatch);
    }
    if n == 0 {
        return Err(MutError::EmptyInput);
    }
    let mut mx: usize = 0;
    let mut i: usize = 0;
    while i < n
        invariant
            i <= n,
            n == groups@.len(),
            mx as int == max_group_upto(groups@, i as int),
        decreases n - i,
    {
        if groups[i] > mx {
            mx = groups[i];
        }
        i += 1;
    }
    if mx >= crate::fixed::NMAX {
        return Err(MutError::OutOfRange);
    }
    let mut counts: Vec<usize> = Vec::new();
    let mut sums: Vec<i128> = Vec::new();
    let mut z: usize = 0;
    while z <= mx
        invariant
            z <= mx + 1,
            mx < crate::fixed::NMAX,
            counts@.len() == z,
            sums@.len() == z,
            forall|g: int| 0 <= g < z ==> #[trigger] counts@[g] == 0,
            forall|g: int| 0 <= g < z ==> #[trigger] sums@[g] == 0,
        decreases mx + 1 - z,
    {
        counts.push(0);
        sums.push(0);
        z += 1;
    }
    let mut i2: usize = 0;
    while i2 < n
        invariant
            i2 <= n,
            n == dists@.len() == groups@.len(),
            mx as int == max_group(groups@),
            mx < crate::fixed::NMAX,
            counts@.len() == mx + 1,
            sums@.len() == mx + 1,
            forall|i3: int|
                0 <= i3 < dists@.len() ==> crate::fixed::iabs(#[trigger] dists@[i3] as int) <= 2
                    * crate::fixed::VMAX,
            forall|g: int|
                0 <= g <= mx ==> #[trigger] counts@[g] as int == group_count_upto(
                    groups@,
                    g,
                    i2 as int,
                ),
            forall|g: int|
                0 <= g <= mx ==> #[trigger] sums@[g] as int == group_sum_upto(
                    dists@,
                    groups@,
                    g,
                    i2 as int,
                ),
            forall|g: int| 0 <= g <= mx ==> #[trigger] counts@[g] <= i2,
            forall|g: int|
                0 <= g <= mx ==> crate::fixed::iabs(#[trigger] sums@[g] as int) <= (
                counts@[g] as int) * (2 * crate::fixed::VMAX),
        decreases n - i2,
    {
        let g = groups[i2];
        proof {
            assert(max_group_upto(groups@, n as int) >= groups@[i2 as int] as int) by {
                lemma_max_group_covers(groups@, i2 as int, n as int);
            }
            assert(crate::fixed::iabs(dists@[i2 as int] as int) <= 2 * crate::fixed::VMAX);
        }
        let c0 = counts[g];
        let s0 = sums[g];
        counts.set(g, c0 + 1);
        sums.set(g, s0 + (dists[i2] as i128));
        proof {
            assert forall|g2: int|
                0 <= g2 <= mx implies #[trigger] counts@[g2] as int == group_count_upto(
                groups@,
                g2,
                i2 + 1,
            ) by {}
            assert forall|g2: int|
                0 <= g2 <= mx implies #[trigger] sums@[g2] as int == group_sum_upto(
                dists@,
                groups@,
                g2,
                i2 + 1,
            ) by {}
        }
        i2 += 1;
    }
    let mut out: Vec<i64> = Vec::new();
    let mut g: usize = 1;
    while g <= mx
        invariant
            1 <= g <= mx + 1,
            mx < crate::fixed::NMAX,
            n == dists@.len() == groups@.len(),
            mx as int == max_group(groups@),
            counts@.len() == mx + 1,
            sums@.len() == mx + 1,
            forall|g2: int|
                0 <= g2 <= mx ==> #[trigger] counts@[g2] as int == group_count_upto(
                    groups@,
                    g2,
                    n as int,
                ),
            forall|g2: int|
                0 <= g2 <= mx ==> #[trigger] sums@[g2] as int == group_sum_upto(
                    dists@,
                    groups@,
                    g2,
                    n as int,
                ),
            forall|g2: int|
                0 <= g2 <= mx ==> crate::fixed::iabs(#[trigger] sums@[g2] as int) <= (
                counts@[g2] as int) * (2 * crate::fixed::VMAX),
            out@.len() == g - 1,
            forall|g2: int|
                1 <= g2 < g ==> #[trigger] out@[g2 - 1] as int == group_mean(dists@, groups@, g2),
        decreases mx + 1 - g,
    {
        let c = counts[g];
        if c == 0 {
            out.push(0);
        } else {
            let s = sums[g];
            proof {
                crate::fixed::lemma_tdiv_bound(s as int, c as int);
                assert(crate::fixed::iabs(crate::fixed::tdiv(s as int, c as int)) * (c as int)
                    <= crate::fixed::iabs(s as int));
                assert(crate::fixed::iabs(crate::fixed::tdiv(s as int, c as int)) <= 2
                    * crate::fixed::VMAX) by (nonlinear_arith)
                    requires
                        crate::fixed::iabs(crate::fixed::tdiv(s as int, c as int)) * (c as int)
                            <= crate::fixed::iabs(s as int),
                        crate::fixed::iabs(s as int) <= (c as int) * (2 * crate::fixed::VMAX),
                        c as int >= 1,
                        0 <= crate::fixed::iabs(crate::fixed::tdiv(s as int, c as int)),
                ;
            }
            let q = crate::fixed::div_i128(s, c as i128);
            out.push(q as i64);
        }
        g += 1;
    }
    Ok(out)
}

/// A later prefix maximum is at least any element seen so far.
proof fn lemma_max_group_covers(groups: Seq<usize>, i: int, m: int)
    requires
        0 <= i < m <= groups.len(),
    ensures
        max_group_upto(groups, m) >= groups[i] as int,
    decreases m,
{
    if i < m - 1 {
        lemma_max_group_covers(groups, i, m - 1);
    }
}

/// The primary row of the source matrix after the regression
/// adjustment, as fixed-point values.
pub open spec fn adjusted_first_row(m1: Seq<Seq<i64>>, m2: Seq<Seq<i64>>) -> Seq<i64> {
    Seq::new(
        crate::matrix::cols_of(m1) as nat,
        |o: int|
            crate::mlr::adj_val(
                crate::mlr::std_mat(m1, m2),
                crate::mlr::beta_seq(crate::mlr::std_mat(m1, m2)),
                crate::mlr::beta_seq(crate::mlr::std_mat(m2, m1)),
                o,
            ) as i64,
    )
}

/// The source matrix with its primary row adjusted.
pub open spec fn adjusted_mat(m1: Seq<Seq<i64>>, m2: Seq<Seq<i64>>) -> Seq<Seq<i64>> {
    m1.update(0, adjusted_first_row(m1, m2))
}

/// The source matrix as the mutation pipeline sees it: adjusted when
/// auxiliary variables are present, untouched otherwise.
pub open spec fn pipeline_mat(m1: Seq<Seq<i64>>, m2: Seq<Seq<i64>>) -> Seq<Seq<i64>> {
    if m1.len() > 1 {
        adjusted_mat(m1, m2)
    } else {
        m1
    }
}

/// The per-observation relative mutation distances of the (possibly
/// adjusted) source matrix against the target matrix.
pub open spec fn mutation_dists(m1a: Seq<Seq<i64>>, m2: Seq<Seq<i64>>) -> Seq<i64> {
    Seq::new(
        crate::matrix::cols_of(m1a) as nat,
        |j: int| crate::calculate_dists::dist_at(m1a[0], m2[0], false, j) as i64,
    )
}

/// The whole pipeline fails on a numerical case: the adjustment (when
/// auxiliary variables are present) or the relative distances.
pub open spec fn uamutate_fails(m1: Seq<Seq<i64>>, m2: Seq<Seq<i64>>) -> bool {
    ||| (m1.len() > 1 && crate::mlr::adj_fails(m1, m2))
    ||| crate::calculate_dists::rel_fails(pipeline_mat(m1, m2)[0], m2[0])
}

/// Computes per-group mutation signals: how much, relative to its own
/// value, each source observation's primary variable should move to
/// make the source distribution resemble the target distribution.
///
/// When auxiliary variables are present, the source matrix's primary
/// row is first rewritten by the regression adjustment
/// ([`crate::mlr::adj_for_beta`]); the relative distances of the
/// (possibly adjusted) primary row against the target's are then
/// computed by the order-preserving assignment
/// ([`crate::calculate_dists::calculate_dists`]), and averaged within
/// the source observations' groups ([`aggregate_to_groups`]).
///
/// Fails with `EmptyInput` when the source matrix is empty, with
/// `DimensionMismatch` when the two matrices' shapes or the group
/// vector's length disagree, with `OutOfRange` when a group id
/// exceeds the supported maximum, and with `Numerical` exactly in the
/// cases of [`uamutate_fails`].
pub fn uamutate(values1: &Matrix, values2: &Matrix, groups1: &Vec<usize>) -> (r: Result<
    Vec<i64>,
    MutError,
>)
    requires
        values1.wf(),
        values2.wf(),
    ensures
        !(values1@.len() > 0 && crate::matrix::cols_of(values1@) > 0) ==> r == Err::<
            Vec<i64>,
            MutError,
        >(MutError::EmptyInput),
        values1@.len() > 0 && crate::matrix::cols_of(values1@) > 0
            && !(crate::calculate_dists::dists_shape_ok(values1@, values2@)
            && groups1@.len() == crate::matrix::cols_of(values1@)) ==> r == Err::<
            Vec<i64>,
            MutError,
        >(MutError::DimensionMismatch),
        crate::calculate_dists::dists_shape_ok(values1@, values2@) && groups1@.len()
            == crate::matrix::cols_of(values1@) && max_group(groups1@) >= crate::fixed::NMAX
            ==> r == Err::<Vec<i64>, MutError>(MutError::OutOfRange),
        crate::calculate_dists::dists_shape_ok(values1@, values2@) && groups1@.len()
            == crate::matrix::cols_of(values1@) && max_group(groups1@) < crate::fixed::NMAX ==> {
            &&& (r is Err <==> uamutate_fails(values1@, values2@))
            &&& (r is Err ==> r == Err::<Vec<i64>, MutError>(MutError::Numerical))
        },
        r is Ok ==> {
            &&& r->Ok_0@.len() == max_group(groups1@)
            &&& forall|g: int|
                1 <= g <= max_group(groups1@) ==> #[trigger] r->Ok_0@[g - 1] as int == group_mean(
                    mutation_dists(pipeline_mat(values1@, values2@), values2@),
                    groups1@,
                    g,
                )
        },
{
    let ghost m1 = values1@;
    let ghost m2 = values2@;
    let nr = values1.nrows();
    let nc = values1.ncols();
    if nr == 0 || nc == 0 {
        return Err(MutError::EmptyInput);
    }
    if nr != values2.nrows() || nc != values2.ncols() || groups1.len() != nc {
        return Err(MutError::DimensionMismatch);
    }
    let mut mx: usize = 0;
    let mut i: usize = 0;
    let ngroups = groups1.len();
    while i < ngroups
        invariant
            i <= ngroups,
            ngroups == groups1@.len(),
            mx as int == max_group_upto(groups1@, i as int),
        decreases ngroups - i,
    {
        if groups1[i] > mx {
            mx = groups1[i];
        }
        i += 1;
    }
    if mx >= crate::fixed::NMAX {
        return Err(MutError::OutOfRange);
    }
    let mut work = crate::matrix::copy_matrix(values1);
    if nr > 1 {
        match crate::mlr::adj_for_beta(&mut work, values2) {
            Ok(()) => (),
            Err(_) => {
                proof {
                    assert(crate::mlr::adj_fails(m1, m2));
                    assert(uamutate_fails(m1, m2));
                }
                return Err(MutError::Numerical);
            },
        }
        proof {
            assert(work@ =~~= adjusted_mat(m1, m2)) by {
                assert(work@[0] =~= adjusted_first_row(m1, m2));
            }
        }
    }
    proof {
        assert(work@ == pipeline_mat(m1, m2));
    }
    let dists = match crate::calculate_dists::calculate_dists(&work, values2, false) {
        Ok(d) => d,
        Err(_) => {
            proof {
                assert(crate::calculate_dists::rel_fails(pipeline_mat(m1, m2)[0], m2[0]));
                assert(uamutate_fails(m1, m2));
            }
            return Err(MutError::Numerical);
        },
    };
    proof {
        assert(dists@ =~= mutation_dists(pipeline_mat(m1, m2), m2));
    }
    let sums = match aggregate_to_groups(&dists, groups1) {
        Ok(s) => s,
        Err(_) => {
            proof {
                assert(false);
            }
            return Err(MutError::Numerical);
        },
    };
    proof {
        assert(!uamutate_fails(m1, m2));
    }
    Ok(sums)
}

} // verus!
