//! Greedy nearest-neighbour assignment: the multi-dimensional variant
//! of the matching engine.
//!
//! Where [`crate::calculate_dists`] pairs the primary-variable rows
//! alone, the functions here pair whole observations (columns) by
//! squared Euclidean distance over every variable.  Each source
//! observation claims the nearest still-unclaimed target observation;
//! sources are visited in the rank order of their primary value, so the
//! greedy choice is anchored at the extreme of the distribution.  The
//! result is a faster approximation and is not guaranteed to reach the
//! global distance minimum of the order-preserving assignment.

use vstd::prelude::*;

use crate::calculate_dists::{bounded_vals, dists_shape_ok, rank_of, unsort};
use crate::fixed::{iabs, tdiv, KMAX, NMAX, SCALE, VMAX};
use crate::matrix::{cols_of, Matrix};
use crate::MutError;

verus! {

/// Observation `i` of a matrix: the column of its per-variable values.
pub open spec fn col_of(m: Seq<Seq<i64>>, i: int) -> Seq<i64> {
    Seq::new(m.len(), |v: int| m[v][i])
}

/// Squared Euclidean distance of the first `m` coordinates.
pub open spec fn sq_dist_upto(a: Seq<i64>, b: Seq<i64>, m: int) -> int
    decreases m,
{
    if m <= 0 {
        0
    } else {
        sq_dist_upto(a, b, m - 1) + (a[m - 1] - b[m - 1]) * (a[m - 1] - b[m - 1])
    }
}

/// Squared Euclidean distance of two points.
pub open spec fn sq_dist(a: Seq<i64>, b: Seq<i64>) -> int {
    sq_dist_upto(a, b, a.len() as int)
}

/// `j` is the target that source observation `i` claims from the
/// still-unclaimed set `used`: the nearest by squared distance, the
/// lowest index among equally near ones.
pub open spec fn is_greedy_choice(
    m1: Seq<Seq<i64>>,
    m2: Seq<Seq<i64>>,
    i: int,
    used: Set<int>,
    j: int,
) -> bool {
    &&& 0 <= j < cols_of(m2)
    &&& !used.contains(j)
    &&& forall|j2: int|
        0 <= j2 < cols_of(m2) && !used.contains(j2) ==> sq_dist(col_of(m1, i), col_of(m2, j))
            < sq_dist(col_of(m1, i), col_of(m2, j2)) || (sq_dist(col_of(m1, i), col_of(m2, j))
            == sq_dist(col_of(m1, i), col_of(m2, j2)) && j <= j2)
}

/// The targets claimed by the first `t` sources of the visiting order.
pub open spec fn greedy_used(m1: Seq<Seq<i64>>, m2: Seq<Seq<i64>>, order: Seq<int>, t: int) -> Set<
    int,
>
    decreases t, 0int,
{
    if t <= 0 {
        Set::empty()
    } else {
        greedy_used(m1, m2, order, t - 1).insert(greedy_pick(m1, m2, order, t - 1))
    }
}

/// The target that the `t`-th visited source claims.
pub open spec fn greedy_pick(m1: Seq<Seq<i64>>, m2: Seq<Seq<i64>>, order: Seq<int>, t: int) -> int
    decreases t, 1int,
{
    choose|j: int| is_greedy_choice(m1, m2, order[t], greedy_used(m1, m2, order, t), j)
}

/// At most one target satisfies the greedy choice.
pub proof fn lemma_greedy_choice_unique(
    m1: Seq<Seq<i64>>,
    m2: Seq<Seq<i64>>,
    i: int,
    used: Set<int>,
    j1: int,
    j2: int,
)
    requires
        is_greedy_choice(m1, m2, i, used, j1),
        is_greedy_choice(m1, m2, i, used, j2),
    ensures
        j1 == j2,
{
}

/// Squared Euclidean distance between two points, exact in `i128`.
///
/// This is the metric of the nearest-neighbour search; it needs no
/// square root, since only comparisons of distances matter.
pub fn squared_euclidean(p1: &Vec<i64>, p2: &Vec<i64>) -> (r: i128)
    requires
        p1@.len() == p2@.len(),
        p1@.len() <= KMAX,
        bounded_vals(p1@),
        bounded_vals(p2@),
    ensures
        r as int == sq_dist(p1@, p2@),
        0 <= r as int <= p1@.len() * (2 * VMAX) * (2 * VMAX),
{
    let n = p1.len();
    let mut acc: i128 = 0;
    let mut m: usize = 0;
    while m < n
        invariant
            m <= n,
            n == p1@.len() == p2@.len(),
            n <= KMAX,
            bounded_vals(p1@),
            bounded_vals(p2@),
            acc as int == sq_dist_upto(p1@, p2@, m as int),
            0 <= acc as int <= m * (2 * VMAX) * (2 * VMAX),
        decreases n - m,
    {
        proof {
            assert(iabs(p1@[m as int] as int) <= VMAX);
            assert(iabs(p2@[m as int] as int) <= VMAX);
        }
        let d = (p1[m] as i128) - (p2[m] as i128);
        proof {
            assert(0 <= d * d <= (2 * VMAX) * (2 * VMAX)) by (nonlinear_arith)
                requires
                    iabs(d as int) <= 2 * VMAX,
                    0 < VMAX,
            ;
            assert(acc + d * d <= (m + 1) * (2 * VMAX) * (2 * VMAX)) by (nonlinear_arith)
                requires
                    0 <= acc as int <= m * (2 * VMAX) * (2 * VMAX),
                    0 <= d * d <= (2 * VMAX) * (2 * VMAX),
            ;
            assert((m + 1) * (2 * VMAX) * (2 * VMAX) <= (KMAX as int) * (2 * VMAX) * (2 * VMAX))
                by (nonlinear_arith)
                requires
                    0 <= m + 1 <= KMAX as int,
                    0 <= 2 * VMAX,
            ;
            assert((KMAX as int) * (2 * VMAX) * (2 * VMAX) < i128::MAX) by (nonlinear_arith)
                requires
                    KMAX == 0x400,
                    VMAX == 0x2000_0000_0000,
            ;
        }
        acc = acc + d * d;
        m += 1;
    }
    acc
}

/// A copy of observation (column) `i` of a matrix.
fn extract_col(m: &Matrix, i: usize) -> (r: Vec<i64>)
    requires
        m.wf(),
        i < cols_of(m@),
    ensures
        r@ =~= col_of(m@, i as int),
        r@.len() == m@.len(),
{
    let nr = m.nrows();
    let mut out: Vec<i64> = Vec::new();
    let mut v: usize = 0;
    while v < nr
        invariant
            v <= nr,
            m.wf(),
            nr == m@.len(),
            i < cols_of(m@),
            out@.len() == v,
            forall|t: int| 0 <= t < v ==> #[trigger] out@[t] == m@[t][i as int],
        decreases nr - v,
    {
        out.push(m.get(v, i));
        v += 1;
    }
    out
}

/// Runs the greedy claim process: visits the source observations in
/// the given order and lets each claim its nearest unclaimed target
/// observation.  `r[i]` is the target claimed by source `i`.
fn greedy_assign(values1: &Matrix, values2: &Matrix, order: &Vec<usize>) -> (r: Vec<usize>)
    requires
        values1.wf(),
        values2.wf(),
        dists_shape_ok(values1@, values2@),
        order@.len() == cols_of(values1@),
        forall|t: int| 0 <= t < order@.len() ==> #[trigger] order@[t] < cols_of(values1@),
        forall|t1: int, t2: int|
            0 <= t1 < t2 < order@.len() ==> order@[t1] != order@[t2],
    ensures
        r@.len() == cols_of(values1@),
        forall|t: int|
            0 <= t < order@.len() ==> #[trigger] r@[order@[t] as int] as int == greedy_pick(
                values1@,
                values2@,
                order@.map_values(|x: usize| x as int),
                t,
            ),
        forall|i: int| 0 <= i < r@.len() ==> #[trigger] r@[i] < cols_of(values2@),
{
    let ghost m1 = values1@;
    let ghost m2 = values2@;
    let ghost ord = order@.map_values(|x: usize| x as int);
    let n = values1.ncols();
    let mut results: Vec<usize> = Vec::new();
    let mut z: usize = 0;
    while z < n
        invariant
            z <= n,
            results@.len() == z,
            forall|i: int| 0 <= i < z ==> #[trigger] results@[i] == 0,
        decreases n - z,
    {
        results.push(0);
        z += 1;
    }
    let mut used: Vec<bool> = Vec::new();
    let mut z2: usize = 0;
    while z2 < n
        invariant
            z2 <= n,
            used@.len() == z2,
            forall|i: int| 0 <= i < z2 ==> #[trigger] used@[i] == false,
        decreases n - z2,
    {
        used.push(false);
        z2 += 1;
    }
    let ghost mut used_set: Set<int> = Set::empty();
    proof {
        assert(used_set =~= greedy_used(m1, m2, ord, 0));
        assert(used_set.len() == 0) by {
            assert(used_set =~= Set::<int>::empty());
        }
    }
    let mut t: usize = 0;
    while t < n
        invariant
            t <= n,
            m1 == values1@,
            m2 == values2@,
            values1.wf(),
            values2.wf(),
            dists_shape_ok(m1, m2),
            n == cols_of(m1),
            n == cols_of(m2),
            n <= NMAX,
            ord == order@.map_values(|x: usize| x as int),
            order@.len() == n,
            forall|t2: int| 0 <= t2 < n ==> #[trigger] order@[t2] < n,
            forall|t1: int, t2: int| 0 <= t1 < t2 < n ==> order@[t1] != order@[t2],
            results@.len() == n,
            used@.len() == n,
            used_set == greedy_used(m1, m2, ord, t as int),
            used_set.finite(),
            used_set.len() <= t,
            forall|j: int| used_set.contains(j) ==> 0 <= j < n,
            forall|j: int| 0 <= j < n ==> (#[trigger] used@[j] == used_set.contains(j)),
            forall|t2: int|
                0 <= t2 < t ==> #[trigger] results@[order@[t2] as int] as int == greedy_pick(
                    m1,
                    m2,
                    ord,
                    t2,
                ),
            forall|i: int| 0 <= i < n ==> #[trigger] results@[i] < n,
        decreases n - t,
    {
        let i = order[t];
        let p1 = extract_col(values1, i);
        let mut min_d: i128 = 0;
        let mut min_j: usize = 0;
        let mut found = false;
        let mut j: usize = 0;
        while j < n
            invariant
                j <= n,
                i < n,
                m1 == values1@,
                m2 == values2@,
                values1.wf(),
                values2.wf(),
                dists_shape_ok(m1, m2),
                n == cols_of(m1),
                n == cols_of(m2),
                p1@ =~= col_of(m1, i as int),
                used@.len() == n,
                forall|j2: int| 0 <= j2 < n ==> (#[trigger] used@[j2] == used_set.contains(j2)),
                found ==> {
                    &&& min_j < j
                    &&& min_j < n
                    &&& !used_set.contains(min_j as int)
                    &&& min_d as int == sq_dist(col_of(m1, i as int), col_of(m2, min_j as int))
                    &&& forall|j2: int|
                        0 <= j2 < j && !used_set.contains(j2) ==> sq_dist(
                            col_of(m1, i as int),
                            col_of(m2, min_j as int),
                        ) < sq_dist(col_of(m1, i as int), col_of(m2, j2)) || (sq_dist(
                            col_of(m1, i as int),
                            col_of(m2, min_j as int),
                        ) == sq_dist(col_of(m1, i as int), col_of(m2, j2)) && min_j <= j2)
                },
                !found ==> forall|j2: int| 0 <= j2 < j ==> used_set.contains(j2),
            decreases n - j,
        {
            if !used[j] {
                let p2 = extract_col(values2, j);
                let d = squared_euclidean(&p1, &p2);
                if !found || d < min_d {
                    min_d = d;
                    min_j = j;
                    found = true;
                }
            }
            j += 1;
        }
        proof {
            if !found {
                assert forall|j2: int| 0 <= j2 < n implies used_set.contains(j2) by {}
                assert(vstd::set_lib::set_int_range(0, n as int).subset_of(used_set));
                vstd::set_lib::lemma_int_range(0, n as int);
                vstd::set_lib::lemma_len_subset(vstd::set_lib::set_int_range(0, n as int), used_set);
                assert(false);
            }
            assert(is_greedy_choice(m1, m2, i as int, used_set, min_j as int));
            assert(ord[t as int] == i as int);
            let pick = greedy_pick(m1, m2, ord, t as int);
            assert(is_greedy_choice(m1, m2, ord[t as int], greedy_used(m1, m2, ord, t as int), pick)) by {
                assert(is_greedy_choice(
                    m1,
                    m2,
                    ord[t as int],
                    greedy_used(m1, m2, ord, t as int),
                    min_j as int,
                ));
            }
            lemma_greedy_choice_unique(m1, m2, i as int, used_set, min_j as int, pick);
            assert(pick == min_j as int);
        }
        used.set(min_j, true);
        results.set(i, min_j);
        proof {
            used_set = used_set.insert(min_j as int);
            assert(used_set == greedy_used(m1, m2, ord, t + 1));
            assert(used_set.len() <= t + 1) by {
                vstd::set_lib::lemma_len_union(
                    greedy_used(m1, m2, ord, t as int),
                    Set::empty().insert(min_j as int),
                );
                assert(greedy_used(m1, m2, ord, t as int).insert(min_j as int) =~= greedy_used(
                    m1,
                    m2,
                    ord,
                    t as int,
                ).union(Set::empty().insert(min_j as int)));
                assert(Set::<int>::empty().insert(min_j as int).len() == 1);
            }
            assert forall|t2: int|
                0 <= t2 < t + 1 implies #[trigger] results@[order@[t2] as int] as int
                == greedy_pick(m1, m2, ord, t2) by {
                if t2 < t {
                    assert(order@[t2] != order@[t as int]);
                }
            }
        }
        t += 1;
    }
    results
}

/// The positions of `v` visited in ascending rank order of its values.
pub open spec fn rank_order(v: Seq<i64>) -> Seq<int> {
    Seq::new(v.len(), |t: int| unsort(v, t))
}

/// The target observation that source observation `i` is paired with:
/// sources claim their nearest unclaimed target in ascending order of
/// their primary value.
pub open spec fn greedy_match_of(m1: Seq<Seq<i64>>, m2: Seq<Seq<i64>>, i: int) -> int {
    greedy_pick(m1, m2, rank_order(m1[0]), rank_of(m1[0], false, false, i))
}

/// The mutation distance of source observation `i` under the greedy
/// pairing: the primary-value difference to its claimed target,
/// absolute or relative.
pub open spec fn greedy_dist_at(m1: Seq<Seq<i64>>, m2: Seq<Seq<i64>>, absolute: bool, i: int) -> int {
    let b = m2[0][greedy_match_of(m1, m2, i)] as int;
    if absolute {
        b - m1[0][i]
    } else {
        tdiv((b - m1[0][i]) * SCALE, m1[0][i] as int)
    }
}

/// Relative greedy distances cannot be computed: a zero source value
/// or an out-of-range quotient.
pub open spec fn greedy_rel_fails(m1: Seq<Seq<i64>>, m2: Seq<Seq<i64>>) -> bool {
    exists|i: int|
        0 <= i < cols_of(m1) && (#[trigger] m1[0][i] == 0 || iabs(greedy_dist_at(m1, m2, false, i))
            > VMAX)
}

/// Returns the permutation that sorts `vals` -- ascending, descending,
/// or by magnitude, stable -- as a plain index vector:
/// `r[p]` is the original position of the element ranked `p`.
pub fn get_ordering_index(vals: &Vec<i64>, desc: bool, is_abs: bool) -> (r: Vec<usize>)
    requires
        vals@.len() <= NMAX,
        bounded_vals(vals@),
    ensures
        r@.len() == vals@.len(),
        forall|j: int|
            0 <= j < vals@.len() ==> #[trigger] r@[rank_of(vals@, desc, is_abs, j)] as int == j,
        forall|p: int| 0 <= p < vals@.len() ==> 0 <= #[trigger] r@[p] < vals@.len(),
{
    let oi = crate::calculate_dists::get_ordering_index(vals, desc, is_abs);
    proof {
        crate::calculate_dists::lemma_ordering_properties(vals@, desc, is_abs, oi);
    }
    oi.index_sort
}

/// Pairs each source observation with a distinct target observation:
/// each source, visited in ascending order of its primary value,
/// claims the nearest unclaimed target by squared Euclidean distance
/// over all variables.  `r[i]` is the target claimed by source `i`.
pub fn order_vectors(values1: &Matrix, values2: &Matrix) -> (r: Result<Vec<usize>, MutError>)
    requires
        values1.wf(),
        values2.wf(),
    ensures
        !(values1@.len() > 0 && cols_of(values1@) > 0) ==> r == Err::<Vec<usize>, MutError>(
            MutError::EmptyInput,
        ),
        values1@.len() > 0 && cols_of(values1@) > 0 && !dists_shape_ok(values1@, values2@) ==> r
            == Err::<Vec<usize>, MutError>(MutError::DimensionMismatch),
        dists_shape_ok(values1@, values2@) ==> r is Ok,
        r is Ok ==> {
            &&& r->Ok_0@.len() == cols_of(values1@)
            &&& forall|i: int|
                0 <= i < cols_of(values1@) ==> #[trigger] r->Ok_0@[i] as int == greedy_match_of(
                    values1@,
                    values2@,
                    i,
                )
            &&& forall|i: int|
                0 <= i < cols_of(values1@) ==> #[trigger] r->Ok_0@[i] < cols_of(values2@)
        },
{
    let nr1 = values1.nrows();
    let nc1 = values1.ncols();
    if nr1 == 0 || nc1 == 0 {
        return Err(MutError::EmptyInput);
    }
    if nr1 != values2.nrows() || nc1 != values2.ncols() {
        return Err(MutError::DimensionMismatch);
    }
    let ghost m1 = values1@;
    let ghost m2 = values2@;
    let v1 = values1.row(0);
    proof {
        assert(crate::calculate_dists::bounded_vals(v1@)) by {
            assert forall|j: int| 0 <= j < v1@.len() implies iabs(#[trigger] v1@[j] as int)
                <= VMAX by {
                assert(iabs(m1[0][j] as int) <= VMAX);
            }
        }
    }
    let oi = crate::calculate_dists::get_ordering_index(&v1, false, false);
    proof {
        crate::calculate_dists::lemma_ordering_properties(v1@, false, false, oi);
    }
    let results = greedy_assign(values1, values2, &oi.index_sort);
    proof {
        let ord = oi.index_sort@.map_values(|x: usize| x as int);
        assert(ord =~= rank_order(m1[0])) by {
            assert forall|t: int| 0 <= t < nc1 implies ord[t] == rank_order(m1[0])[t] by {
                crate::calculate_dists::lemma_sorted_at(v1@, oi, t);
            }
        }
        assert forall|i: int| 0 <= i < nc1 implies #[trigger] results@[i] as int
            == greedy_match_of(m1, m2, i) by {
            crate::calculate_dists::lemma_rank_lt(v1@, false, false, i, v1@.len() as int);
            let t = rank_of(m1[0], false, false, i);
            assert(oi.index_sort@[t] as int == i);
            assert(results@[oi.index_sort@[t] as int] as int == greedy_pick(m1, m2, ord, t));
        }
    }
    Ok(results)
}

/// Computes per-observation mutation distances through the greedy
/// multi-dimensional pairing ([`order_vectors`]): each source
/// observation's primary value is compared with the primary value of
/// the target observation nearest to it in the full variable space.
///
/// Fails with `EmptyInput` and `DimensionMismatch` as the
/// order-preserving engine does, and -- in relative mode -- with
/// `Numerical` exactly in the cases of [`greedy_rel_fails`].
pub fn calculate_dists(values1: &Matrix, values2: &Matrix, absolute: bool) -> (r: Result<
    Vec<i64>,
    MutError,
>)
    requires
        values1.wf(),
        values2.wf(),
    ensures
        !(values1@.len() > 0 && cols_of(values1@) > 0) ==> r == Err::<Vec<i64>, MutError>(
            MutError::EmptyInput,
        ),
        values1@.len() > 0 && cols_of(values1@) > 0 && !dists_shape_ok(values1@, values2@) ==> r
            == Err::<Vec<i64>, MutError>(MutError::DimensionMismatch),
        dists_shape_ok(values1@, values2@) ==> (r is Err <==> !absolute && greedy_rel_fails(
            values1@,
            values2@,
        )),
        dists_shape_ok(values1@, values2@) && r is Err ==> r == Err::<Vec<i64>, MutError>(
            MutError::Numerical,
        ),
        r is Ok ==> {
            &&& r->Ok_0@.len() == cols_of(values1@)
            &&& forall|i: int|
                0 <= i < cols_of(values1@) ==> #[trigger] r->Ok_0@[i] as int == greedy_dist_at(
                    values1@,
                    values2@,
                    absolute,
                    i,
                )
            &&& forall|i: int|
                0 <= i < cols_of(values1@) ==> iabs(#[trigger] r->Ok_0@[i] as int) <= 2 * VMAX
        },
{
    let ghost m1 = values1@;
    let ghost m2 = values2@;
    let matches = match order_vectors(values1, values2) {
        Ok(v) => v,
        Err(e) => {
            return Err(e);
        },
    };
    let n = values1.ncols();
    let v1 = values1.row(0);
    let v2 = values2.row(0);
    let mut out: Vec<i64> = Vec::new();
    let mut i: usize = 0;
    while i < n
        invariant
            i <= n,
            m1 == values1@,
            m2 == values2@,
            values1.wf(),
            values2.wf(),
            dists_shape_ok(m1, m2),
            n == cols_of(m1),
            v1@ == m1[0],
            v2@ == m2[0],
            matches@.len() == n,
            forall|t: int|
                0 <= t < n ==> #[trigger] matches@[t] as int == greedy_match_of(m1, m2, t),
            forall|t: int| 0 <= t < n ==> #[trigger] matches@[t] < cols_of(m2),
            out@.len() == i,
            forall|t: int|
                0 <= t < i ==> #[trigger] out@[t] as int == greedy_dist_at(m1, m2, absolute, t),
            forall|t: int| 0 <= t < i ==> iabs(#[trigger] out@[t] as int) <= 2 * VMAX,
            !absolute ==> forall|t: int|
                0 <= t < i ==> #[trigger] m1[0][t] != 0 && iabs(greedy_dist_at(m1, m2, false, t))
                    <= VMAX,
        decreases n - i,
    {
        let a = v1[i];
        let b = v2[matches[i]];
        proof {
            assert(iabs(m1[0][i as int] as int) <= VMAX);
            assert(iabs(m2[0][matches@[i as int] as int] as int) <= VMAX);
        }
        if absolute {
            let d = b - a;
            out.push(d);
        } else {
            if a == 0 {
                proof {
                    assert(greedy_rel_fails(m1, m2));
                }
                return Err(MutError::Numerical);
            }
            proof {
                assert((b - a) * (SCALE as int) < i128::MAX && -((b - a) * (SCALE as int))
                    < i128::MAX) by (nonlinear_arith)
                    requires
                        -(2 * VMAX) <= b - a <= 2 * VMAX,
                        SCALE == 1_000_000,
                        VMAX == 0x2000_0000_0000,
                ;
            }
            let num = ((b - a) as i128) * (SCALE as i128);
            let q = crate::fixed::div_i128(num, a as i128);
            proof {
                assert(q as int == greedy_dist_at(m1, m2, false, i as int));
            }
            if q > (VMAX as i128) || q < -(VMAX as i128) {
                proof {
                    assert(greedy_rel_fails(m1, m2));
                }
                return Err(MutError::Numerical);
            }
            out.push(q as i64);
        }
        i += 1;
    }
    proof {
        if !absolute {
            assert(!greedy_rel_fails(m1, m2));
        }
    }
    Ok(out)
}

} // verus!
