//! Ranking and the order-preserving assignment engine.
//!
//! [`get_ordering_index`] computes the stable sort permutation of a
//! value vector together with its inverse.  [`calculate_dists`] pairs
//! the primary-variable row of a source matrix with the one of a target
//! matrix by the minimum-total-distance order-preserving assignment and
//! returns one signed distance per source observation, in the source's
//! original observation order.

use vstd::prelude::*;

use crate::fixed::{iabs, tdiv, NMAX, SCALE, VMAX};
use crate::matrix::{cols_of, Matrix};
use crate::MutError;

verus! {

/// Every value is within the fixed-point range.
pub open spec fn bounded_vals(v: Seq<i64>) -> bool {
    forall|j: int| 0 <= j < v.len() ==> iabs(#[trigger] v[j] as int) <= VMAX
}

/// The sort key of element `j`: the value itself, or its magnitude.
pub open spec fn key_of(v: Seq<i64>, j: int, is_abs: bool) -> int {
    if is_abs {
        iabs(v[j] as int)
    } else {
        v[j] as int
    }
}

/// Strict "comes before" order of the sort: by key, ascending or
/// descending, with ties broken by the original position (stability).
pub open spec fn lex_before(v: Seq<i64>, desc: bool, is_abs: bool, j1: int, j2: int) -> bool {
    let k1 = key_of(v, j1, is_abs);
    let k2 = key_of(v, j2, is_abs);
    if desc {
        k1 > k2 || (k1 == k2 && j1 < j2)
    } else {
        k1 < k2 || (k1 == k2 && j1 < j2)
    }
}

/// How many of the first `m` elements come before element `j` in the
/// sort order.
pub open spec fn rank_upto(v: Seq<i64>, desc: bool, is_abs: bool, j: int, m: int) -> int
    decreases m,
{
    if m <= 0 {
        0
    } else {
        rank_upto(v, desc, is_abs, j, m - 1) + if lex_before(v, desc, is_abs, m - 1, j) {
            1int
        } else {
            0int
        }
    }
}

/// The position element `j` takes in the sorted order: the number of
/// elements that come before it.
pub open spec fn rank_of(v: Seq<i64>, desc: bool, is_abs: bool, j: int) -> int {
    rank_upto(v, desc, is_abs, j, v.len() as int)
}

proof fn lemma_rank_upto_le(v: Seq<i64>, desc: bool, is_abs: bool, j: int, m: int)
    requires
        0 <= m,
    ensures
        0 <= rank_upto(v, desc, is_abs, j, m) <= m,
    decreases m,
{
    if m > 0 {
        lemma_rank_upto_le(v, desc, is_abs, j, m - 1);
    }
}

/// An element is never counted before itself, so its rank stays below
/// the number of elements.
pub proof fn lemma_rank_lt(v: Seq<i64>, desc: bool, is_abs: bool, j: int, m: int)
    requires
        0 <= j < m,
    ensures
        0 <= rank_upto(v, desc, is_abs, j, m) < m,
    decreases m,
{
    if m - 1 == j {
        lemma_rank_upto_le(v, desc, is_abs, j, m - 1);
    } else {
        lemma_rank_lt(v, desc, is_abs, j, m - 1);
    }
}

/// Ranks respect the sort order: whatever comes before has a strictly
/// smaller rank.
proof fn lemma_rank_mono(v: Seq<i64>, desc: bool, is_abs: bool, j1: int, j2: int, m: int)
    requires
        0 <= j1,
        0 <= m,
        lex_before(v, desc, is_abs, j1, j2),
    ensures
        rank_upto(v, desc, is_abs, j2, m) >= rank_upto(v, desc, is_abs, j1, m) + if j1 < m {
            1int
        } else {
            0int
        },
    decreases m,
{
    if m > 0 {
        lemma_rank_mono(v, desc, is_abs, j1, j2, m - 1);
    }
}

/// Distinct elements have distinct ranks.
pub proof fn lemma_rank_injective(v: Seq<i64>, desc: bool, is_abs: bool, j1: int, j2: int)
    requires
        0 <= j1 < v.len(),
        0 <= j2 < v.len(),
        j1 != j2,
    ensures
        rank_of(v, desc, is_abs, j1) != rank_of(v, desc, is_abs, j2),
{
    if lex_before(v, desc, is_abs, j1, j2) {
        lemma_rank_mono(v, desc, is_abs, j1, j2, v.len() as int);
    } else {
        assert(lex_before(v, desc, is_abs, j2, j1));
        lemma_rank_mono(v, desc, is_abs, j2, j1, v.len() as int);
    }
}

/// Position `i` is the rank of some element of `v`.
pub open spec fn rank_hits(v: Seq<i64>, desc: bool, is_abs: bool, i: int) -> bool {
    exists|j: int| 0 <= j < v.len() && #[trigger] rank_of(v, desc, is_abs, j) == i
}

/// Every position in `0 .. len` is some element's rank.
pub proof fn lemma_rank_surjective(v: Seq<i64>, desc: bool, is_abs: bool)
    ensures
        forall|i: int| 0 <= i < v.len() ==> #[trigger] rank_hits(v, desc, is_abs, i),
{
    let n = v.len() as int;
    let f = |j: int| rank_of(v, desc, is_abs, j);
    let dom = vstd::set_lib::set_int_range(0, n);
    let img = dom.map(f);
    vstd::set_lib::lemma_int_range(0, n);
    assert(vstd::relations::injective_on(f, dom)) by {
        assert forall|j1: int, j2: int|
            dom.contains(j1) && dom.contains(j2) && #[trigger] f(j1) == #[trigger] f(
                j2,
            ) implies j1 == j2 by {
            if j1 != j2 {
                lemma_rank_injective(v, desc, is_abs, j1, j2);
            }
        }
    }
    vstd::set_lib::lemma_map_size(dom, img, f);
    assert(img.subset_of(dom)) by {
        assert forall|i: int| img.contains(i) implies dom.contains(i) by {
            let j = choose|j: int| dom.contains(j) && f(j) == i;
            lemma_rank_lt(v, desc, is_abs, j, n);
        }
    }
    vstd::set_lib::lemma_subset_equality(img, dom);
    assert forall|i: int| 0 <= i < v.len() implies #[trigger] rank_hits(v, desc, is_abs, i) by {
        assert(dom.contains(i));
        assert(img.contains(i));
        let j = choose|j: int| dom.contains(j) && f(j) == i;
        assert(0 <= j < v.len() && rank_of(v, desc, is_abs, j) == i);
    }
}

/// A pairing cost larger than any sum of element distances, used as the
/// "unreachable" weight in the assignment table.
const DP_INF: i128 = 0x1_0000_0000_0000_0000_0000_0000;

/// `|a - b|`, the assignment cost of pairing two values.
fn abs_diff(a: i64, b: i64) -> (r: i64)
    requires
        iabs(a as int) <= VMAX,
        iabs(b as int) <= VMAX,
    ensures
        r as int == iabs(a as int - b as int),
        0 <= r as int <= 2 * VMAX,
{
    if a >= b {
        a - b
    } else {
        b - a
    }
}

/// `p` pairs the first `n` positions with `n` distinct positions in
/// strictly increasing order: an order-preserving (non-crossing)
/// bijection between two sequences of length `n`.
pub open spec fn is_monotone_bijection(p: Seq<int>, n: int) -> bool {
    &&& p.len() == n
    &&& forall|i: int| 0 <= i < n ==> 0 <= #[trigger] p[i] < n
    &&& forall|i1: int, i2: int| 0 <= i1 < i2 < n ==> p[i1] < p[i2]
}

/// The pairing that matches every position with itself.
pub open spec fn ident_pairing(n: int) -> Seq<int> {
    Seq::new(n as nat, |i: int| i)
}

/// Total absolute cost of pairing `a[i]` with `b[p[i]]` for the first
/// `m` positions.
pub open spec fn pairing_cost_upto(a: Seq<i64>, b: Seq<i64>, p: Seq<int>, m: int) -> int
    decreases m,
{
    if m <= 0 {
        0
    } else {
        pairing_cost_upto(a, b, p, m - 1) + iabs(a[m - 1] - b[p[m - 1]])
    }
}

/// Total absolute cost of an order-preserving pairing of `a` and `b`.
pub open spec fn pairing_cost(a: Seq<i64>, b: Seq<i64>, p: Seq<int>) -> int {
    pairing_cost_upto(a, b, p, a.len() as int)
}

proof fn lemma_monotone_above(p: Seq<int>, n: int, i: int)
    requires
        is_monotone_bijection(p, n),
        0 <= i < n,
    ensures
        p[i] >= i,
    decreases i,
{
    if i > 0 {
        lemma_monotone_above(p, n, i - 1);
    }
}

proof fn lemma_monotone_below(p: Seq<int>, n: int, i: int)
    requires
        is_monotone_bijection(p, n),
        0 <= i < n,
    ensures
        p[i] <= i,
    decreases n - i,
{
    if i < n - 1 {
        lemma_monotone_below(p, n, i + 1);
    }
}

/// Between two sequences of the same length there is exactly one
/// order-preserving bijection: the position-wise one.
pub proof fn lemma_monotone_bijection_is_identity(p: Seq<int>, n: int)
    requires
        is_monotone_bijection(p, n),
    ensures
        p =~= ident_pairing(n),
{
    assert forall|i: int| 0 <= i < n implies p[i] == i by {
        lemma_monotone_above(p, n, i);
        lemma_monotone_below(p, n, i);
    }
}

proof fn lemma_pairing_cost_upto_equal(a: Seq<i64>, b: Seq<i64>, p: Seq<int>, q: Seq<int>, m: int)
    requires
        forall|i: int| 0 <= i < m ==> #[trigger] p[i] == q[i],
    ensures
        pairing_cost_upto(a, b, p, m) == pairing_cost_upto(a, b, q, m),
    decreases m,
{
    if m > 0 {
        lemma_pairing_cost_upto_equal(a, b, p, q, m - 1);
    }
}

/// Assignment optimality.  Between equal-length sequences the
/// order-preserving bijections collapse to the position-wise pairing,
/// so no order-preserving bijection costs strictly less than the one
/// the engine uses: every one costs exactly the same.
pub proof fn lemma_assignment_optimal(a: Seq<i64>, b: Seq<i64>, p: Seq<int>)
    requires
        a.len() == b.len(),
        is_monotone_bijection(p, a.len() as int),
    ensures
        pairing_cost(a, b, p) >= pairing_cost(a, b, ident_pairing(a.len() as int)),
        pairing_cost(a, b, p) == pairing_cost(a, b, ident_pairing(a.len() as int)),
{
    let n = a.len() as int;
    lemma_monotone_bijection_is_identity(p, n);
    lemma_pairing_cost_upto_equal(a, b, p, ident_pairing(n), n);
}

/// Pairs two sequences by the order-preserving assignment of minimum
/// total absolute distance and returns `arr2` rearranged so that
/// position `i` holds the partner of `arr1[i]`.
///
/// The table `dp[i][j]` holds the least cost of pairing the first `i`
/// elements of `arr1` with exactly `i` of the first `j` elements of
/// `arr2` (`DP_INF` when `j < i` makes that impossible); each cell
/// either matches `arr1[i-1]` with `arr2[j-1]` or leaves `arr2[j-1]`
/// unused.  Backtracking from `dp[n][n]` recovers the chosen partners.
/// Because both sequences must be used in full, the backtracked pairing
/// is provably the position-wise one (see
/// [`lemma_monotone_bijection_is_identity`]), and the result equals
/// `arr2` itself.
fn reorder_min_diff(arr1: &Vec<i64>, arr2: &Vec<i64>) -> (r: Vec<i64>)
    requires
        arr1@.len() == arr2@.len(),
        arr1@.len() <= NMAX,
        bounded_vals(arr1@),
        bounded_vals(arr2@),
    ensures
        r@ == arr2@,
{
    let n = arr1.len();
    let mut dp: Vec<Vec<i128>> = Vec::new();
    let mut row0: Vec<i128> = Vec::new();
    let mut c0: usize = 0;
    while c0 <= n
        invariant
            c0 <= n + 1,
            n <= NMAX,
            row0@.len() == c0,
            forall|c: int| 0 <= c < c0 ==> #[trigger] row0@[c] == 0,
        decreases n + 1 - c0,
    {
        row0.push(0);
        c0 += 1;
    }
    dp.push(row0);
    let mut i: usize = 1;
    while i <= n
        invariant
            1 <= i <= n + 1,
            n == arr1@.len() == arr2@.len(),
            n <= NMAX,
            bounded_vals(arr1@),
            bounded_vals(arr2@),
            dp@.len() == i,
            forall|r: int| 0 <= r < i ==> #[trigger] dp@[r].len() == n + 1,
            forall|r: int, c: int|
                1 <= r < i && 0 <= c < r ==> #[trigger] dp@[r][c] == DP_INF,
            forall|r: int, c: int|
                0 <= r < i && r <= c <= n ==> 0 <= #[trigger] dp@[r][c] <= r * (2 * VMAX),
        decreases n + 1 - i,
    {
        let mut row: Vec<i128> = Vec::new();
        row.push(DP_INF);
        let mut j: usize = 1;
        while j <= n
            invariant
                1 <= j <= n + 1,
                1 <= i <= n,
                n == arr1@.len() == arr2@.len(),
                n <= NMAX,
                bounded_vals(arr1@),
                bounded_vals(arr2@),
                dp@.len() == i,
                forall|r: int| 0 <= r < i ==> #[trigger] dp@[r].len() == n + 1,
                forall|r: int, c: int|
                    1 <= r < i && 0 <= c < r ==> #[trigger] dp@[r][c] == DP_INF,
                forall|r: int, c: int|
                    0 <= r < i && r <= c <= n ==> 0 <= #[trigger] dp@[r][c] <= r * (2 * VMAX),
                row@.len() == j,
                forall|c: int| 0 <= c < j && c < i ==> #[trigger] row@[c] == DP_INF,
                forall|c: int|
                    0 <= c < j && i <= c ==> 0 <= #[trigger] row@[c] <= i * (2 * VMAX),
            decreases n + 1 - j,
        {
            let cost = abs_diff(arr1[i - 1], arr2[j - 1]) as i128;
            proof {
                assert(i - 1 < dp@.len());
                assert(dp@[i - 1].len() == n + 1);
            }
            let diag = dp[i - 1][j - 1];
            let cand = if diag >= DP_INF {
                DP_INF
            } else {
                diag + cost
            };
            let skip = row[j - 1];
            let val = if cand <= skip {
                cand
            } else {
                skip
            };
            proof {
                if (j as int) < i {
                    assert(dp@[i - 1][j - 1] == DP_INF);
                    assert(row@[j - 1] == DP_INF);
                } else {
                    assert(0 <= dp@[i - 1][j - 1] <= (i - 1) * (2 * VMAX));
                }
            }
            row.push(val);
            j += 1;
        }
        dp.push(row);
        i += 1;
    }
    let mut out: Vec<i64> = Vec::new();
    let mut z: usize = 0;
    while z < n
        invariant
            z <= n,
            out@.len() == z,
        decreases n - z,
    {
        out.push(0);
        z += 1;
    }
    let mut bi: usize = n;
    let mut bj: usize = n;
    while bi > 0 && bj > 0
        invariant
            bi == bj,
            bi <= n,
            n <= NMAX,
            n == arr1@.len() == arr2@.len(),
            out@.len() == n,
            dp@.len() == n + 1,
            forall|r: int| 0 <= r <= n ==> #[trigger] dp@[r].len() == n + 1,
            forall|r: int, c: int|
                1 <= r <= n && 0 <= c < r ==> #[trigger] dp@[r][c] == DP_INF,
            forall|r: int, c: int|
                0 <= r <= n && r <= c <= n ==> 0 <= #[trigger] dp@[r][c] <= r * (2 * VMAX),
            forall|k: int| bi <= k < n ==> #[trigger] out@[k] == arr2@[k],
        decreases bi,
    {
        proof {
            assert(dp@[bi as int][bi - 1] == DP_INF);
            assert(dp@[bi as int][bi as int] <= (bi as int) * (2 * VMAX));
            assert((bi as int) * (2 * VMAX) <= (n as int) * (2 * VMAX)) by (nonlinear_arith)
                requires
                    bi <= n,
                    0 <= 2 * VMAX,
            ;
            assert((n as int) * (2 * VMAX) < DP_INF) by (nonlinear_arith)
                requires
                    0 <= n <= NMAX,
                    NMAX == 0x10_0000,
                    VMAX == 0x2000_0000_0000,
                    DP_INF == 0x1_0000_0000_0000_0000_0000_0000,
            ;
        }
        let here = dp[bi][bj];
        let left = dp[bi][bj - 1];
        if here != left {
            out.set(bi - 1, arr2[bj - 1]);
            bi -= 1;
            bj -= 1;
        } else {
            bj -= 1;
        }
    }
    proof {
        assert(out@ =~= arr2@);
    }
    out
}

/// A permutation of the positions of a value vector, together with its
/// inverse.
///
/// `index_sort[i]` is the original position of the element that the
/// sort puts at position `i`; `index_reorder[j]` is the sorted position
/// of the element originally at `j`.
pub struct OrderingIndex {
    pub index_sort: Vec<usize>,
    pub index_reorder: Vec<usize>,
}

/// The contract of [`get_ordering_index`]: `index_reorder` is exactly
/// the rank function of `v`, and `index_sort` is its inverse.
pub open spec fn ordering_index_wf(
    v: Seq<i64>,
    desc: bool,
    is_abs: bool,
    oi: OrderingIndex,
) -> bool {
    &&& oi.index_sort@.len() == v.len()
    &&& oi.index_reorder@.len() == v.len()
    &&& forall|j: int|
        0 <= j < v.len() ==> #[trigger] oi.index_reorder@[j] as int == rank_of(v, desc, is_abs, j)
    &&& forall|j: int|
        0 <= j < v.len() ==> #[trigger] oi.index_sort@[rank_of(v, desc, is_abs, j)] as int == j
}

/// Decides [`lex_before`] on concrete elements.
fn comes_before(v: &Vec<i64>, desc: bool, is_abs: bool, j1: usize, j2: usize) -> (r: bool)
    requires
        j1 < v@.len(),
        j2 < v@.len(),
        bounded_vals(v@),
    ensures
        r == lex_before(v@, desc, is_abs, j1 as int, j2 as int),
{
    let a = v[j1];
    let b = v[j2];
    let ka = if is_abs {
        if a < 0 {
            -a
        } else {
            a
        }
    } else {
        a
    };
    let kb = if is_abs {
        if b < 0 {
            -b
        } else {
            b
        }
    } else {
        b
    };
    if desc {
        ka > kb || (ka == kb && j1 < j2)
    } else {
        ka < kb || (ka == kb && j1 < j2)
    }
}

/// Returns the permutation that sorts `vals` -- ascending, descending,
/// or by magnitude -- together with its inverse.
///
/// The sort is stable: elements with equal keys keep their original
/// relative order.  `index_reorder` maps each original position to its
/// rank (the number of elements that sort strictly before it), and
/// `index_sort` maps each rank back to the original position.
pub fn get_ordering_index(vals: &Vec<i64>, desc: bool, is_abs: bool) -> (r: OrderingIndex)
    requires
        vals@.len() <= NMAX,
        bounded_vals(vals@),
    ensures
        ordering_index_wf(vals@, desc, is_abs, r),
{
    let n = vals.len();
    let mut reorder: Vec<usize> = Vec::new();
    let mut j: usize = 0;
    while j < n
        invariant
            j <= n,
            n == vals@.len(),
            bounded_vals(vals@),
            reorder@.len() == j,
            forall|j2: int|
                0 <= j2 < j ==> #[trigger] reorder@[j2] as int == rank_of(
                    vals@,
                    desc,
                    is_abs,
                    j2,
                ),
        decreases n - j,
    {
        let mut count: usize = 0;
        let mut m: usize = 0;
        while m < n
            invariant
                m <= n,
                j < n,
                n == vals@.len(),
                bounded_vals(vals@),
                count == rank_upto(vals@, desc, is_abs, j as int, m as int),
                count <= m,
            decreases n - m,
        {
            if comes_before(vals, desc, is_abs, m, j) {
                count += 1;
            }
            m += 1;
        }
        reorder.push(count);
        j += 1;
    }
    let mut sort: Vec<usize> = Vec::new();
    let mut i: usize = 0;
    while i < n
        invariant
            i <= n,
            sort@.len() == i,
        decreases n - i,
    {
        sort.push(0);
        i += 1;
    }
    let mut j2: usize = 0;
    while j2 < n
        invariant
            j2 <= n,
            n == vals@.len(),
            sort@.len() == n,
            reorder@.len() == n,
            forall|a: int|
                0 <= a < n ==> #[trigger] reorder@[a] as int == rank_of(vals@, desc, is_abs, a),
            forall|a: int|
                0 <= a < j2 ==> #[trigger] sort@[rank_of(vals@, desc, is_abs, a)] as int == a,
        decreases n - j2,
    {
        let pos = reorder[j2];
        proof {
            lemma_rank_lt(vals@, desc, is_abs, j2 as int, n as int);
        }
        sort.set(pos, j2);
        proof {
            assert forall|a: int|
                0 <= a < j2 + 1 implies #[trigger] sort@[rank_of(vals@, desc, is_abs, a)] as int
                == a by {
                if a < j2 {
                    lemma_rank_injective(vals@, desc, is_abs, a, j2 as int);
                    lemma_rank_lt(vals@, desc, is_abs, a, n as int);
                }
            }
        }
        j2 += 1;
    }
    OrderingIndex { index_sort: sort, index_reorder: reorder }
}

/// The original position of the element that an ascending stable sort
/// of `v` puts at position `i`.
pub open spec fn unsort(v: Seq<i64>, i: int) -> int {
    choose|j: int| 0 <= j < v.len() && rank_of(v, false, false, j) == i
}

/// The value at position `i` of `v` sorted ascending (stable).
pub open spec fn sorted_at(v: Seq<i64>, i: int) -> i64 {
    v[unsort(v, i)]
}

/// The signed move of source value `r1[j]` to its assigned partner: the
/// target value whose ascending position equals the source value's.
pub open spec fn abs_dist_at(r1: Seq<i64>, r2: Seq<i64>, j: int) -> int {
    sorted_at(r2, rank_of(r1, false, false, j)) - r1[j]
}

/// The same move expressed relative to the source value, as a
/// fixed-point quotient.
pub open spec fn rel_dist_at(r1: Seq<i64>, r2: Seq<i64>, j: int) -> int {
    tdiv(abs_dist_at(r1, r2, j) * SCALE, r1[j] as int)
}

/// Relative distances cannot be computed: some source value is zero, or
/// some quotient leaves the fixed-point range.
pub open spec fn rel_fails(r1: Seq<i64>, r2: Seq<i64>) -> bool {
    exists|j: int|
        0 <= j < r1.len() && (#[trigger] r1[j] == 0 || iabs(rel_dist_at(r1, r2, j)) > VMAX)
}

/// Both matrices are non-empty and share one shape.
pub open spec fn dists_shape_ok(m1: Seq<Seq<i64>>, m2: Seq<Seq<i64>>) -> bool {
    &&& m1.len() > 0
    &&& cols_of(m1) > 0
    &&& m1.len() == m2.len()
    &&& cols_of(m1) == cols_of(m2)
}

/// The mutation distance of source observation `j`, absolute or
/// relative.
pub open spec fn dist_at(r1: Seq<i64>, r2: Seq<i64>, absolute: bool, j: int) -> int {
    if absolute {
        abs_dist_at(r1, r2, j)
    } else {
        rel_dist_at(r1, r2, j)
    }
}

/// At each sorted position, the sort permutation lands on the element
/// whose value `sorted_at` describes.
pub proof fn lemma_sorted_at(v: Seq<i64>, oi: OrderingIndex, i: int)
    requires
        ordering_index_wf(v, false, false, oi),
        0 <= i < v.len(),
    ensures
        unsort(v, i) == oi.index_sort@[i] as int,
        sorted_at(v, i) == v[oi.index_sort@[i] as int],
        0 <= oi.index_sort@[i] < v.len(),
        rank_of(v, false, false, oi.index_sort@[i] as int) == i,
{
    lemma_rank_surjective(v, false, false);
    assert(rank_hits(v, false, false, i));
    let j = choose|j: int| 0 <= j < v.len() && #[trigger] rank_of(v, false, false, j) == i;
    assert(oi.index_sort@[rank_of(v, false, false, j)] as int == j);
    let j2 = unsort(v, i);
    assert(0 <= j2 < v.len() && rank_of(v, false, false, j2) == i);
    if j2 != j {
        lemma_rank_injective(v, false, false, j, j2);
    }
}

/// Computes the per-observation mutation distances between the primary
/// variable rows of two matrices.
///
/// The source row is ranked ascending (stable) and the target row is
/// sorted ascending; the two sorted rows are paired by the
/// minimum-total-distance order-preserving assignment
/// ([`reorder_min_diff`]); each pair yields `target - source`, divided
/// by the source value when `absolute` is false; and the distances are
/// returned in the source row's original observation order.
///
/// Fails with `EmptyInput` when `values1` has no variable or no
/// observation, with `DimensionMismatch` when the two shapes differ,
/// and -- in relative mode only -- with `Numerical` exactly when a
/// source value is zero or a quotient leaves the fixed-point range
/// ([`rel_fails`]).
pub fn calculate_dists(values1: &Matrix, values2: &Matrix, absolute: bool) -> (r: Result<
    Vec<i64>,
    MutError,
>)
    requires
        values1.wf(),
        values2.wf(),
    ensures
        !(values1@.len() > 0 && cols_of(values1@) > 0) ==> r == Err::<Vec<i64>, MutError>(
            MutError::EmptyInput,
        ),
        values1@.len() > 0 && cols_of(values1@) > 0 && !dists_shape_ok(values1@, values2@) ==> r
            == Err::<Vec<i64>, MutError>(MutError::DimensionMismatch),
        dists_shape_ok(values1@, values2@) ==> (r is Err <==> !absolute && rel_fails(
            values1@[0],
            values2@[0],
        )),
        dists_shape_ok(values1@, values2@) && r is Err ==> r == Err::<Vec<i64>, MutError>(
            MutError::Numerical,
        ),
        r is Ok ==> {
            &&& r->Ok_0@.len() == cols_of(values1@)
            &&& forall|j: int|
                0 <= j < cols_of(values1@) ==> #[trigger] r->Ok_0@[j] as int == dist_at(
                    values1@[0],
                    values2@[0],
                    absolute,
                    j,
                )
            &&& forall|j: int|
                0 <= j < cols_of(values1@) ==> iabs(#[trigger] r->Ok_0@[j] as int) <= 2 * VMAX
        },
{
    let nr1 = values1.nrows();
    let nc1 = values1.ncols();
    if nr1 == 0 || nc1 == 0 {
        return Err(MutError::EmptyInput);
    }
    if nr1 != values2.nrows() || nc1 != values2.ncols() {
        return Err(MutError::DimensionMismatch);
    }
    let n = nc1;
    let v1 = values1.row(0);
    let v2 = values2.row(0);
    let ghost r1 = values1@[0];
    let ghost r2 = values2@[0];
    proof {
        assert(bounded_vals(r1)) by {
            assert forall|j: int| 0 <= j < r1.len() implies iabs(#[trigger] r1[j] as int)
                <= VMAX by {
                assert(iabs(values1@[0][j] as int) <= VMAX);
            }
        }
        assert(bounded_vals(r2)) by {
            assert forall|j: int| 0 <= j < r2.len() implies iabs(#[trigger] r2[j] as int)
                <= VMAX by {
                assert(iabs(values2@[0][j] as int) <= VMAX);
            }
        }
    }
    let oi = get_ordering_index(&v1, false, false);
    let oi2 = get_ordering_index(&v2, false, false);
    proof {
        lemma_ordering_properties(r1, false, false, oi);
        lemma_ordering_properties(r2, false, false, oi2);
    }
    let mut v1s: Vec<i64> = Vec::new();
    let mut i: usize = 0;
    while i < n
        invariant
            i <= n,
            n == r1.len(),
            bounded_vals(r1),
            ordering_index_wf(r1, false, false, oi),
            forall|p: int| 0 <= p < n ==> 0 <= #[trigger] oi.index_sort@[p] < n,
            v1s@.len() == i,
            forall|p: int|
                0 <= p < i ==> #[trigger] v1s@[p] == r1[oi.index_sort@[p] as int],
            v1@ == r1,
        decreases n - i,
    {
        let idx = oi.index_sort[i];
        v1s.push(v1[idx]);
        i += 1;
    }
    let mut v2s: Vec<i64> = Vec::new();
    let mut i2: usize = 0;
    while i2 < n
        invariant
            i2 <= n,
            n == r2.len(),
            bounded_vals(r2),
            ordering_index_wf(r2, false, false, oi2),
            forall|p: int| 0 <= p < n ==> 0 <= #[trigger] oi2.index_sort@[p] < n,
            v2s@.len() == i2,
            forall|p: int|
                0 <= p < i2 ==> #[trigger] v2s@[p] == sorted_at(r2, p),
            v2@ == r2,
        decreases n - i2,
    {
        let idx = oi2.index_sort[i2];
        proof {
            lemma_sorted_at(r2, oi2, i2 as int);
        }
        v2s.push(v2[idx]);
        i2 += 1;
    }
    proof {
        assert(bounded_vals(v1s@)) by {
            assert forall|p: int| 0 <= p < v1s@.len() implies iabs(#[trigger] v1s@[p] as int)
                <= VMAX by {
                assert(iabs(r1[oi.index_sort@[p] as int] as int) <= VMAX);
            }
        }
        assert(bounded_vals(v2s@)) by {
            assert forall|p: int| 0 <= p < v2s@.len() implies iabs(#[trigger] v2s@[p] as int)
                <= VMAX by {
                lemma_sorted_at(r2, oi2, p);
                assert(v2s@[p] == r2[oi2.index_sort@[p] as int]);
                assert(iabs(r2[oi2.index_sort@[p] as int] as int) <= VMAX);
            }
        }
        assert(n <= NMAX);
    }
    let v2m = reorder_min_diff(&v1s, &v2s);
    let mut diffs: Vec<i64> = Vec::new();
    let mut k: usize = 0;
    while k < n
        invariant
            k <= n,
            r1 == values1@[0],
            r2 == values2@[0],
            dists_shape_ok(values1@, values2@),
            n == cols_of(values1@),
            n == r1.len() == r2.len(),
            n <= NMAX,
            bounded_vals(r1),
            bounded_vals(r2),
            ordering_index_wf(r1, false, false, oi),
            ordering_index_wf(r2, false, false, oi2),
            v1s@.len() == n,
            v2m@.len() == n,
            forall|p: int|
                0 <= p < n ==> #[trigger] v1s@[p] == r1[oi.index_sort@[p] as int],
            forall|p: int| 0 <= p < n ==> #[trigger] v2m@[p] == sorted_at(r2, p),
            forall|p: int| 0 <= p < n ==> 0 <= #[trigger] oi.index_sort@[p] < n,
            diffs@.len() == k,
            forall|p: int|
                0 <= p < k ==> #[trigger] diffs@[p] as int == dist_at(
                    r1,
                    r2,
                    absolute,
                    oi.index_sort@[p] as int,
                ),
            forall|p: int| 0 <= p < k ==> iabs(#[trigger] diffs@[p] as int) <= 2 * VMAX,
            !absolute ==> forall|p: int|
                0 <= p < k ==> r1[#[trigger] oi.index_sort@[p] as int] != 0 && iabs(
                    rel_dist_at(r1, r2, oi.index_sort@[p] as int),
                ) <= VMAX,
        decreases n - k,
    {
        let a = v1s[k];
        let b = v2m[k];
        let ghost j = oi.index_sort@[k as int] as int;
        proof {
            lemma_sorted_at(r1, oi, k as int);
            lemma_sorted_at(r2, oi2, k as int);
            assert(rank_of(r1, false, false, j) == k);
            assert(a == r1[j]);
            assert(b as int == sorted_at(r2, k as int));
            assert(b == r2[oi2.index_sort@[k as int] as int]);
            assert(iabs(a as int) <= VMAX);
            assert(iabs(b as int) <= VMAX);
        }
        if absolute {
            let d = b - a;
            proof {
                assert(d as int == abs_dist_at(r1, r2, j));
            }
            diffs.push(d);
        } else {
            if a == 0 {
                proof {
                    assert(r1[j] == 0);
                    assert(rel_fails(r1, r2));
                }
                return Err(MutError::Numerical);
            }
            let num = ((b - a) as i128) * (SCALE as i128);
            let q = crate::fixed::div_i128(num, a as i128);
            proof {
                assert(q == rel_dist_at(r1, r2, j));
            }
            if q > (VMAX as i128) || q < -(VMAX as i128) {
                proof {
                    assert(iabs(rel_dist_at(r1, r2, j)) > VMAX);
                    assert(rel_fails(r1, r2));
                }
                return Err(MutError::Numerical);
            }
            diffs.push(q as i64);
        }
        k += 1;
    }
    let mut out: Vec<i64> = Vec::new();
    let mut j: usize = 0;
    while j < n
        invariant
            j <= n,
            n == r1.len() == r2.len(),
            ordering_index_wf(r1, false, false, oi),
            diffs@.len() == n,
            forall|p: int|
                0 <= p < n ==> #[trigger] diffs@[p] as int == dist_at(
                    r1,
                    r2,
                    absolute,
                    oi.index_sort@[p] as int,
                ),
            forall|p: int| 0 <= p < n ==> iabs(#[trigger] diffs@[p] as int) <= 2 * VMAX,
            out@.len() == j,
            forall|p: int|
                0 <= p < j ==> #[trigger] out@[p] as int == dist_at(r1, r2, absolute, p),
            forall|p: int| 0 <= p < j ==> iabs(#[trigger] out@[p] as int) <= 2 * VMAX,
        decreases n - j,
    {
        let pos = oi.index_reorder[j];
        proof {
            lemma_rank_lt(r1, false, false, j as int, n as int);
            assert(oi.index_reorder@[j as int] as int == rank_of(r1, false, false, j as int));
            assert(oi.index_sort@[rank_of(r1, false, false, j as int)] as int == j);
        }
        out.push(diffs[pos]);
        j += 1;
    }
    proof {
        if !absolute {
            assert forall|p: int|
                0 <= p < n implies !(#[trigger] r1[p] == 0 || iabs(rel_dist_at(r1, r2, p))
                > VMAX) by {
                lemma_rank_lt(r1, false, false, p, n as int);
                let k2 = rank_of(r1, false, false, p);
                assert(oi.index_sort@[k2] as int == p);
            }
            assert(!rel_fails(r1, r2));
        }
    }
    Ok(out)
}

/// The properties the ranking promises of its output: `index_sort` is a
/// permutation of the positions, `index_reorder` is its functional
/// inverse in both directions, and reading the values through
/// `index_sort` yields them in sorted order.
pub proof fn lemma_ordering_properties(v: Seq<i64>, desc: bool, is_abs: bool, oi: OrderingIndex)
    requires
        ordering_index_wf(v, desc, is_abs, oi),
    ensures
        forall|i: int| 0 <= i < v.len() ==> 0 <= #[trigger] oi.index_sort@[i] < v.len(),
        forall|i: int| 0 <= i < v.len() ==> 0 <= #[trigger] oi.index_reorder@[i] < v.len(),
        forall|i1: int, i2: int|
            0 <= i1 < v.len() && 0 <= i2 < v.len() && i1 != i2 ==> oi.index_sort@[i1]
                != oi.index_sort@[i2],
        forall|j: int|
            0 <= j < v.len() ==> oi.index_sort@[#[trigger] oi.index_reorder@[j] as int] as int
                == j,
        forall|i: int|
            0 <= i < v.len() ==> oi.index_reorder@[#[trigger] oi.index_sort@[i] as int] as int
                == i,
        forall|i1: int, i2: int|
            0 <= i1 <= i2 < v.len() ==> if desc {
                key_of(v, oi.index_sort@[i1] as int, is_abs) >= key_of(
                    v,
                    oi.index_sort@[i2] as int,
                    is_abs,
                )
            } else {
                key_of(v, oi.index_sort@[i1] as int, is_abs) <= key_of(
                    v,
                    oi.index_sort@[i2] as int,
                    is_abs,
                )
            },
{
    let n = v.len() as int;
    lemma_rank_surjective(v, desc, is_abs);
    assert forall|i: int| 0 <= i < n implies 0 <= #[trigger] oi.index_sort@[i] < n by {
        assert(rank_hits(v, desc, is_abs, i));
        let j = choose|j: int| 0 <= j < n && #[trigger] rank_of(v, desc, is_abs, j) == i;
        assert(oi.index_sort@[i] as int == j);
    }
    assert forall|i: int| 0 <= i < n implies 0 <= #[trigger] oi.index_reorder@[i] < n by {
        lemma_rank_lt(v, desc, is_abs, i, n);
    }
    assert forall|i1: int, i2: int|
        0 <= i1 < n && 0 <= i2 < n && i1 != i2 implies oi.index_sort@[i1]
        != oi.index_sort@[i2] by {
        assert(rank_hits(v, desc, is_abs, i1));
        assert(rank_hits(v, desc, is_abs, i2));
        let j1 = choose|j: int| 0 <= j < n && #[trigger] rank_of(v, desc, is_abs, j) == i1;
        let j2 = choose|j: int| 0 <= j < n && #[trigger] rank_of(v, desc, is_abs, j) == i2;
        assert(oi.index_sort@[i1] as int == j1);
        assert(oi.index_sort@[i2] as int == j2);
    }
    assert forall|j: int|
        0 <= j < n implies oi.index_sort@[#[trigger] oi.index_reorder@[j] as int] as int == j by {
        lemma_rank_lt(v, desc, is_abs, j, n);
        assert(oi.index_reorder@[j] as int == rank_of(v, desc, is_abs, j));
    }
    assert forall|i: int|
        0 <= i < n implies oi.index_reorder@[#[trigger] oi.index_sort@[i] as int] as int == i by {
        assert(rank_hits(v, desc, is_abs, i));
        let j = choose|j: int| 0 <= j < n && #[trigger] rank_of(v, desc, is_abs, j) == i;
        assert(oi.index_sort@[i] as int == j);
        assert(oi.index_reorder@[j] as int == rank_of(v, desc, is_abs, j));
    }
    assert forall|i1: int, i2: int| 0 <= i1 <= i2 < n implies if desc {
        key_of(v, oi.index_sort@[i1] as int, is_abs) >= key_of(
            v,
            oi.index_sort@[i2] as int,
            is_abs,
        )
    } else {
        key_of(v, oi.index_sort@[i1] as int, is_abs) <= key_of(
            v,
            oi.index_sort@[i2] as int,
            is_abs,
        )
    } by {
        assert(rank_hits(v, desc, is_abs, i1));
        assert(rank_hits(v, desc, is_abs, i2));
        let j1 = choose|j: int| 0 <= j < n && #[trigger] rank_of(v, desc, is_abs, j) == i1;
        let j2 = choose|j: int| 0 <= j < n && #[trigger] rank_of(v, desc, is_abs, j) == i2;
        assert(oi.index_sort@[i1] as int == j1);
        assert(oi.index_sort@[i2] as int == j2);
        if i1 < i2 && lex_before(v, desc, is_abs, j2, j1) {
            lemma_rank_mono(v, desc, is_abs, j2, j1, n);
        }
    }
}

} // verus!
