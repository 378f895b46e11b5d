//! The historical single-flag ranking entry point.
//!
//! Sorts descending -- by value or by magnitude -- and returns the
//! permutation as a plain index vector.  The two-flag form lives in
//! [`crate::calculate_dists::get_ordering_index`].

use vstd::prelude::*;

use crate::calculate_dists::{bounded_vals, rank_of};
use crate::fixed::NMAX;

verus! {

/// Returns the permutation that sorts `vals` descending, by value or
/// -- when `is_abs` is set -- by magnitude, ties kept in original
/// order: `r[p]` is the original position of the element ranked `p`.
pub fn get_ordering_index(vals: &Vec<i64>, is_abs: bool) -> (r: Vec<usize>)
    requires
        vals@.len() <= NMAX,
        bounded_vals(vals@),
    ensures
        r@.len() == vals@.len(),
        forall|j: int|
            0 <= j < vals@.len() ==> #[trigger] r@[rank_of(vals@, true, is_abs, j)] as int == j,
        forall|p: int| 0 <= p < vals@.len() ==> 0 <= #[trigger] r@[p] < vals@.len(),
{
    crate::vector_fns::get_ordering_index(vals, true, is_abs)
}

} // verus!
