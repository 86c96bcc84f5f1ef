//! The library's stated laws, as public proof functions over the
//! model. Together with the contracts of `fill_analytically`, `solve`
//! and `solve_puzzle` they pin down the solver's observable behaviour.

use vstd::prelude::*;

verus! {

use crate::grid::Cell;
use crate::model::{
    in_range, is_fixed, lemma_inconsistent_no_solution, lemma_unit_digit_exists,
    lemma_unit_digit_unique, same_row, solution_of, unit_cell, val, valid_grid,
};

/// Every row, column and box of a valid completed grid holds each
/// digit 1..9 exactly once: once at least (first conclusion) and once
/// at most (second conclusion), over the 27 units.
pub proof fn lemma_solved_unit_has_each_digit_once(g: Seq<int>, u: int, d: int)
    requires
        valid_grid(g),
        0 <= u < 27,
        1 <= d <= 9,
    ensures
        exists|k: int| 0 <= k < 9 && #[trigger] g[unit_cell(u, k)] == d,
        forall|k1: int, k2: int|
            0 <= k1 < 9 && 0 <= k2 < 9 && #[trigger] g[unit_cell(u, k1)] == d
                && #[trigger] g[unit_cell(u, k2)] == d ==> k1 == k2,
{
    lemma_unit_digit_exists(g, u, d);
    assert forall|k1: int, k2: int|
        0 <= k1 < 9 && 0 <= k2 < 9 && #[trigger] g[unit_cell(u, k1)] == d && #[trigger] g[
            unit_cell(u, k2)
        ] == d implies k1 == k2 by {
        lemma_unit_digit_unique(g, u, k1, k2);
    }
}

/// A puzzle with a unique solution admits no other. Combined with the
/// contract of `solve` — which succeeds exactly when a solution exists
/// and then returns a solution of the starting grid, whatever scan
/// position it was entered at — the returned grid is that one
/// solution.
pub proof fn lemma_unique_solution(s: Seq<Cell>, sol: Seq<int>, other: Seq<int>)
    requires
        solution_of(sol, s),
        forall|t: Seq<int>| #[trigger] solution_of(t, s) ==> t == sol,
        solution_of(other, s),
    ensures
        other == sol,
{
}

/// Two cells of one row fixed to the same digit leave the grid without
/// any solution; `solve_puzzle` then reports `Unsolvable`.
pub proof fn lemma_duplicate_row_peers_unsolvable(s: Seq<Cell>, i: int, j: int)
    requires
        in_range(i),
        in_range(j),
        i != j,
        same_row(i, j),
        is_fixed(s, i),
        is_fixed(s, j),
        val(s, i) == val(s, j),
    ensures
        forall|g: Seq<int>| !solution_of(g, s),
{
    lemma_inconsistent_no_solution(s, i, j);
}

} // verus!
