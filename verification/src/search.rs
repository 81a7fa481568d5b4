//! What the solver finds: the search, stated over grids.

use vstd::prelude::*;
use crate::grid::{
    branch_cell, candidates, completes, empty_count, extends, in_grid, is_branch_cell,
    is_candidate, is_filled, is_solution, solvable, well_formed, Grid,
};
use crate::grid_lemmas::{
    lemma_branch_cell_exists, lemma_branch_cell_unique, lemma_candidates,
    lemma_completes_after_place,
    lemma_completes_place, lemma_completion_of_consistent_is_solution,
    lemma_filled_completes_itself, lemma_place_empty_count, lemma_place_well_formed,
    lemma_solution_completes,
};

verus! {

/// The grid that the search ends with when it starts from `g`, or `None` when
/// it fails.
///
/// A filled grid is its own result. Otherwise the search branches on
/// `branch_cell(g)`: it tries the cell's candidates in ascending order, and
/// the first of them from which the search succeeds decides the result.
pub open spec fn search(g: Grid) -> Option<Grid>
    decreases empty_count(g), 1int, 0int,
{
    if is_filled(g) {
        Some(g)
    } else {
        search_from(g, branch_cell(g), 0)
    }
}

/// The search on `g` once the first `k` candidates of `cell` have failed.
pub open spec fn search_from(g: Grid, cell: int, k: int) -> Option<Grid>
    decreases empty_count(g), 0int, candidates(g, cell).len() - k,
{
    let digits = candidates(g, cell);
    if 0 <= k < digits.len() {
        proof {
            lemma_candidates(g, cell);
            lemma_place_empty_count(g, cell, digits[k]);
        }
        match search(g.update(cell, digits[k])) {
            Some(f) => Some(f),
            None => search_from(g, cell, k + 1),
        }
    } else {
        None
    }
}

/// The search is sound: the grid it ends with is a filling of the grid it
/// started from, in which no digit that the search placed clashes with
/// another.
pub proof fn lemma_search_sound(g: Grid)
    requires
        well_formed(g),
    ensures
        search(g) matches Some(f) ==> completes(g, f),
    decreases empty_count(g), 1int, 0int,
{
    if is_filled(g) {
        lemma_filled_completes_itself(g);
    } else {
        lemma_search_from_sound(g, branch_cell(g), 0);
    }
}

/// Soundness of the search from the `k`-th candidate of a cell on.
pub proof fn lemma_search_from_sound(g: Grid, cell: int, k: int)
    requires
        well_formed(g),
    ensures
        search_from(g, cell, k) matches Some(f) ==> completes(g, f),
    decreases empty_count(g), 0int, candidates(g, cell).len() - k,
{
    let digits = candidates(g, cell);
    if 0 <= k < digits.len() {
        lemma_candidates(g, cell);
        let d = digits[k];
        assert(is_candidate(g, cell, d));
        lemma_place_empty_count(g, cell, d);
        lemma_place_well_formed(g, cell, d);
        let placed = g.update(cell, d);
        lemma_search_sound(placed);
        match search(placed) {
            Some(f) => {
                lemma_completes_after_place(g, cell, d, f);
            },
            None => {
                lemma_search_from_sound(g, cell, k + 1);
            },
        }
    }
}

/// The search is complete: it succeeds on every grid that has a filling in
/// which no digit clashes but such as the grid already had.
pub proof fn lemma_search_complete(g: Grid, f: Grid)
    requires
        well_formed(g),
        completes(g, f),
    ensures
        search(g) is Some,
    decreases empty_count(g), 1int, 0int,
{
    if !is_filled(g) {
        lemma_branch_cell_exists(g);
        let cell = branch_cell(g);
        lemma_completes_place(g, cell, f);
        lemma_candidates(g, cell);
        assert(candidates(g, cell).contains(f[cell]));
        let at = choose|at: int| 0 <= at < candidates(g, cell).len() && candidates(g, cell)[at] == f[cell];
        lemma_search_from_complete(g, cell, 0, at, f);
    }
}

/// Completeness of the search from the `k`-th candidate of a cell on, when a
/// filling holds a later candidate of the cell, the one at `at`.
pub proof fn lemma_search_from_complete(g: Grid, cell: int, k: int, at: int, f: Grid)
    requires
        well_formed(g),
        completes(g, f),
        0 <= k <= at < candidates(g, cell).len(),
        candidates(g, cell)[at] == f[cell],
    ensures
        search_from(g, cell, k) is Some,
    decreases empty_count(g), 0int, candidates(g, cell).len() - k,
{
    let digits = candidates(g, cell);
    lemma_candidates(g, cell);
    let d = digits[k];
    assert(is_candidate(g, cell, d));
    lemma_place_empty_count(g, cell, d);
    lemma_place_well_formed(g, cell, d);
    if k == at {
        lemma_completes_place(g, cell, f);
        lemma_search_complete(g.update(cell, d), f);
    } else if search(g.update(cell, d)) is None {
        lemma_search_from_complete(g, cell, k + 1, at, f);
    }
}

/// On a grid that has a solution the search succeeds, and what it ends with
/// is a solution that keeps the grid's digits.
pub proof fn lemma_search_solves(g: Grid)
    requires
        well_formed(g),
        solvable(g),
    ensures
        search(g) matches Some(f) && is_solution(f) && extends(g, f),
{
    let s = choose|s: Grid| is_solution(s) && extends(g, s);
    lemma_solution_completes(g, s);
    lemma_search_complete(g, s);
    lemma_search_sound(g);
    lemma_completion_of_consistent_is_solution(g, search(g)->0);
}

/// The search succeeds on exactly the grids that have a filling.
pub proof fn lemma_search_succeeds_iff(g: Grid)
    requires
        well_formed(g),
    ensures
        search(g) is Some <==> exists|f: Grid| completes(g, f),
{
    lemma_search_sound(g);
    if exists|f: Grid| completes(g, f) {
        let f = choose|f: Grid| completes(g, f);
        lemma_search_complete(g, f);
    }
}

/// Searching again changes nothing: the grid that a search ends with is its
/// own result.
pub proof fn lemma_search_idempotent(g: Grid)
    requires
        well_formed(g),
        search(g) is Some,
    ensures
        search(search(g)->0) == search(g),
{
    lemma_search_sound(g);
}

/// Where one cell is left to fill, the search puts the smallest candidate of
/// that cell into it, and fails if the cell has no candidate.
pub proof fn lemma_search_last_cell(g: Grid, i: int)
    requires
        g.len() == 81,
        in_grid(i),
        g[i] == 0,
        forall|j: int| in_grid(j) && j != i ==> #[trigger] g[j] != 0,
    ensures
        search(g) == if candidates(g, i).len() > 0 {
            Some(g.update(i, candidates(g, i)[0]))
        } else {
            None
        },
{
    assert(is_branch_cell(g, i));
    lemma_branch_cell_unique(g, i);
    lemma_candidates(g, i);
    assert(!is_filled(g));
    assert(search(g) == search_from(g, i, 0));
    if candidates(g, i).len() > 0 {
        let d = candidates(g, i)[0];
        assert(is_candidate(g, i, d));
        let filled = g.update(i, d);
        assert forall|j: int| 0 <= j < filled.len() implies #[trigger] filled[j] != 0 by {
            if j != i {
                assert(g[j] != 0);
            }
        }
        assert(search(filled) == Some(filled));
    } else {
        assert(search_from(g, i, 0) == None::<Grid>);
    }
}

} // verus!
