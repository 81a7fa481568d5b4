//! Facts about the grid model that the solver's proofs rest on.

use vstd::prelude::*;
use vstd::relations::injective_on;
use vstd::set_lib::{lemma_int_range, lemma_map_size, lemma_subset_equality, set_int_range};
use crate::grid::{
    block_cell, block_holds, block_of, branch_cell, candidates, candidates_below, cell_index,
    clash, col_cell, col_holds, col_of, completes, consistent, empty_count, extends, in_grid,
    is_branch_cell, is_candidate, is_filled, is_solution, precedes, row_cell, row_holds, row_of,
    shares_unit, units_complete, well_formed, Grid,
};

verus! {

/// A column and a row in range name a cell of the grid, and the cell's
/// position gives both back.
pub proof fn lemma_cell_index(x: int, y: int)
    requires
        0 <= x < 9,
        0 <= y < 9,
    ensures
        in_grid(cell_index(x, y)),
        row_of(cell_index(x, y)) == y,
        col_of(cell_index(x, y)) == x,
{
}

/// Division and remainder by 9 take a position apart into row and column.
pub proof fn lemma_div_mod_9(q: int, r: int)
    requires
        0 <= r < 9,
    ensures
        (9 * q + r) / 9 == q,
        (9 * q + r) % 9 == r,
{
}

/// Division and remainder by 3 take a row or column apart into the band of
/// three it lies in and its place there.
pub proof fn lemma_div_mod_3(q: int, r: int)
    requires
        0 <= r < 3,
    ensures
        (3 * q + r) / 3 == q,
        (3 * q + r) % 3 == r,
{
}

/// The `k`-th cell of the block of a cell lies in the grid, and in that block.
pub proof fn lemma_block_cell(x: int, y: int, k: int)
    requires
        0 <= x < 9,
        0 <= y < 9,
        0 <= k < 9,
    ensures
        in_grid(block_cell(x, y, k)),
        row_of(block_cell(x, y, k)) == (y / 3) * 3 + k / 3,
        col_of(block_cell(x, y, k)) == (x / 3) * 3 + k % 3,
        block_of(block_cell(x, y, k)) == block_of(cell_index(x, y)),
{
    let row = (y / 3) * 3 + k / 3;
    let col = (x / 3) * 3 + k % 3;
    lemma_div_mod_9(row, col);
    lemma_div_mod_3(y / 3, k / 3);
    lemma_div_mod_3(x / 3, k % 3);
    lemma_div_mod_9(y, x);
}

/// The nine cells of the row, of the column and of the block of a cell all
/// share a unit with it.
pub proof fn lemma_unit_cells_share(x: int, y: int, k: int)
    requires
        0 <= x < 9,
        0 <= y < 9,
        0 <= k < 9,
    ensures
        shares_unit(cell_index(x, y), row_cell(y, k)),
        shares_unit(cell_index(x, y), col_cell(x, k)),
        shares_unit(cell_index(x, y), block_cell(x, y, k)),
{
    lemma_div_mod_9(y, x);
    lemma_div_mod_9(y, k);
    lemma_div_mod_9(k, x);
    lemma_block_cell(x, y, k);
}

/// A cell that shares a unit with the cell in column `x` of row `y` is one of
/// the nine cells of its row, of its column or of its block.
pub proof fn lemma_shared_unit_cell(x: int, y: int, j: int) -> (k: int)
    requires
        0 <= x < 9,
        0 <= y < 9,
        shares_unit(cell_index(x, y), j),
    ensures
        0 <= k < 9,
        j == row_cell(y, k) || j == col_cell(x, k) || j == block_cell(x, y, k),
{
    lemma_div_mod_9(y, x);
    let row = row_of(j);
    let col = col_of(j);
    if row == y {
        col
    } else if col == x {
        row
    } else {
        assert(3 * (row / 3) + col / 3 == 3 * (y / 3) + x / 3);
        assert(0 <= col / 3 < 3 && 0 <= x / 3 < 3);
        assert(row / 3 == y / 3 && col / 3 == x / 3);
        let k = 3 * (row % 3) + col % 3;
        lemma_div_mod_3(row % 3, col % 3);
        k
    }
}

/// Filling an empty cell leaves one empty cell fewer.
pub proof fn lemma_place_empty_count(g: Grid, i: int, d: usize)
    requires
        0 <= i < g.len(),
        g[i] == 0,
        d != 0,
    ensures
        empty_count(g.update(i, d)) + 1 == empty_count(g),
    decreases g.len(),
{
    let h = g.update(i, d);
    if i == g.len() - 1 {
        assert(h.drop_last() =~= g.drop_last());
    } else {
        assert(h.drop_last() =~= g.drop_last().update(i, d));
        lemma_place_empty_count(g.drop_last(), i, d);
    }
}

/// The candidates below `n` are candidates, none is missing, and they ascend.
pub proof fn lemma_candidates_below(g: Grid, i: int, n: int)
    requires
        1 <= n <= 10,
    ensures
        candidates_below(g, i, n).len() <= n - 1,
        forall|k: int|
            0 <= k < candidates_below(g, i, n).len() ==> {
                &&& 1 <= #[trigger] candidates_below(g, i, n)[k] < n
                &&& is_candidate(g, i, candidates_below(g, i, n)[k])
            },
        forall|d: usize|
            1 <= d < n && is_candidate(g, i, d) ==> #[trigger] candidates_below(g, i, n).contains(
                d,
            ),
        forall|a: int, b: int|
            0 <= a < b < candidates_below(g, i, n).len() ==> candidates_below(g, i, n)[a]
                < candidates_below(g, i, n)[b],
    decreases n,
{
    if n > 1 {
        lemma_candidates_below(g, i, n - 1);
        let prev = candidates_below(g, i, n - 1);
        let cur = candidates_below(g, i, n);
        let top = (n - 1) as usize;
        assert forall|d: usize| 1 <= d < n && is_candidate(g, i, d) implies cur.contains(d) by {
            if d == top {
                assert(cur[cur.len() - 1] == d);
            } else {
                assert(prev.contains(d));
                let k = choose|k: int| 0 <= k < prev.len() && prev[k] == d;
                assert(cur[k] == d);
            }
        }
    }
}

/// The candidates of a cell are at most nine digits in ascending order, each
/// of them a candidate, and every candidate is among them.
pub proof fn lemma_candidates(g: Grid, i: int)
    ensures
        candidates(g, i).len() <= 9,
        forall|k: int|
            0 <= k < candidates(g, i).len() ==> is_candidate(g, i, #[trigger] candidates(g, i)[k]),
        forall|d: usize| is_candidate(g, i, d) ==> #[trigger] candidates(g, i).contains(d),
        forall|a: int, b: int|
            0 <= a < b < candidates(g, i).len() ==> candidates(g, i)[a] < candidates(g, i)[b],
{
    lemma_candidates_below(g, i, 10);
}

/// A filled cell has no candidates.
pub proof fn lemma_filled_cell_has_no_candidates(g: Grid, i: int)
    requires
        !(g.len() == 81 && in_grid(i) && g[i] == 0),
    ensures
        candidates(g, i) == Seq::<usize>::empty(),
{
    lemma_candidates(g, i);
    if candidates(g, i).len() > 0 {
        assert(is_candidate(g, i, candidates(g, i)[0]));
    }
    assert(candidates(g, i) =~= Seq::<usize>::empty());
}

/// At most one cell comes before every other empty cell, so a cell that does
/// is the one the solver branches on.
pub proof fn lemma_branch_cell_unique(g: Grid, i: int)
    requires
        is_branch_cell(g, i),
    ensures
        branch_cell(g) == i,
{
    let j = branch_cell(g);
    assert(is_branch_cell(g, j));
    assert(g[i] == 0 && g[j] == 0);
}

/// Among the first `n` cells of a grid, if one is empty, one empty cell comes
/// before every other.
proof fn lemma_first_among(g: Grid, n: int) -> (i: int)
    requires
        0 <= n <= 81,
        exists|j: int| 0 <= j < n && g[j] == 0,
    ensures
        0 <= i < n,
        g[i] == 0,
        forall|j: int| 0 <= j < n && #[trigger] g[j] == 0 ==> precedes(g, i, j),
    decreases n,
{
    let last = n - 1;
    if exists|j: int| 0 <= j < last && g[j] == 0 {
        let i = lemma_first_among(g, last);
        if g[last] == 0 && !precedes(g, i, last) {
            last
        } else {
            i
        }
    } else {
        last
    }
}

/// A grid with an empty cell has a cell on which the solver branches.
pub proof fn lemma_branch_cell_exists(g: Grid)
    requires
        g.len() == 81,
        !is_filled(g),
    ensures
        is_branch_cell(g, branch_cell(g)),
{
    let j = choose|j: int| 0 <= j < g.len() && g[j] == 0;
    assert(0 <= j < 81 && g[j] == 0);
    let i = lemma_first_among(g, 81);
    assert(is_branch_cell(g, i));
}

/// A candidate placed in its cell leaves the grid well formed.
pub proof fn lemma_place_well_formed(g: Grid, i: int, d: usize)
    requires
        well_formed(g),
        is_candidate(g, i, d),
    ensures
        well_formed(g.update(i, d)),
{
    let h = g.update(i, d);
    assert forall|j: int| 0 <= j < 81 implies #[trigger] h[j] <= 9 by {
        if j != i {
            assert(h[j] == g[j]);
        }
    }
}

/// A filled grid is the one filling of itself.
pub proof fn lemma_filled_completes_itself(g: Grid)
    requires
        well_formed(g),
        is_filled(g),
    ensures
        completes(g, g),
        forall|f: Grid| completes(g, f) ==> f == g,
{
    assert forall|f: Grid| completes(g, f) implies f == g by {
        assert(f =~= g);
    }
}

/// A filling of the grid with a candidate placed is a filling of the grid
/// itself: the digit placed clashes with nothing.
pub proof fn lemma_completes_after_place(g: Grid, i: int, d: usize, f: Grid)
    requires
        is_candidate(g, i, d),
        completes(g.update(i, d), f),
    ensures
        completes(g, f),
{
    let h = g.update(i, d);
    assert(f[i] == d) by {
        assert(h[i] != 0);
    }
    assert forall|j: int| 0 <= j < g.len() && #[trigger] g[j] != 0 implies f[j] == g[j] by {
        assert(h[j] != 0);
    }
    assert forall|a: int, b: int| #[trigger] clash(f, a, b) implies g[a] != 0 && g[b] != 0 by {
        assert(h[a] != 0 && h[b] != 0);
        if a == i {
            assert(shares_unit(i, b));
            assert(f[b] == h[b]);
        } else if b == i {
            assert(shares_unit(i, a));
            assert(f[a] == h[a]);
        }
    }
}

/// In a filling of the grid, the digit of a cell that was empty is one of the
/// cell's candidates, and the filling is a filling of the grid with that
/// digit placed.
pub proof fn lemma_completes_place(g: Grid, i: int, f: Grid)
    requires
        in_grid(i),
        g[i] == 0,
        completes(g, f),
    ensures
        is_candidate(g, i, f[i]),
        completes(g.update(i, f[i]), f),
{
    let d = f[i];
    let h = g.update(i, d);
    assert(f[i] != 0 && f[i] <= 9);
    assert forall|j: int| #[trigger] shares_unit(i, j) implies g[j] != d by {
        if g[j] == d {
            assert(g[j] != 0);
            assert(f[j] == g[j]);
            assert(clash(f, i, j));
        }
    }
    assert forall|j: int| 0 <= j < h.len() && #[trigger] h[j] != 0 implies f[j] == h[j] by {
        if j != i {
            assert(g[j] != 0);
        }
    }
    assert forall|a: int, b: int| #[trigger] clash(f, a, b) implies h[a] != 0 && h[b] != 0 by {
        assert(g[a] != 0 && g[b] != 0);
    }
}

/// A filling of a consistent grid in which nothing new clashes is a solution.
pub proof fn lemma_completion_of_consistent_is_solution(g: Grid, f: Grid)
    requires
        consistent(g),
        completes(g, f),
    ensures
        is_solution(f),
{
    assert forall|i: int, j: int| !clash(f, i, j) by {
        if clash(f, i, j) {
            assert(g[i] != 0 && g[j] != 0);
            assert(f[i] == g[i] && f[j] == g[j]);
            assert(clash(g, i, j));
        }
    }
}

/// A solution that keeps the digits of a grid shows the grid to be
/// consistent, and is a filling of it.
pub proof fn lemma_solution_completes(g: Grid, f: Grid)
    requires
        is_solution(f),
        extends(g, f),
    ensures
        consistent(g),
        completes(g, f),
{
    assert forall|i: int, j: int| !clash(g, i, j) by {
        if clash(g, i, j) {
            assert(f[i] == g[i]);
            assert(g[j] != 0);
            assert(f[j] == g[j]);
            assert(clash(f, i, j));
        }
    }
    assert forall|i: int, j: int| #[trigger] clash(f, i, j) implies g[i] != 0 && g[j] != 0 by {
        assert(!clash(f, i, j));
    }
}

/// Nine different digits are all the digits: each of 1 to 9 is among them.
pub proof fn lemma_nine_different_digits(v: Seq<usize>, d: usize) -> (k: int)
    requires
        v.len() == 9,
        forall|a: int| 0 <= a < 9 ==> 1 <= #[trigger] v[a] <= 9,
        forall|a: int, b: int| 0 <= a < b < 9 ==> v[a] != v[b],
        1 <= d <= 9,
    ensures
        0 <= k < 9,
        v[k] == d,
{
    let places = set_int_range(0, 9);
    let digits = set_int_range(1, 10);
    let value = |a: int| v[a] as int;
    let held = places.map(value);
    lemma_int_range(0, 9);
    lemma_int_range(1, 10);
    assert(injective_on(value, places)) by {
        assert forall|a: int, b: int|
            places.contains(a) && places.contains(b) && #[trigger] value(a) == #[trigger] value(
                b,
            ) implies a == b by {
            if a < b {
                assert(v[a] != v[b]);
            } else if b < a {
                assert(v[b] != v[a]);
            }
        }
    }
    lemma_map_size(places, held, value);
    assert(held.subset_of(digits)) by {
        assert forall|e: int| held.contains(e) implies digits.contains(e) by {
            let a = choose|a: int| places.contains(a) && e == value(a);
            assert(1 <= v[a] <= 9);
        }
    }
    lemma_subset_equality(held, digits);
    assert(digits.contains(d as int));
    assert(held.contains(d as int));
    let k = choose|a: int| places.contains(a) && d as int == value(a);
    k
}

/// In a solution every row, every column and every block holds each of the
/// digits 1 to 9: with no digit twice among nine cells, none is missing.
pub proof fn lemma_solution_units_complete(g: Grid)
    requires
        is_solution(g),
    ensures
        units_complete(g),
{
    assert forall|y: int, d: usize| 0 <= y < 9 && 1 <= d <= 9 implies #[trigger] row_holds(
        g,
        y,
        d,
    ) by {
        let v = Seq::new(9, |k: int| g[row_cell(y, k)]);
        assert forall|a: int, b: int| 0 <= a < b < 9 implies v[a] != v[b] by {
            lemma_unit_cells_share(a, y, b);
            assert(!clash(g, row_cell(y, a), row_cell(y, b)));
        }
        let k = lemma_nine_different_digits(v, d);
        assert(g[row_cell(y, k)] == d);
    }
    assert forall|x: int, d: usize| 0 <= x < 9 && 1 <= d <= 9 implies #[trigger] col_holds(
        g,
        x,
        d,
    ) by {
        let v = Seq::new(9, |k: int| g[col_cell(x, k)]);
        assert forall|a: int, b: int| 0 <= a < b < 9 implies v[a] != v[b] by {
            lemma_unit_cells_share(x, a, b);
            assert(!clash(g, col_cell(x, a), col_cell(x, b)));
        }
        let k = lemma_nine_different_digits(v, d);
        assert(g[col_cell(x, k)] == d);
    }
    assert forall|x: int, y: int, d: usize|
        0 <= x < 9 && 0 <= y < 9 && 1 <= d <= 9 implies #[trigger] block_holds(g, x, y, d) by {
        let v = Seq::new(9, |k: int| g[block_cell(x, y, k)]);
        assert forall|a: int, b: int| 0 <= a < b < 9 implies v[a] != v[b] by {
            lemma_block_cell(x, y, a);
            lemma_block_cell(x, y, b);
            let ca = block_cell(x, y, a);
            let cb = block_cell(x, y, b);
            assert(ca != cb) by {
                if ca == cb {
                    lemma_div_mod_3(a / 3, a % 3);
                    lemma_div_mod_3(b / 3, b % 3);
                    assert(a / 3 == b / 3);
                    assert(a % 3 == b % 3);
                }
            }
            assert(shares_unit(ca, cb));
            assert(!clash(g, ca, cb));
        }
        let k = lemma_nine_different_digits(v, d);
        assert(g[block_cell(x, y, k)] == d);
    }
}

} // verus!
