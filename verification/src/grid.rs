//! The mathematical model of a Sudoku grid.
//!
//! A grid is a sequence of 81 cell values in row-major order: cell `i` lies in
//! row `i / 9` and column `i % 9`. The value 0 marks an empty cell, the values
//! 1 to 9 are digits.

use vstd::prelude::*;

verus! {

/// The cells of a board, row by row.
pub type Grid = Seq<usize>;

/// The position in a grid of the cell in column `x` of row `y`.
pub open spec fn cell_index(x: int, y: int) -> int {
    9 * y + x
}

/// `i` is the position of a cell.
pub open spec fn in_grid(i: int) -> bool {
    0 <= i < 81
}

/// The row of cell `i`.
pub open spec fn row_of(i: int) -> int {
    i / 9
}

/// The column of cell `i`.
pub open spec fn col_of(i: int) -> int {
    i % 9
}

/// The 3×3 block of cell `i`; blocks are numbered row by row from 0 to 8.
pub open spec fn block_of(i: int) -> int {
    3 * (row_of(i) / 3) + col_of(i) / 3
}

/// Cells `i` and `j` lie in a common row, column or block. Every cell shares
/// its units with itself.
pub open spec fn shares_unit(i: int, j: int) -> bool {
    &&& in_grid(i)
    &&& in_grid(j)
    &&& (row_of(i) == row_of(j) || col_of(i) == col_of(j) || block_of(i) == block_of(j))
}

/// The `k`-th cell of row `y`.
pub open spec fn row_cell(y: int, k: int) -> int {
    9 * y + k
}

/// The `k`-th cell of column `x`.
pub open spec fn col_cell(x: int, k: int) -> int {
    9 * k + x
}

/// The `k`-th cell, row by row, of the block that holds the cell in column
/// `x` of row `y`.
pub open spec fn block_cell(x: int, y: int, k: int) -> int {
    9 * ((y / 3) * 3 + k / 3) + (x / 3) * 3 + k % 3
}

/// The cells of a 9×9 array `arr[row][column]`, row by row.
pub open spec fn grid_of(arr: [[usize; 9]; 9]) -> Grid {
    Seq::new(81, |i: int| arr[row_of(i)][col_of(i)])
}

/// 81 cells, each empty or a digit.
pub open spec fn well_formed(g: Grid) -> bool {
    &&& g.len() == 81
    &&& forall|i: int| 0 <= i < 81 ==> #[trigger] g[i] <= 9
}

/// No cell is empty.
pub open spec fn is_filled(g: Grid) -> bool {
    forall|i: int| 0 <= i < g.len() ==> #[trigger] g[i] != 0
}

/// The number of empty cells.
pub open spec fn empty_count(g: Grid) -> nat
    decreases g.len(),
{
    if g.len() == 0 {
        0
    } else {
        empty_count(g.drop_last()) + if g.last() == 0 {
            1nat
        } else {
            0nat
        }
    }
}

/// Digit `d` may be tried in cell `i`: the cell is empty and no cell of its
/// row, column or block holds `d`. A filled cell has no candidate.
pub open spec fn is_candidate(g: Grid, i: int, d: usize) -> bool {
    &&& g.len() == 81
    &&& in_grid(i)
    &&& g[i] == 0
    &&& 1 <= d <= 9
    &&& forall|j: int| #[trigger] shares_unit(i, j) ==> g[j] != d
}

/// The candidates of cell `i` that are smaller than `n`, in ascending order.
pub open spec fn candidates_below(g: Grid, i: int, n: int) -> Seq<usize>
    decreases n,
{
    if n <= 1 {
        Seq::empty()
    } else if is_candidate(g, i, (n - 1) as usize) {
        candidates_below(g, i, n - 1).push((n - 1) as usize)
    } else {
        candidates_below(g, i, n - 1)
    }
}

/// The candidates of cell `i`, in ascending order.
pub open spec fn candidates(g: Grid, i: int) -> Seq<usize> {
    candidates_below(g, i, 10)
}

/// Cell `i` comes before cell `j` when the solver picks a cell: it has fewer
/// candidates, or as many and a smaller position.
pub open spec fn precedes(g: Grid, i: int, j: int) -> bool {
    ||| candidates(g, i).len() < candidates(g, j).len()
    ||| (candidates(g, i).len() == candidates(g, j).len() && i <= j)
}

/// Cell `i` is the empty cell that comes before every other empty cell.
pub open spec fn is_branch_cell(g: Grid, i: int) -> bool {
    &&& in_grid(i)
    &&& g[i] == 0
    &&& forall|j: int| in_grid(j) && #[trigger] g[j] == 0 ==> precedes(g, i, j)
}

/// The cell on which the solver branches: the first of the empty cells with
/// the fewest candidates. Meaningful only when the grid has an empty cell.
pub open spec fn branch_cell(g: Grid) -> int {
    choose|i: int| is_branch_cell(g, i)
}

/// Two different cells of one unit hold the same digit.
pub open spec fn clash(g: Grid, i: int, j: int) -> bool {
    &&& i != j
    &&& shares_unit(i, j)
    &&& g[i] != 0
    &&& g[i] == g[j]
}

/// No digit occurs twice in a row, column or block.
pub open spec fn consistent(g: Grid) -> bool {
    forall|i: int, j: int| !clash(g, i, j)
}

/// A completed Sudoku: every cell holds a digit and no digit occurs twice in
/// a row, column or block.
pub open spec fn is_solution(g: Grid) -> bool {
    &&& well_formed(g)
    &&& is_filled(g)
    &&& consistent(g)
}

/// `f` keeps every digit of `g`.
pub open spec fn extends(g: Grid, f: Grid) -> bool {
    &&& f.len() == g.len()
    &&& forall|i: int| 0 <= i < g.len() && #[trigger] g[i] != 0 ==> f[i] == g[i]
}

/// `f` fills the empty cells of `g` so that every clash in `f` is a clash
/// between two digits that `g` already had. When `g` is consistent this makes
/// `f` a solution.
pub open spec fn completes(g: Grid, f: Grid) -> bool {
    &&& well_formed(f)
    &&& is_filled(f)
    &&& extends(g, f)
    &&& forall|i: int, j: int| #[trigger] clash(f, i, j) ==> g[i] != 0 && g[j] != 0
}

/// Some solution keeps every digit of `g`.
pub open spec fn solvable(g: Grid) -> bool {
    exists|f: Grid| is_solution(f) && extends(g, f)
}

/// Digit `d` occurs in row `y`.
pub open spec fn row_holds(g: Grid, y: int, d: usize) -> bool {
    exists|k: int| 0 <= k < 9 && g[row_cell(y, k)] == d
}

/// Digit `d` occurs in column `x`.
pub open spec fn col_holds(g: Grid, x: int, d: usize) -> bool {
    exists|k: int| 0 <= k < 9 && g[col_cell(x, k)] == d
}

/// Digit `d` occurs in the block of the cell in column `x` of row `y`.
pub open spec fn block_holds(g: Grid, x: int, y: int, d: usize) -> bool {
    exists|k: int| 0 <= k < 9 && g[block_cell(x, y, k)] == d
}

/// Every row, every column and every block holds each of the digits 1 to 9.
pub open spec fn units_complete(g: Grid) -> bool {
    &&& forall|y: int, d: usize| 0 <= y < 9 && 1 <= d <= 9 ==> #[trigger] row_holds(g, y, d)
    &&& forall|x: int, d: usize| 0 <= x < 9 && 1 <= d <= 9 ==> #[trigger] col_holds(g, x, d)
    &&& forall|x: int, y: int, d: usize|
        0 <= x < 9 && 0 <= y < 9 && 1 <= d <= 9 ==> #[trigger] block_holds(g, x, y, d)
}

} // verus!
