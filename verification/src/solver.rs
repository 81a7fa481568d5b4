//! The solver: candidates, the list of empty cells, and the backtracking
//! search.

use vstd::prelude::*;
use crate::grid::{
    block_cell, branch_cell, candidates, candidates_below, cell_index, col_cell, completes,
    empty_count, extends, in_grid, is_candidate, is_filled, is_solution, precedes, row_cell,
    shares_unit, solvable, units_complete, well_formed, Grid,
};
use crate::grid_lemmas::{
    lemma_block_cell, lemma_branch_cell_unique, lemma_candidates, lemma_cell_index,
    lemma_filled_cell_has_no_candidates, lemma_place_empty_count, lemma_shared_unit_cell,
    lemma_solution_units_complete, lemma_unit_cells_share,
};
use crate::search::{
    lemma_search_solves, lemma_search_sound, lemma_search_succeeds_iff, search, search_from,
};
use crate::sudoku::Sudoku;

verus! {

/// The position of the cell that an empty-cell record names. A record holds
/// the cell's column, its row and its candidates.
pub open spec fn record_cell(e: (usize, usize, Vec<usize>)) -> int {
    cell_index(e.0 as int, e.1 as int)
}

/// The record names an empty cell of the grid and holds its candidates.
pub open spec fn is_record(g: Grid, e: (usize, usize, Vec<usize>)) -> bool {
    &&& e.0 < 9
    &&& e.1 < 9
    &&& g[record_cell(e)] == 0
    &&& e.2@ == candidates(g, record_cell(e))
}

/// The order of the records: by the number of candidates, and among cells with
/// as many candidates by position.
pub open spec fn record_before(
    a: (usize, usize, Vec<usize>),
    b: (usize, usize, Vec<usize>),
) -> bool {
    ||| a.2@.len() < b.2@.len()
    ||| (a.2@.len() == b.2@.len() && record_cell(a) < record_cell(b))
}

/// `cells` holds one record for each empty cell among the first `n` cells of
/// the grid and no other, in order.
pub open spec fn lists_empty_cells_below(
    g: Grid,
    cells: Seq<(usize, usize, Vec<usize>)>,
    n: int,
) -> bool {
    &&& forall|k: int|
        0 <= k < cells.len() ==> is_record(g, #[trigger] cells[k]) && record_cell(cells[k]) < n
    &&& forall|i: int|
        0 <= i < n && #[trigger] g[i] == 0 ==> exists|k: int|
            0 <= k < cells.len() && record_cell(#[trigger] cells[k]) == i
    &&& forall|a: int, b: int|
        0 <= a < b < cells.len() ==> record_before(#[trigger] cells[a], #[trigger] cells[b])
}

/// `cells` holds one record for each empty cell of the grid and no other,
/// those with the fewest candidates first, and cells with as many candidates
/// by position.
pub open spec fn lists_empty_cells(g: Grid, cells: Seq<(usize, usize, Vec<usize>)>) -> bool {
    lists_empty_cells_below(g, cells, 81)
}

/// A list of the empty cells below `n` stays one when the record of cell `n`
/// is put behind the records that have no more candidates than it.
proof fn lemma_insert_record(
    g: Grid,
    cells: Seq<(usize, usize, Vec<usize>)>,
    n: int,
    at: int,
    e: (usize, usize, Vec<usize>),
)
    requires
        lists_empty_cells_below(g, cells, n),
        is_record(g, e),
        record_cell(e) == n,
        0 <= at <= cells.len(),
        forall|k: int| at <= k < cells.len() ==> (#[trigger] cells[k]).2@.len() > e.2@.len(),
        at > 0 ==> cells[at - 1].2@.len() <= e.2@.len(),
    ensures
        lists_empty_cells_below(g, cells.insert(at, e), n + 1),
{
    let out = cells.insert(at, e);
    // Where the record at `k` of the new list stood in the old one.
    let from = |k: int| if k < at { k } else { k - 1 };
    assert forall|k: int| 0 <= k < out.len() && k != at implies #[trigger] out[k] == cells[from(
        k,
    )] by {}
    assert forall|i: int| 0 <= i < n + 1 && #[trigger] g[i] == 0 implies exists|k: int|
        0 <= k < out.len() && record_cell(#[trigger] out[k]) == i by {
        if i == n {
            assert(record_cell(out[at]) == i);
        } else {
            let k = choose|k: int| 0 <= k < cells.len() && record_cell(#[trigger] cells[k]) == i;
            let to = if k < at { k } else { k + 1 };
            assert(out[to] == cells[from(to)]);
        }
    }
    assert forall|a: int, b: int| 0 <= a < b < out.len() implies record_before(
        #[trigger] out[a],
        #[trigger] out[b],
    ) by {
        if a == at {
            assert(cells[from(b)].2@.len() > e.2@.len());
        } else if b == at {
            assert(record_cell(cells[a]) < n);
            if a < at - 1 {
                assert(record_before(cells[a], cells[at - 1]));
            }
        } else {
            assert(record_before(cells[from(a)], cells[from(b)]));
        }
    }
}

/// The list of the empty cells is empty exactly when the grid is filled, and
/// otherwise starts with the cell on which the solver branches.
proof fn lemma_first_record(g: Grid, cells: Seq<(usize, usize, Vec<usize>)>)
    requires
        g.len() == 81,
        lists_empty_cells(g, cells),
    ensures
        cells.len() == 0 <==> is_filled(g),
        cells.len() > 0 ==> record_cell(cells[0]) == branch_cell(g),
{
    if cells.len() == 0 {
        assert forall|i: int| 0 <= i < g.len() implies #[trigger] g[i] != 0 by {
            if g[i] == 0 {
                let k = choose|k: int| 0 <= k < cells.len() && record_cell(#[trigger] cells[k]) == i;
            }
        }
    } else {
        let first = cells[0];
        let i = record_cell(first);
        lemma_cell_index(first.0 as int, first.1 as int);
        assert(is_record(g, first));
        assert(g[i] == 0);
        assert forall|j: int| in_grid(j) && #[trigger] g[j] == 0 implies precedes(g, i, j) by {
            let k = choose|k: int| 0 <= k < cells.len() && record_cell(#[trigger] cells[k]) == j;
            assert(is_record(g, cells[k]));
            if k > 0 {
                assert(record_before(cells[0], cells[k]));
            }
        }
        lemma_branch_cell_unique(g, i);
    }
}

/// None of the `k`-th cells of the row, of the column and of the block of the
/// cell in column `x` of row `y` holds `d`.
spec fn clear_at(g: Grid, x: int, y: int, d: usize, k: int) -> bool {
    &&& g[row_cell(y, k)] != d
    &&& g[col_cell(x, k)] != d
    &&& g[block_cell(x, y, k)] != d
}

/// No digit `d` among the first `n` cells of the row, of the column and of the
/// block of the cell in column `x` of row `y`.
spec fn unseen(g: Grid, x: int, y: int, d: usize, n: int) -> bool {
    forall|k: int| 0 <= k < n ==> #[trigger] clear_at(g, x, y, d, k)
}

/// Looking at one more cell of each unit.
proof fn lemma_unseen_step(g: Grid, x: int, y: int, d: usize, n: int)
    requires
        0 <= n,
    ensures
        unseen(g, x, y, d, n + 1) <==> unseen(g, x, y, d, n) && clear_at(g, x, y, d, n),
{
    if unseen(g, x, y, d, n + 1) {
        assert(clear_at(g, x, y, d, n));
        assert forall|k: int| 0 <= k < n implies #[trigger] clear_at(g, x, y, d, k) by {
            assert(0 <= k < n + 1);
        }
    }
    if unseen(g, x, y, d, n) && clear_at(g, x, y, d, n) {
        assert forall|k: int| 0 <= k < n + 1 implies #[trigger] clear_at(g, x, y, d, k) by {
            if k < n {
                assert(clear_at(g, x, y, d, k));
            }
        }
    }
}

/// Once all nine cells of each unit have been looked at, the digits not seen
/// are the candidates.
proof fn lemma_unseen_is_candidate(g: Grid, x: int, y: int, d: usize)
    requires
        g.len() == 81,
        0 <= x < 9,
        0 <= y < 9,
        g[cell_index(x, y)] == 0,
        1 <= d <= 9,
    ensures
        unseen(g, x, y, d, 9) <==> is_candidate(g, cell_index(x, y), d),
{
    let i = cell_index(x, y);
    lemma_cell_index(x, y);
    if unseen(g, x, y, d, 9) {
        assert forall|j: int| #[trigger] shares_unit(i, j) implies g[j] != d by {
            let k = lemma_shared_unit_cell(x, y, j);
            assert(clear_at(g, x, y, d, k));
        }
        assert(is_candidate(g, i, d));
    }
    if is_candidate(g, i, d) {
        assert forall|k: int| 0 <= k < 9 implies #[trigger] clear_at(g, x, y, d, k) by {
            lemma_unit_cells_share(x, y, k);
            assert(shares_unit(i, row_cell(y, k)));
            assert(shares_unit(i, col_cell(x, k)));
            assert(shares_unit(i, block_cell(x, y, k)));
        }
        assert(unseen(g, x, y, d, 9));
    }
}

impl Sudoku {
    /// The digits that may be tried in the cell in column `x` of row `y`, in
    /// ascending order: those that no cell of its row, column or block holds.
    /// A filled cell has none.
    pub fn possible_values(&self, x: usize, y: usize) -> (possibles: Vec<usize>)
        requires
            self.wf(),
            x < 9,
            y < 9,
        ensures
            possibles@ == candidates(self@, cell_index(x as int, y as int)),
            self@[cell_index(x as int, y as int)] != 0 ==> possibles@.len() == 0,
            forall|d: usize|
                possibles@.contains(d) <==> is_candidate(self@, cell_index(x as int, y as int), d),
            forall|a: int, b: int| 0 <= a < b < possibles@.len() ==> possibles@[a] < possibles@[b],
    {
        let ghost g = self@;
        let ghost cell = cell_index(x as int, y as int);
        proof {
            lemma_candidates(g, cell);
        }
        if self.get(x, y) != 0 {
            proof {
                lemma_filled_cell_has_no_candidates(g, cell);
            }
            return Vec::new();
        }
        let mut possible: [bool; 9] = [true; 9];
        let end = (x / 3) * 3;
        let start = (y / 3) * 3;

        let mut ind: usize = 0;
        while ind < 9
            invariant
                ind <= 9,
                x < 9,
                y < 9,
                end == (x / 3) * 3,
                start == (y / 3) * 3,
                g == self@,
                well_formed(g),
                forall|p: int|
                    0 <= p < 9 ==> (#[trigger] possible[p] <==> unseen(
                        g,
                        x as int,
                        y as int,
                        (p + 1) as usize,
                        ind as int,
                    )),
            decreases 9 - ind,
        {
            let i = ind / 3;
            let j = ind % 3;
            let ghost before = possible;
            proof {
                lemma_block_cell(x as int, y as int, ind as int);
            }
            let block_value = self.get(end + j, start + i);
            let col_value = self.get(x, ind);
            let row_value = self.get(ind, y);
            assert(block_value == g[block_cell(x as int, y as int, ind as int)]);
            assert(col_value == g[col_cell(x as int, ind as int)]);
            assert(row_value == g[row_cell(y as int, ind as int)]);

            if block_value > 0 && possible[block_value - 1] {
                possible[block_value - 1] = false;
            }
            if col_value > 0 && possible[col_value - 1] {
                possible[col_value - 1] = false;
            }
            if row_value > 0 && possible[row_value - 1] {
                possible[row_value - 1] = false;
            }
            proof {
                assert forall|p: int| 0 <= p < 9 implies (#[trigger] possible[p] <==> unseen(
                    g,
                    x as int,
                    y as int,
                    (p + 1) as usize,
                    ind + 1,
                )) by {
                    lemma_unseen_step(g, x as int, y as int, (p + 1) as usize, ind as int);
                    assert(possible[p] == (before[p] && block_value != p + 1 && col_value != p + 1
                        && row_value != p + 1));
                }
            }
            ind += 1;
        }

        let mut possibles: Vec<usize> = Vec::new();
        let mut p: usize = 0;
        while p < 9
            invariant
                p <= 9,
                x < 9,
                y < 9,
                g.len() == 81,
                g[cell] == 0,
                cell == cell_index(x as int, y as int),
                forall|q: int|
                    0 <= q < 9 ==> (#[trigger] possible[q] <==> unseen(
                        g,
                        x as int,
                        y as int,
                        (q + 1) as usize,
                        9,
                    )),
                possibles@ == candidates_below(g, cell, p + 1),
            decreases 9 - p,
        {
            proof {
                lemma_unseen_is_candidate(g, x as int, y as int, (p + 1) as usize);
            }
            if possible[p] {
                possibles.push(p + 1);
            }
            p += 1;
        }
        possibles
    }

    /// The empty cells of the board, each with its candidates: those with the
    /// fewest candidates first, and cells with as many candidates in the order
    /// of their position, row by row.
    pub fn get_empty_cells(&self) -> (cells: Vec<(usize, usize, Vec<usize>)>)
        requires
            self.wf(),
        ensures
            lists_empty_cells(self@, cells@),
            cells@.len() == 0 <==> is_filled(self@),
            cells@.len() > 0 ==> record_cell(cells@[0]) == branch_cell(self@),
    {
        let mut cells: Vec<(usize, usize, Vec<usize>)> = Vec::new();
        let mut y: usize = 0;
        while y < 9
            invariant
                y <= 9,
                self.wf(),
                lists_empty_cells_below(self@, cells@, 9 * y),
            decreases 9 - y,
        {
            let mut x: usize = 0;
            while x < 9
                invariant
                    y < 9,
                    x <= 9,
                    self.wf(),
                    lists_empty_cells_below(self@, cells@, 9 * y + x),
                decreases 9 - x,
            {
                if self.get(x, y) == 0 {
                    let possibles = self.possible_values(x, y);
                    let mut at: usize = cells.len();
                    while at > 0 && cells[at - 1].2.len() > possibles.len()
                        invariant
                            at <= cells.len(),
                            forall|k: int|
                                at <= k < cells.len() ==> (#[trigger] cells[k]).2@.len()
                                    > possibles@.len(),
                        decreases at,
                    {
                        at -= 1;
                    }
                    proof {
                        lemma_insert_record(
                            self@,
                            cells@,
                            9 * y + x,
                            at as int,
                            (x, y, possibles),
                        );
                    }
                    cells.insert(at, (x, y, possibles));
                }
                x += 1;
            }
            y += 1;
        }
        proof {
            lemma_first_record(self@, cells@);
        }
        cells
    }

    fn solve_recursive(&mut self) -> (solved: bool)
        requires
            old(self).wf(),
        ensures
            final(self).wf(),
            match search(old(self)@) {
                Some(f) => solved && final(self)@ == f,
                None => !solved && final(self)@ == old(self)@,
            },
        decreases empty_count(old(self)@),
    {
        let ghost g = self@;
        let cells = self.get_empty_cells();
        if cells.len() == 0 {
            return true;
        }
        let x = cells[0].0;
        let y = cells[0].1;
        let ghost cell = cell_index(x as int, y as int);
        proof {
            assert(is_record(g, cells@[0]));
            lemma_candidates(g, cell);
        }
        let count = cells[0].2.len();
        let mut k: usize = 0;
        while k < count
            invariant
                k <= count,
                x < 9,
                y < 9,
                cell == cell_index(x as int, y as int),
                well_formed(g),
                g[cell] == 0,
                self@ == g,
                g == old(self)@,
                cells@.len() > 0,
                count == candidates(g, cell).len(),
                cells@[0].2@ == candidates(g, cell),
                search(g) == search_from(g, cell, k as int),
            decreases count - k,
        {
            let num = cells[0].2[k];
            proof {
                lemma_candidates(g, cell);
                assert(is_candidate(g, cell, num));
                lemma_place_empty_count(g, cell, num);
            }
            self.set(x, y, num);
            if self.solve_recursive() {
                return true;
            }
            self.set(x, y, 0);
            assert(self@ =~= g);
            k += 1;
        }
        false
    }

    /// Fills the empty cells so that no digit is placed into a row, column or
    /// block that holds it already, or reports that this cannot be done.
    ///
    /// The search takes the empty cell with the fewest candidates, the first
    /// of them by position, tries its candidates in ascending order, and goes
    /// on in the same way from each. A digit that leads nowhere is taken out
    /// again, so a board on which the search fails is left as it was.
    ///
    /// The digits that the board holds at the start are not checked against
    /// each other. Where two of them clash, the search may still succeed: the
    /// board then holds those clashes and no others.
    pub fn solve(&mut self) -> (result: Result<(), ()>)
        requires
            old(self).wf(),
        ensures
            final(self).wf(),
            match search(old(self)@) {
                Some(f) => result is Ok && final(self)@ == f,
                None => result is Err && final(self)@ == old(self)@,
            },
            result is Ok <==> exists|f: Grid| completes(old(self)@, f),
            result is Ok ==> completes(old(self)@, final(self)@),
            is_filled(old(self)@) ==> result is Ok && final(self)@ == old(self)@,
            solvable(old(self)@) ==> {
                &&& result is Ok
                &&& extends(old(self)@, final(self)@)
                &&& is_solution(final(self)@)
                &&& units_complete(final(self)@)
            },
    {
        proof {
            lemma_search_sound(self@);
            lemma_search_succeeds_iff(self@);
            if solvable(self@) {
                lemma_search_solves(self@);
                lemma_solution_units_complete(search(self@)->0);
            }
        }
        self.solve_recursive();
        if self.is_filled() {
            return Ok(());
        }
        Err(())
    }
}

} // verus!
