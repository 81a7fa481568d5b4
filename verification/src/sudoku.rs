//! The board: a 9×9 array of cells.

use vstd::prelude::*;
use crate::grid::{cell_index, grid_of, is_filled, well_formed, Grid};
use crate::grid_lemmas::lemma_cell_index;
use crate::parse::{is_board_text, parse, read_board, BoardError};

verus! {

/// A 9×9 Sudoku board. A cell holds 0 when it is empty.
pub struct Sudoku {
    board: [[usize; 9]; 9],
}

impl View for Sudoku {
    type V = Grid;

    closed spec fn view(&self) -> Grid {
        grid_of(self.board)
    }
}

impl Sudoku {
    /// Every cell is empty or holds a digit from 1 to 9.
    pub open spec fn wf(&self) -> bool {
        well_formed(self@)
    }

    /// Wraps a 9×9 array of cell values, `arr[row][column]`. Nothing is
    /// checked: the board is well formed when no value exceeds 9.
    pub fn from(arr: [[usize; 9]; 9]) -> (s: Self)
        ensures
            s@ == grid_of(arr),
    {
        Self { board: arr }
    }

    /// Reads a board from a text of 81 digits written row by row, with 0 for
    /// an empty cell, or says why the text is not a board.
    pub fn from_string(board_str: &str) -> (result: Result<Self, BoardError>)
        ensures
            match result {
                Ok(s) => parse(board_str@) == Ok::<Grid, BoardError>(s@) && s.wf(),
                Err(e) => parse(board_str@) == Err::<Grid, BoardError>(e),
            },
            result is Ok <==> is_board_text(board_str@),
    {
        match read_board(board_str) {
            Ok(arr) => Ok(Self::from(arr)),
            Err(e) => Err(e),
        }
    }

    /// The value of the cell in column `x` of row `y`.
    pub fn get(&self, x: usize, y: usize) -> (v: usize)
        requires
            x < 9,
            y < 9,
        ensures
            v == self@[cell_index(x as int, y as int)],
    {
        proof {
            lemma_cell_index(x as int, y as int);
        }
        self.board[y][x]
    }

    /// Puts `v` into the cell in column `x` of row `y`.
    pub(crate) fn set(&mut self, x: usize, y: usize, v: usize)
        requires
            x < 9,
            y < 9,
        ensures
            final(self)@ == old(self)@.update(cell_index(x as int, y as int), v),
    {
        self.board[y][x] = v;
        assert(self@ =~= old(self)@.update(cell_index(x as int, y as int), v));
    }

    /// Whether every cell is empty or holds a digit from 1 to 9: what the
    /// solver asks of a board.
    pub fn is_well_formed(&self) -> (ok: bool)
        ensures
            ok == self.wf(),
    {
        let mut y: usize = 0;
        while y < 9
            invariant
                y <= 9,
                self@.len() == 81,
                forall|i: int| 0 <= i < 9 * y ==> #[trigger] self@[i] <= 9,
            decreases 9 - y,
        {
            let mut x: usize = 0;
            while x < 9
                invariant
                    y < 9,
                    x <= 9,
                    self@.len() == 81,
                    forall|i: int| 0 <= i < 9 * y + x ==> #[trigger] self@[i] <= 9,
                decreases 9 - x,
            {
                if self.get(x, y) > 9 {
                    return false;
                }
                x += 1;
            }
            y += 1;
        }
        true
    }

    /// Whether no cell is empty.
    pub fn is_filled(&self) -> (filled: bool)
        ensures
            filled == is_filled(self@),
    {
        let mut y: usize = 0;
        while y < 9
            invariant
                y <= 9,
                forall|i: int| 0 <= i < 9 * y ==> #[trigger] self@[i] != 0,
            decreases 9 - y,
        {
            let mut x: usize = 0;
            while x < 9
                invariant
                    y < 9,
                    x <= 9,
                    forall|i: int| 0 <= i < 9 * y + x ==> #[trigger] self@[i] != 0,
                decreases 9 - x,
            {
                if self.get(x, y) == 0 {
                    return false;
                }
                x += 1;
            }
            y += 1;
        }
        true
    }
}

} // verus!
