//! The board as text, for people to read.
//!
//! Each row starts with a space; each cell is a digit, or a dot where it is
//! empty, followed by a space; a bar and a space stand after the third and
//! the sixth cell; a line of dashes follows the third and the sixth row.

use vstd::prelude::*;
use vstd::string::StringExecFns;
use crate::grid::{row_cell, well_formed, Grid};
use crate::sudoku::Sudoku;

verus! {

/// The character of the digit `v`.
pub open spec fn digit_char(v: usize) -> char {
    ('0' as int + v) as char
}

/// The text of a cell that holds `v`.
pub open spec fn cell_text(v: usize) -> Seq<char> {
    if v == 0 {
        seq!['.', ' ']
    } else {
        seq![digit_char(v), ' ']
    }
}

/// What stands between cell `x` and the next one of its row.
pub open spec fn cell_gap(x: int) -> Seq<char> {
    if x == 2 || x == 5 {
        seq!['|', ' ']
    } else {
        Seq::empty()
    }
}

/// What ends row `y`.
pub open spec fn row_end(y: int) -> Seq<char> {
    if y == 2 || y == 5 {
        "\n-------+-------+-------\n"@
    } else {
        seq!['\n']
    }
}

/// The text of row `y` up to, and without, cell `n`.
pub open spec fn row_text(g: Grid, y: int, n: int) -> Seq<char>
    decreases n,
{
    if n <= 0 {
        seq![' ']
    } else {
        row_text(g, y, n - 1) + cell_text(g[row_cell(y, n - 1)]) + cell_gap(n - 1)
    }
}

/// The text of the rows before row `n`.
pub open spec fn rows_text(g: Grid, n: int) -> Seq<char>
    decreases n,
{
    if n <= 0 {
        Seq::empty()
    } else {
        rows_text(g, n - 1) + row_text(g, n - 1, 9) + row_end(n - 1)
    }
}

/// The text of a grid.
pub open spec fn grid_text(g: Grid) -> Seq<char> {
    rows_text(g, 9)
}

fn cell_str(v: usize) -> (text: &'static str)
    requires
        v <= 9,
    ensures
        text@ == cell_text(v),
{
    proof {
        reveal_strlit(". ");
        reveal_strlit("1 ");
        reveal_strlit("2 ");
        reveal_strlit("3 ");
        reveal_strlit("4 ");
        reveal_strlit("5 ");
        reveal_strlit("6 ");
        reveal_strlit("7 ");
        reveal_strlit("8 ");
        reveal_strlit("9 ");
    }
    let text = if v == 0 {
        ". "
    } else if v == 1 {
        "1 "
    } else if v == 2 {
        "2 "
    } else if v == 3 {
        "3 "
    } else if v == 4 {
        "4 "
    } else if v == 5 {
        "5 "
    } else if v == 6 {
        "6 "
    } else if v == 7 {
        "7 "
    } else if v == 8 {
        "8 "
    } else {
        "9 "
    };
    assert(text@ =~= cell_text(v));
    text
}

impl Sudoku {
    /// The board as text: nine lines of cells, with a dot for an empty cell,
    /// and a line of dashes between the bands of three rows.
    pub fn render(&self) -> (text: String)
        requires
            self.wf(),
        ensures
            text@ == grid_text(self@),
    {
        let ghost g = self@;
        let mut text = String::new();
        let mut y: usize = 0;
        while y < 9
            invariant
                y <= 9,
                g == self@,
                well_formed(g),
                text@ == rows_text(g, y as int),
            decreases 9 - y,
        {
            let ghost before = text@;
            proof {
                reveal_strlit(" ");
            }
            text.append(" ");
            assert(text@ =~= before + row_text(g, y as int, 0));
            let mut x: usize = 0;
            while x < 9
                invariant
                    x <= 9,
                    y < 9,
                    g == self@,
                    well_formed(g),
                    text@ == before + row_text(g, y as int, x as int),
                decreases 9 - x,
            {
                let ghost so_far = text@;
                text.append(cell_str(self.get(x, y)));
                if (x + 1) % 3 == 0 && x != 8 {
                    proof {
                        reveal_strlit("| ");
                    }
                    text.append("| ");
                }
                assert(text@ =~= so_far + cell_text(g[row_cell(y as int, x as int)]) + cell_gap(
                    x as int,
                ));
                assert(text@ =~= before + row_text(g, y as int, x + 1));
                x += 1;
            }
            if (y + 1) % 3 == 0 && y != 0 && y != 8 {
                text.append("\n-------+-------+-------\n");
            } else {
                proof {
                    reveal_strlit("\n");
                }
                text.append("\n");
            }
            assert(text@ =~= before + row_text(g, y as int, 9) + row_end(y as int));
            y += 1;
        }
        text
    }
}

} // verus!
