//! Boards written as text: 81 decimal digits, row by row, with 0 for an
//! empty cell.

use vstd::prelude::*;
use vstd::string::StrSliceExecFns;
use crate::grid::{grid_of, Grid};

verus! {

/// Why a text is not a board.
#[derive(Debug, Clone, Copy, PartialEq, Eq)]
pub enum BoardError {
    /// The text does not have 81 characters.
    WrongLength,
    /// The text has 81 characters, and one of them is not a decimal digit.
    InvalidDigit,
}

/// `c` is one of the characters `0` to `9`.
pub open spec fn is_digit(c: char) -> bool {
    '0' <= c <= '9'
}

/// The number that the digit `c` stands for.
pub open spec fn digit_value(c: char) -> usize {
    (c as int - '0' as int) as usize
}

/// The text is a board: 81 characters, all of them digits.
pub open spec fn is_board_text(text: Seq<char>) -> bool {
    &&& text.len() == 81
    &&& forall|i: int| 0 <= i < 81 ==> is_digit(#[trigger] text[i])
}

/// The grid that a board text describes: character `i` is the cell in row
/// `i / 9` and column `i % 9`.
pub open spec fn grid_of_text(text: Seq<char>) -> Grid {
    Seq::new(81, |i: int| digit_value(text[i]))
}

/// What reading a text gives: the error, or the grid.
pub open spec fn parse(text: Seq<char>) -> Result<Grid, BoardError> {
    if text.len() != 81 {
        Err(BoardError::WrongLength)
    } else if !is_board_text(text) {
        Err(BoardError::InvalidDigit)
    } else {
        Ok(grid_of_text(text))
    }
}

fn digit_of(c: char) -> (value: Option<usize>)
    ensures
        value == if is_digit(c) {
            Some(digit_value(c))
        } else {
            None::<usize>
        },
{
    if '0' <= c && c <= '9' {
        Some((c as u32 - '0' as u32) as usize)
    } else {
        None
    }
}

/// Reads a board from its text.
pub(crate) fn read_board(text: &str) -> (result: Result<[[usize; 9]; 9], BoardError>)
    ensures
        match result {
            Ok(arr) => parse(text@) == Ok::<Grid, BoardError>(grid_of(arr)),
            Err(e) => parse(text@) == Err::<Grid, BoardError>(e),
        },
{
    if text.unicode_len() != 81 {
        return Err(BoardError::WrongLength);
    }
    let mut board = [[0usize; 9]; 9];
    let mut i: usize = 0;
    while i < 81
        invariant
            i <= 81,
            text@.len() == 81,
            forall|j: int| 0 <= j < i ==> is_digit(#[trigger] text@[j]),
            forall|j: int| 0 <= j < i ==> #[trigger] grid_of(board)[j] == digit_value(text@[j]),
        decreases 81 - i,
    {
        let row = i / 9;
        let col = i % 9;
        let ghost before = board;
        match digit_of(text.get_char(i)) {
            Some(digit) => {
                board[row][col] = digit;
            },
            None => {
                return Err(BoardError::InvalidDigit);
            },
        }
        proof {
            assert(grid_of(board) =~= grid_of(before).update(i as int, digit_value(text@[i as int])));
        }
        i += 1;
    }
    proof {
        assert(grid_of(board) =~= grid_of_text(text@));
    }
    Ok(board)
}

/// Reads a 9×9 array of cell values, `[row][column]`, from a text of 81
/// digits written row by row, or says why the text is not a board.
pub fn board_from_string(board: String) -> (result: Result<[[usize; 9]; 9], BoardError>)
    ensures
        match result {
            Ok(arr) => parse(board@) == Ok::<Grid, BoardError>(grid_of(arr)),
            Err(e) => parse(board@) == Err::<Grid, BoardError>(e),
        },
        result is Ok <==> is_board_text(board@),
{
    read_board(board.as_str())
}

} // verus!
