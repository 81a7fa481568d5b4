use sudoku::parse::{board_from_string, BoardError};

const PUZZLE: &str =
    "530070000600195000098000060800060003400803001700020006060000280000419005000080079";

#[test]
fn board_from_string_reads_row_by_row() {
    let arr = match board_from_string(String::from(PUZZLE)) {
        Ok(arr) => arr,
        Err(e) => panic!("not a board: {:?}", e),
    };
    assert_eq!(arr[0], [5, 3, 0, 0, 7, 0, 0, 0, 0]);
    assert_eq!(arr[1], [6, 0, 0, 1, 9, 5, 0, 0, 0]);
    assert_eq!(arr[4], [4, 0, 0, 8, 0, 3, 0, 0, 1]);
    assert_eq!(arr[8], [0, 0, 0, 0, 8, 0, 0, 7, 9]);
    let digits: Vec<usize> = PUZZLE.bytes().map(|b| (b - b'0') as usize).collect();
    for i in 0..81 {
        assert_eq!(arr[i / 9][i % 9], digits[i]);
    }
}

#[test]
fn board_from_string_rejects_wrong_length() {
    assert_eq!(board_from_string(String::new()), Err(BoardError::WrongLength));
    assert_eq!(board_from_string("0".repeat(80)), Err(BoardError::WrongLength));
    assert_eq!(board_from_string("0".repeat(82)), Err(BoardError::WrongLength));
    assert_eq!(board_from_string("x".repeat(9)), Err(BoardError::WrongLength));
}

#[test]
fn board_from_string_rejects_a_character_that_is_no_digit() {
    assert_eq!(board_from_string("x".repeat(81)), Err(BoardError::InvalidDigit));
    let text = format!("{}{}", "1".repeat(80), "b");
    assert_eq!(board_from_string(text), Err(BoardError::InvalidDigit));
    let text = format!("{}{}", "+", "1".repeat(80));
    assert_eq!(board_from_string(text), Err(BoardError::InvalidDigit));
}

#[test]
fn board_from_string_accepts_the_empty_board() {
    assert_eq!(board_from_string("0".repeat(81)), Ok([[0usize; 9]; 9]));
}
