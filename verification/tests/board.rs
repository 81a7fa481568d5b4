use sudoku::BoardError;
use sudoku::Sudoku;

const PUZZLE: &str =
    "530070000600195000098000060800060003400803001700020006060000280000419005000080079";
const SOLVED: &str =
    "534678912672195348198342567859761423426853791713924856961537284287419635345286179";

fn board(text: &str) -> Sudoku {
    match Sudoku::from_string(text) {
        Ok(s) => s,
        Err(e) => panic!("not a board: {:?}", e),
    }
}

fn error_of(text: &str) -> Option<BoardError> {
    match Sudoku::from_string(text) {
        Ok(_) => None,
        Err(e) => Some(e),
    }
}

#[test]
fn from_keeps_every_cell_at_its_row_and_column() {
    let mut arr = [[0usize; 9]; 9];
    for row in 0..9 {
        for col in 0..9 {
            arr[row][col] = (row * 9 + col) % 10;
        }
    }
    let s = Sudoku::from(arr);
    for row in 0..9 {
        for col in 0..9 {
            assert_eq!(s.get(col, row), arr[row][col]);
        }
    }
}

#[test]
fn from_does_not_validate() {
    let mut arr = [[0usize; 9]; 9];
    arr[2][7] = 12;
    let s = Sudoku::from(arr);
    assert_eq!(s.get(7, 2), 12);
    assert!(!s.is_well_formed());
    assert!(!s.is_filled());
}

#[test]
fn from_string_maps_index_to_row_and_column() {
    let s = board(PUZZLE);
    let digits: Vec<usize> = PUZZLE.bytes().map(|b| (b - b'0') as usize).collect();
    for i in 0..81 {
        assert_eq!(s.get(i % 9, i / 9), digits[i]);
    }
    assert_eq!(s.get(1, 0), 3);
    assert_eq!(s.get(0, 1), 6);
    assert_eq!(s.get(8, 8), 9);
    assert!(s.is_well_formed());
}

#[test]
fn from_string_rejects_wrong_length() {
    assert_eq!(error_of(""), Some(BoardError::WrongLength));
    assert_eq!(error_of(&PUZZLE[..80]), Some(BoardError::WrongLength));
    assert_eq!(error_of(&format!("{}0", PUZZLE)), Some(BoardError::WrongLength));
    assert_eq!(error_of("12x"), Some(BoardError::WrongLength));
}

#[test]
fn from_string_rejects_a_letter() {
    let mut text = String::from(&PUZZLE[..40]);
    text.push('a');
    text.push_str(&PUZZLE[41..]);
    assert_eq!(text.len(), 81);
    assert_eq!(error_of(&text), Some(BoardError::InvalidDigit));
}

#[test]
fn from_string_rejects_other_characters() {
    for bad in ['.', ' ', '-', '/', ':', 'Z'] {
        let mut text = String::from(&PUZZLE[..80]);
        text.push(bad);
        assert_eq!(error_of(&text), Some(BoardError::InvalidDigit));
        let mut text = String::new();
        text.push(bad);
        text.push_str(&PUZZLE[1..]);
        assert_eq!(error_of(&text), Some(BoardError::InvalidDigit));
    }
}

#[test]
fn from_string_counts_characters() {
    // 81 characters, one of them outside ASCII.
    let mut text = String::from(&PUZZLE[..80]);
    text.push('é');
    assert_eq!(text.chars().count(), 81);
    assert_eq!(error_of(&text), Some(BoardError::InvalidDigit));
    // 81 bytes, 80 characters.
    let mut text = String::from(&PUZZLE[..79]);
    text.push('é');
    assert_eq!(text.len(), 81);
    assert_eq!(error_of(&text), Some(BoardError::WrongLength));
    // A digit of another script is no digit here.
    let mut text = String::from(&PUZZLE[..80]);
    text.push('٣');
    assert_eq!(error_of(&text), Some(BoardError::InvalidDigit));
}

#[test]
fn from_string_accepts_every_digit() {
    let text = "012345678".repeat(8) + "999999999";
    let s = board(&text);
    for col in 0..9 {
        assert_eq!(s.get(col, 3), col);
        assert_eq!(s.get(col, 8), 9);
    }
}

#[test]
fn is_filled_tells_whether_a_cell_is_empty() {
    assert!(board(SOLVED).is_filled());
    assert!(!board(PUZZLE).is_filled());
    assert!(!board(&"0".repeat(81)).is_filled());
    let mut text = String::from(&SOLVED[..80]);
    text.push('0');
    assert!(!board(&text).is_filled());
    let text = format!("0{}", &SOLVED[1..]);
    assert!(!board(&text).is_filled());
}

#[test]
fn is_filled_does_not_look_at_the_rules() {
    assert!(Sudoku::from([[7usize; 9]; 9]).is_filled());
}

#[test]
fn is_well_formed_tells_whether_values_are_in_range() {
    assert!(Sudoku::from([[0usize; 9]; 9]).is_well_formed());
    assert!(Sudoku::from([[9usize; 9]; 9]).is_well_formed());
    let mut arr = [[1usize; 9]; 9];
    arr[8][8] = 10;
    assert!(!Sudoku::from(arr).is_well_formed());
    let mut arr = [[1usize; 9]; 9];
    arr[0][0] = usize::MAX;
    assert!(!Sudoku::from(arr).is_well_formed());
}

#[test]
fn render_draws_the_puzzle() {
    let expected = " 5 3 . | . 7 . | . . . \n 6 . . | 1 9 5 | . . . \n . 9 8 | . . . | . 6 . \n\
                    -------+-------+-------\n 8 . . | . 6 . | . . 3 \n 4 . . | 8 . 3 | . . 1 \n 7 . . | . 2 . | . . 6 \n\
                    -------+-------+-------\n . 6 . | . . . | 2 8 . \n . . . | 4 1 9 | . . 5 \n . . . | . 8 . | . 7 9 \n";
    assert_eq!(board(PUZZLE).render(), expected);
}

#[test]
fn render_draws_an_empty_board() {
    let row = " . . . | . . . | . . . \n";
    let rule = "-------+-------+-------\n";
    let expected = [row, row, row, rule, row, row, row, rule, row, row, row].concat();
    assert_eq!(Sudoku::from([[0usize; 9]; 9]).render(), expected);
}

#[test]
fn render_draws_every_digit() {
    let text = board(SOLVED).render();
    let lines: Vec<&str> = text.split('\n').collect();
    assert_eq!(lines.len(), 12);
    assert_eq!(lines[0], " 5 3 4 | 6 7 8 | 9 1 2 ");
    assert_eq!(lines[3], "-------+-------+-------");
    assert_eq!(lines[7], "-------+-------+-------");
    assert_eq!(lines[10], " 3 4 5 | 2 8 6 | 1 7 9 ");
    assert_eq!(lines[11], "");
}
