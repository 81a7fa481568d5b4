use sudoku::Sudoku;

const PUZZLE: &str =
    "530070000600195000098000060800060003400803001700020006060000280000419005000080079";
const SOLVED: &str =
    "534678912672195348198342567859761423426853791713924856961537284287419635345286179";

fn board(text: &str) -> Sudoku {
    match Sudoku::from_string(text) {
        Ok(s) => s,
        Err(e) => panic!("not a board: {:?}", e),
    }
}

fn cells(s: &Sudoku) -> [[usize; 9]; 9] {
    let mut arr = [[0usize; 9]; 9];
    for y in 0..9 {
        for x in 0..9 {
            arr[y][x] = s.get(x, y);
        }
    }
    arr
}

fn text_of(s: &Sudoku) -> String {
    let mut out = String::new();
    for row in cells(s) {
        for v in row {
            out.push_str(&format!("{}", v));
        }
    }
    out
}

fn is_one_to_nine(mut unit: Vec<usize>) -> bool {
    unit.sort();
    unit == vec![1, 2, 3, 4, 5, 6, 7, 8, 9]
}

fn obeys_the_rules(s: &Sudoku) -> bool {
    let arr = cells(s);
    (0..9).all(|i| {
        let row: Vec<usize> = (0..9).map(|k| arr[i][k]).collect();
        let col: Vec<usize> = (0..9).map(|k| arr[k][i]).collect();
        let block: Vec<usize> =
            (0..9).map(|k| arr[(i / 3) * 3 + k / 3][(i % 3) * 3 + k % 3]).collect();
        is_one_to_nine(row) && is_one_to_nine(col) && is_one_to_nine(block)
    })
}

#[test]
fn candidates_of_a_filled_cell_are_empty() {
    let s = board(PUZZLE);
    assert_eq!(s.possible_values(0, 0), Vec::<usize>::new());
    assert_eq!(s.possible_values(4, 1), Vec::<usize>::new());
    assert_eq!(s.possible_values(8, 8), Vec::<usize>::new());
    let full = board(SOLVED);
    for y in 0..9 {
        for x in 0..9 {
            assert!(full.possible_values(x, y).is_empty());
        }
    }
}

#[test]
fn candidates_of_a_cell_on_an_empty_board_are_all_digits() {
    let s = Sudoku::from([[0usize; 9]; 9]);
    for y in 0..9 {
        for x in 0..9 {
            assert_eq!(s.possible_values(x, y), vec![1, 2, 3, 4, 5, 6, 7, 8, 9]);
        }
    }
}

#[test]
fn candidates_leave_out_row_column_and_block() {
    let mut arr = [[0usize; 9]; 9];
    arr[0][0] = 5;
    let s = Sudoku::from(arr);
    // same row, same column, same block
    assert_eq!(s.possible_values(8, 0), vec![1, 2, 3, 4, 6, 7, 8, 9]);
    assert_eq!(s.possible_values(0, 8), vec![1, 2, 3, 4, 6, 7, 8, 9]);
    assert_eq!(s.possible_values(2, 2), vec![1, 2, 3, 4, 6, 7, 8, 9]);
    // no common unit
    assert_eq!(s.possible_values(3, 3), vec![1, 2, 3, 4, 5, 6, 7, 8, 9]);
    assert_eq!(s.possible_values(3, 1), vec![1, 2, 3, 4, 5, 6, 7, 8, 9]);
}

#[test]
fn candidates_of_the_puzzle() {
    let s = board(PUZZLE);
    assert_eq!(s.possible_values(4, 4), vec![5]);
    assert_eq!(s.possible_values(3, 0), vec![2, 6]);
    assert_eq!(s.possible_values(0, 2), vec![1, 2]);
    assert_eq!(s.possible_values(2, 0), vec![1, 2, 4]);
    assert_eq!(s.possible_values(2, 6), vec![1, 3, 4, 5, 7, 9]);
}

#[test]
fn candidates_can_be_none_for_an_empty_cell() {
    let mut arr = [[0usize; 9]; 9];
    for k in 0..8 {
        arr[0][k] = k + 1;
    }
    arr[5][8] = 9;
    let s = Sudoku::from(arr);
    assert_eq!(s.get(8, 0), 0);
    assert_eq!(s.possible_values(8, 0), Vec::<usize>::new());
}

#[test]
fn candidates_beside_two_equal_digits_in_a_row() {
    let mut arr = [[0usize; 9]; 9];
    arr[0][0] = 5;
    arr[0][4] = 5;
    let s = Sudoku::from(arr);
    for x in [1, 2, 3, 5, 6, 7, 8] {
        assert_eq!(s.possible_values(x, 0), vec![1, 2, 3, 4, 6, 7, 8, 9]);
    }
}

#[test]
fn empty_cells_of_a_full_board_are_none() {
    assert!(board(SOLVED).get_empty_cells().is_empty());
}

#[test]
fn empty_cells_come_by_number_of_candidates_then_by_position() {
    let cells = board(PUZZLE).get_empty_cells();
    assert_eq!(cells.len(), 51);
    let first: Vec<(usize, usize, Vec<usize>)> = vec![
        (4, 4, vec![5]),
        (5, 6, vec![7]),
        (8, 6, vec![4]),
        (7, 7, vec![3]),
        (3, 0, vec![2, 6]),
        (0, 2, vec![1, 2]),
        (3, 2, vec![2, 3]),
        (4, 2, vec![3, 4]),
    ];
    assert_eq!(&cells[..8], &first[..]);
    assert_eq!(cells[48], (6, 2, vec![1, 3, 4, 5, 7]));
    assert_eq!(cells[49], (2, 8, vec![1, 2, 3, 4, 5]));
    assert_eq!(cells[50], (2, 6, vec![1, 3, 4, 5, 7, 9]));
    for pair in cells.windows(2) {
        let (a, b) = (&pair[0], &pair[1]);
        assert!(a.2.len() < b.2.len() || (a.2.len() == b.2.len() && a.1 * 9 + a.0 < b.1 * 9 + b.0));
    }
}

#[test]
fn empty_cells_with_as_many_candidates_come_row_by_row() {
    let text = "004678912672195348198342567859761423426803791713924856961537284287419635345286170";
    let cells = board(text).get_empty_cells();
    let expected: Vec<(usize, usize, Vec<usize>)> =
        vec![(0, 0, vec![5]), (1, 0, vec![3]), (4, 4, vec![5]), (8, 8, vec![9])];
    assert_eq!(cells, expected);
}

#[test]
fn empty_cells_of_an_empty_board_are_all_cells() {
    let cells = Sudoku::from([[0usize; 9]; 9]).get_empty_cells();
    assert_eq!(cells.len(), 81);
    for (i, cell) in cells.iter().enumerate() {
        assert_eq!(cell, &(i % 9, i / 9, vec![1, 2, 3, 4, 5, 6, 7, 8, 9]));
    }
}

#[test]
fn empty_cells_put_a_cell_without_candidates_first() {
    let mut arr = [[0usize; 9]; 9];
    for k in 0..8 {
        arr[8][k] = k + 1;
    }
    arr[2][8] = 9;
    let cells = Sudoku::from(arr).get_empty_cells();
    assert_eq!(cells.len(), 72);
    assert_eq!(cells[0], (8, 8, vec![]));
}

#[test]
fn solve_leaves_a_full_valid_board_as_it_is() {
    let mut s = board(SOLVED);
    assert_eq!(s.solve(), Ok(()));
    assert_eq!(text_of(&s), SOLVED);
    assert!(s.is_filled());
}

#[test]
fn solve_twice_is_solve_once() {
    let mut s = board(PUZZLE);
    assert_eq!(s.solve(), Ok(()));
    let once = text_of(&s);
    assert_eq!(s.solve(), Ok(()));
    assert_eq!(text_of(&s), once);
}

#[test]
fn solve_leaves_a_full_board_with_clashes_as_it_is() {
    let mut s = Sudoku::from([[7usize; 9]; 9]);
    assert_eq!(s.solve(), Ok(()));
    assert_eq!(cells(&s), [[7usize; 9]; 9]);
}

#[test]
fn solve_finds_the_solution_of_the_puzzle() {
    let mut s = board(PUZZLE);
    assert_eq!(s.solve(), Ok(()));
    assert_eq!(text_of(&s), SOLVED);
    assert!(s.is_filled());
    assert!(obeys_the_rules(&s));
}

#[test]
fn solve_keeps_the_digits_it_was_given() {
    let given = cells(&board(PUZZLE));
    let mut s = board(PUZZLE);
    assert_eq!(s.solve(), Ok(()));
    let solved = cells(&s);
    for y in 0..9 {
        for x in 0..9 {
            if given[y][x] != 0 {
                assert_eq!(solved[y][x], given[y][x]);
            }
        }
    }
}

#[test]
fn solve_fills_an_empty_board() {
    let mut s = board(&"0".repeat(81));
    assert_eq!(s.solve(), Ok(()));
    assert!(s.is_filled());
    assert!(s.is_well_formed());
    assert!(obeys_the_rules(&s));
}

#[test]
fn solve_fills_the_one_empty_cell() {
    let text = "534678912672195348198342567859761423426803791713924856961537284287419635345286179";
    let mut s = board(text);
    assert_eq!(s.get(4, 4), 0);
    assert_eq!(s.possible_values(4, 4), vec![5]);
    assert_eq!(s.solve(), Ok(()));
    assert_eq!(s.get(4, 4), 5);
    assert_eq!(text_of(&s), SOLVED);
}

#[test]
fn solve_fails_where_a_cell_has_no_candidate() {
    let mut arr = [[0usize; 9]; 9];
    for k in 0..8 {
        arr[0][k] = k + 1;
    }
    arr[5][8] = 9;
    let mut s = Sudoku::from(arr);
    assert_eq!(s.solve(), Err(()));
    assert!(!s.is_filled());
    assert_eq!(cells(&s), arr);
}

#[test]
fn solve_fails_after_a_search_and_restores_the_board() {
    let text = "531070000600195000098000060800060003400803001700020006060000280000419005000080079";
    let mut s = board(text);
    assert_eq!(s.solve(), Err(()));
    assert!(!s.is_filled());
    assert_eq!(text_of(&s), text);
}

#[test]
fn solve_does_not_check_the_given_digits() {
    // Two fives in the first row, and its last cell empty.
    let text = "535678910672195348198342567859761423426853791713924856961537284287419635345286179";
    let mut s = board(text);
    assert_eq!(s.possible_values(8, 0), vec![2]);
    assert_eq!(s.solve(), Ok(()));
    assert!(s.is_filled());
    assert_eq!(s.get(0, 0), 5);
    assert_eq!(s.get(2, 0), 5);
    assert_eq!(s.get(8, 0), 2);
    assert!(!obeys_the_rules(&s));
    assert_eq!(
        text_of(&s),
        "535678912672195348198342567859761423426853791713924856961537284287419635345286179"
    );
}
