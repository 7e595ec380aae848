use sudoku::board::Sudoku;

fn rows_to_board(rows: [&str; 9]) -> Vec<Vec<char>> {
    rows.iter().map(|r| r.chars().collect()).collect()
}

#[test]
fn new_board_is_empty_and_valid() {
    let s = Sudoku::new();
    for x in 0..9 {
        for y in 0..9 {
            assert_eq!(s.get(x, y), '.');
            assert!(s.check_pos_for_valid(x, y));
        }
    }
    assert!(s.check_sudoku_valid());
}

#[test]
fn populate_and_remove_entry() {
    let mut s = Sudoku::new();
    s.populate(2, 3, '7');
    assert_eq!(s.get(2, 3), '7');
    assert_eq!(s.get(3, 2), '.');
    assert_eq!(s.get(2, 4), '.');
    s.remove_entry(2, 3);
    assert_eq!(s.get(2, 3), '.');
}

#[test]
fn populate_grid_fills_one_box() {
    let mut s = Sudoku::new();
    let arr = vec!['1', '2', '3', '4', '5', '6', '7', '8', '9'];
    s.populate_grid(1, 2, &arr);
    // Box column 1, box row 2: rows 6..9, columns 3..6, filled row by row.
    for a in 0..3 {
        for b in 0..3 {
            assert_eq!(s.get(6 + a, 3 + b), arr[a * 3 + b]);
        }
    }
    // Everything outside that box is untouched.
    assert_eq!(s.get(0, 0), '.');
    assert_eq!(s.get(6, 2), '.');
    assert_eq!(s.get(5, 3), '.');
}

#[test]
fn populate_grid_out_of_range_is_a_no_op() {
    let mut s = Sudoku::new();
    let arr = vec!['1', '2', '3', '4', '5', '6', '7', '8', '9'];
    s.populate_grid(3, 0, &arr);
    for x in 0..9 {
        for y in 0..9 {
            assert_eq!(s.get(x, y), '.');
        }
    }
}

#[test]
fn validator_flags_row_conflict() {
    let mut s = Sudoku::new();
    s.populate(0, 0, '5');
    s.populate(0, 3, '5');
    assert!(!s.check_pos_for_valid(0, 0));
    assert!(!s.check_pos_for_valid(0, 3));
    assert!(s.check_pos_for_valid(1, 1));
    assert!(!s.check_sudoku_valid());
}

#[test]
fn validator_flags_column_conflict() {
    let mut s = Sudoku::new();
    s.populate(1, 4, '9');
    s.populate(7, 4, '9');
    assert!(!s.check_pos_for_valid(1, 4));
    assert!(!s.check_pos_for_valid(7, 4));
    assert!(!s.check_sudoku_valid());
}

#[test]
fn validator_flags_box_conflict() {
    let mut s = Sudoku::new();
    // (4, 4) and (5, 3) share the central box but no row or column.
    s.populate(4, 4, '2');
    s.populate(5, 3, '2');
    assert!(!s.check_pos_for_valid(4, 4));
    assert!(!s.check_pos_for_valid(5, 3));
    assert!(!s.check_sudoku_valid());
}

#[test]
fn distinct_digits_do_not_conflict() {
    let mut s = Sudoku::new();
    s.populate(0, 0, '5');
    s.populate(0, 1, '6');
    s.populate(1, 0, '7');
    assert!(s.check_pos_for_valid(0, 0));
    assert!(s.check_pos_for_valid(0, 1));
    assert!(s.check_pos_for_valid(1, 0));
    assert!(s.check_sudoku_valid());
}

#[test]
fn invalid_cells_lists_exactly_the_conflicts() {
    let mut s = Sudoku::new();
    s.populate(0, 0, '5');
    s.populate(0, 3, '5');
    let v = s.invalid_cells();
    assert_eq!(v, vec![(0, 0), (0, 3)]);
    let clean = Sudoku::new();
    assert_eq!(clean.invalid_cells(), vec![]);
}

#[test]
fn fill_copies_every_cell() {
    let board = rows_to_board([
        "53..7....",
        "6..195...",
        ".98....6.",
        "8...6...3",
        "4..8.3..1",
        "7...2...6",
        ".6....28.",
        "...419..5",
        "....8..79",
    ]);
    let mut s = Sudoku::new();
    s.fill(&board);
    for x in 0..9 {
        for y in 0..9 {
            assert_eq!(s.get(x, y), board[x][y]);
        }
    }
    assert!(s.check_sudoku_valid());
}
