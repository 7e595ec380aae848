use sudoku::board::Sudoku;
use sudoku::solver::Outcome;

fn rows_to_board(rows: [&str; 9]) -> Vec<Vec<char>> {
    rows.iter().map(|r| r.chars().collect()).collect()
}

fn easy_board() -> Vec<Vec<char>> {
    rows_to_board([
        "53..7....",
        "6..195...",
        ".98....6.",
        "8...6...3",
        "4..8.3..1",
        "7...2...6",
        ".6....28.",
        "...419..5",
        "....8..79",
    ])
}

fn solved_easy_board() -> Vec<Vec<char>> {
    rows_to_board([
        "534678912",
        "672195348",
        "198342567",
        "859761423",
        "426853791",
        "713924856",
        "961537284",
        "287419635",
        "345286179",
    ])
}

fn row_string(s: &Sudoku, x: usize) -> String {
    let mut out = String::new();
    for y in 0..9 {
        out.push(s.get(x, y));
    }
    out
}

fn cells(s: &Sudoku) -> Vec<char> {
    let mut out = Vec::new();
    for x in 0..9 {
        for y in 0..9 {
            out.push(s.get(x, y));
        }
    }
    out
}

#[test]
fn easy_grid_solves_to_canonical_completion() {
    let mut s = Sudoku::new();
    s.fill(&easy_board());
    let o = s.solve(1_000_000_000);
    assert!(matches!(o, Outcome::Solved(_)));
    assert_eq!(row_string(&s, 0), "534678912");
    assert_eq!(row_string(&s, 8), "345286179");
    let expected = solved_easy_board();
    for x in 0..9 {
        for y in 0..9 {
            assert_eq!(s.get(x, y), expected[x][y]);
        }
    }
    assert!(s.check_sudoku_valid());
}

#[test]
fn fully_empty_grid_solves_within_generous_cap() {
    let mut s = Sudoku::new();
    let o = s.solve(10_000_000);
    assert!(matches!(o, Outcome::Solved(_)));
    assert!(s.check_sudoku_valid());
    for x in 0..9 {
        for y in 0..9 {
            assert_ne!(s.get(x, y), '.');
        }
    }
}

#[test]
fn unsatisfiable_grid_reports_no_solution() {
    // Row 0 holds the digits 1..8, and a pre-filled 9 lower in column 8
    // leaves no candidate for cell (0, 8): the search must exhaust, not
    // merely run out of budget.
    let board = rows_to_board([
        "12345678.",
        ".........",
        "........9",
        ".........",
        ".........",
        ".........",
        ".........",
        ".........",
        ".........",
    ]);
    let mut s = Sudoku::new();
    s.fill(&board);
    assert!(s.check_sudoku_valid());
    let o = s.solve(1_000_000);
    assert_eq!(o, Outcome::NoSolution);
    // The board is handed back exactly as it was.
    for x in 0..9 {
        for y in 0..9 {
            assert_eq!(s.get(x, y), board[x][y]);
        }
    }
}

#[test]
fn full_grid_is_already_solved() {
    let mut s = Sudoku::new();
    let solved = solved_easy_board();
    s.fill(&solved);
    let o = s.solve(1_000_000);
    assert_eq!(o, Outcome::AlreadySolved);
    for x in 0..9 {
        for y in 0..9 {
            assert_eq!(s.get(x, y), solved[x][y]);
        }
    }
}

#[test]
fn solving_twice_is_idempotent() {
    let mut s = Sudoku::new();
    s.fill(&easy_board());
    let first = s.solve(1_000_000_000);
    assert!(matches!(first, Outcome::Solved(_)));
    let after_first = cells(&s);
    let second = s.solve(1_000_000_000);
    assert_eq!(second, Outcome::AlreadySolved);
    assert_eq!(cells(&s), after_first);
}

#[test]
fn identical_inputs_give_identical_outputs() {
    let mut a = Sudoku::new();
    let mut b = Sudoku::new();
    a.fill(&easy_board());
    b.fill(&easy_board());
    let oa = a.solve(1_000_000);
    let ob = b.solve(1_000_000);
    assert_eq!(oa, ob);
    assert_eq!(cells(&a), cells(&b));
}

#[test]
fn a_cap_just_above_the_step_count_still_solves() {
    let mut a = Sudoku::new();
    a.fill(&easy_board());
    let k = match a.solve(1_000_000) {
        Outcome::Solved(k) => k,
        o => panic!("expected a solved board, got {:?}", o),
    };
    let mut b = Sudoku::new();
    b.fill(&easy_board());
    let o = b.solve(k + 1);
    assert_eq!(o, Outcome::Solved(k));
    assert_eq!(cells(&a), cells(&b));
}

#[test]
fn a_tiny_cap_exhausts_without_touching_originals() {
    let mut s = Sudoku::new();
    s.fill(&easy_board());
    let o = s.solve(3);
    assert_eq!(o, Outcome::Exhausted);
    assert_eq!(s.get(0, 0), '5');
    assert_eq!(s.get(8, 8), '9');
}

#[test]
fn a_zero_cap_exhausts_immediately() {
    let mut s = Sudoku::new();
    s.fill(&easy_board());
    let o = s.solve(0);
    assert_eq!(o, Outcome::Exhausted);
    for (x, row) in easy_board().iter().enumerate() {
        for (y, c) in row.iter().enumerate() {
            assert_eq!(s.get(x, y), *c);
        }
    }
}

#[test]
fn conflicting_originals_still_terminate() {
    // Two fixed 5s share row 0; the solver is not meant for such input but
    // must still terminate without touching the fixed cells.
    let mut s = Sudoku::new();
    s.populate(0, 0, '5');
    s.populate(0, 3, '5');
    let o = s.solve(100_000);
    assert_ne!(o, Outcome::AlreadySolved);
    assert_eq!(s.get(0, 0), '5');
    assert_eq!(s.get(0, 3), '5');
    assert!(!s.check_pos_for_valid(0, 0));
}
