use sudoku::suduko::{is_well_formed, Bruteforce};
use sudoku::{Grid, Solver};

fn empty() -> Grid {
    vec![vec![0; 9]; 9]
}

fn from_rows(rows: [&str; 9]) -> Grid {
    rows.iter()
        .map(|r| r.chars().map(|c| if c == '.' { 0 } else { c.to_digit(10).unwrap() as u8 }).collect())
        .collect()
}

fn grid() -> Bruteforce {
    let mut g = empty();
    g[0][0] = 1;
    g[1][6] = 3;
    g[4][4] = 5;
    g[8][8] = 9;
    Bruteforce::new(g)
}

fn invalid_row_grid() -> Bruteforce {
    let mut g = empty();
    g[0][0] = 1;
    g[0][8] = 1;
    Bruteforce::new(g)
}

fn invalid_column_grid() -> Bruteforce {
    let mut g = empty();
    g[1][4] = 5;
    g[4][4] = 5;
    Bruteforce::new(g)
}

fn invalid_square_grid() -> Bruteforce {
    let mut g = empty();
    g[3][6] = 1;
    g[5][8] = 1;
    g[7][7] = 9;
    g[8][8] = 9;
    Bruteforce::new(g)
}

fn puzzle() -> Grid {
    from_rows([
        "53..7....", "6..195...", ".98....6.", "8...6...3", "4..8.3..1", "7...2...6",
        ".6....28.", "...419..5", "....8..79",
    ])
}

fn puzzle_solution() -> Grid {
    from_rows([
        "534678912", "672195348", "198342567", "859761423", "426853791", "713924856",
        "961537284", "287419635", "345286179",
    ])
}

fn is_filled_valid(g: &Grid) -> bool {
    let s = Bruteforce::new(g.clone());
    s.next_entry_to_change().is_none() && s.is_valid()
}

#[test]
fn test_next_entry() {
    let next_entry = Bruteforce::next_entry_to_change(&grid());
    assert_eq!(next_entry, Some((0, 1)))
}

#[test]
fn has_duplicate_with_duplicate() {
    let row = vec![0, 1, 2, 0, 1, 0, 0, 0, 0];
    let has_duplicate = Bruteforce::has_duplicate(&row);
    assert!(has_duplicate)
}

#[test]
fn has_duplicate_with_no() {
    let row = vec![0, 1, 2, 0, 3, 0, 5, 0, 8];
    let has_duplicate = Bruteforce::has_duplicate(&row);
    assert!(!has_duplicate)
}

#[test]
fn can_insert() {
    let can_insert = Bruteforce::can_insert(&grid(), 1, (1, 4));
    assert!(can_insert)
}

#[test]
fn cannot_insert_duplicate_on_row() {
    let can_insert = Bruteforce::can_insert(&invalid_row_grid(), 1, (0, 5));
    assert!(!can_insert)
}

#[test]
fn cannot_insert_duplicate_on_column() {
    let can_insert = Bruteforce::can_insert(&invalid_column_grid(), 5, (7, 4));
    assert!(!can_insert)
}

#[test]
fn cannot_insert_duplicate_on_square() {
    let can_insert = Bruteforce::can_insert(&invalid_square_grid(), 9, (6, 6));
    assert!(!can_insert)
}

#[test]
fn extract_col_works() {
    let seventh_col = Bruteforce::col(&grid(), 6);
    let expected = vec![0, 3, 0, 0, 0, 0, 0, 0, 0];
    assert_eq!(seventh_col, expected)
}

#[test]
fn extract_square_works() {
    let sixth_square = Bruteforce::square(&invalid_square_grid(), (3, 6));
    let expected = vec![1, 0, 0, 0, 0, 0, 0, 0, 1];
    assert_eq!(sixth_square, expected)
}

#[test]
fn test_solve() {
    let mut solver = Bruteforce::new(puzzle());
    let solution = solver.solve();
    assert!(solution.is_some());
    assert!(solver.next_entry_to_change().is_none());
    assert!(solver.is_valid())
}

#[test]
fn has_duplicate_ignores_zeros_and_empty() {
    assert!(!Bruteforce::has_duplicate(&vec![0, 0, 0, 0]));
    assert!(!Bruteforce::has_duplicate(&Vec::new()));
    assert!(Bruteforce::has_duplicate(&vec![9, 0, 0, 0, 0, 0, 0, 0, 9]));
}

#[test]
fn is_valid_checks_rows_columns_and_boxes() {
    assert!(grid().is_valid());
    assert!(!invalid_row_grid().is_valid());
    assert!(!invalid_column_grid().is_valid());
    assert!(!invalid_square_grid().is_valid());
    let mut g = empty();
    g[0][0] = 7;
    g[2][2] = 7;
    assert!(!Bruteforce::new(g).is_valid());
    assert!(Bruteforce::new(puzzle_solution()).is_valid());
}

#[test]
fn can_insert_agrees_with_validity_after_placing() {
    let base = puzzle();
    let solver = Bruteforce::new(base.clone());
    for v in 1..=9u8 {
        let mut placed = base.clone();
        placed[0][2] = v;
        let expected = Bruteforce::new(placed).is_valid();
        assert_eq!(solver.can_insert(v, (0, 2)), expected);
    }
    assert!(solver.can_insert(4, (0, 2)));
    assert!(!solver.can_insert(5, (0, 2)));
}

#[test]
fn square_reads_top_left_box() {
    let s = Bruteforce::new(puzzle());
    assert_eq!(s.square((0, 0)), vec![5, 3, 0, 6, 0, 0, 0, 9, 8]);
}

#[test]
fn solve_trivial_returns_input() {
    let mut solver = Bruteforce::new(puzzle_solution());
    assert_eq!(solver.solve(), Some(puzzle_solution()));
}

#[test]
fn solve_unsolvable_two_fives_in_row() {
    let mut g = empty();
    g[0][0] = 5;
    g[0][4] = 5;
    let mut solver = Bruteforce::new(g);
    assert_eq!(solver.solve(), None);
}

#[test]
fn solve_canonical_puzzle() {
    let mut solver = Bruteforce::new(puzzle());
    assert_eq!(solver.solve(), Some(puzzle_solution()));
    assert_eq!(solver.original_grid, puzzle());
}

#[test]
fn solve_empty_grid() {
    let mut solver = Bruteforce::new(empty());
    let s = solver.solve().unwrap();
    assert!(is_filled_valid(&s));
}

#[test]
fn solve_keeps_clues() {
    let mut g = empty();
    g[0][0] = 9;
    g[4][4] = 1;
    g[8][0] = 3;
    let mut solver = Bruteforce::new(g.clone());
    let s = solver.solve().unwrap();
    assert!(is_filled_valid(&s));
    assert_eq!(s[0][0], 9);
    assert_eq!(s[4][4], 1);
    assert_eq!(s[8][0], 3);
}

#[test]
fn solve_restarts_from_original() {
    let mut solver = Bruteforce::new(puzzle());
    let first = solver.solve();
    let second = Solver::solve(&mut solver);
    assert_eq!(first, second);
    assert_eq!(first, Some(puzzle_solution()));
}

#[test]
fn solve_rejects_malformed_grid() {
    let mut short = empty();
    short.pop();
    assert!(!is_well_formed(&short));
    assert_eq!(Bruteforce::new(short).solve(), None);
    let mut wide = empty();
    wide[3][3] = 10;
    assert!(!is_well_formed(&wide));
    assert_eq!(Bruteforce::new(wide).solve(), None);
    assert!(is_well_formed(&puzzle()));
}
