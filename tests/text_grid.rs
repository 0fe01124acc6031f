use sudoku::grid::{GridError, TextFileReader};

fn lines(text: &[&str]) -> Vec<String> {
    text.iter().map(|l| l.to_string()).collect()
}

#[test]
fn test_text_file_reader() {
    let text = lines(&[
        "1 . . | . . . | . . .",
        ". . . | . . . | 3 . .",
        ". . . | . . . | . . .",
        "------+-------+------",
        ". . . | . . . | . . .",
        ". . . | . 5 . | . . .",
        ". . . | . . . | . . .",
        "------+-------+------",
        ". . . | . . . | . . .",
        ". . . | . . . | . . .",
        ". . . | . . . | . . 9",
    ]);
    let grid = TextFileReader::parse_grid(&text);
    let mut expected_grid = vec![vec![0; 9]; 9];
    expected_grid[0][0] = 1;
    expected_grid[1][6] = 3;
    expected_grid[4][4] = 5;
    expected_grid[8][8] = 9;
    assert_eq!(grid.unwrap(), expected_grid)
}

#[test]
fn parse_line_reads_digits_and_dots() {
    assert_eq!(TextFileReader::parse_line("53..7...."), vec![5, 3, 0, 0, 7, 0, 0, 0, 0]);
    assert_eq!(TextFileReader::parse_line("0 9|x.8"), vec![0, 9, 0, 8]);
    assert_eq!(TextFileReader::parse_line(""), Vec::<u8>::new());
}

#[test]
fn parse_grid_skips_short_lines() {
    let mut text = vec!["a header".to_string(), "1 2 3".to_string()];
    for _ in 0..9 {
        text.push("123456789".to_string());
    }
    let grid = TextFileReader::parse_grid(&text).unwrap();
    assert_eq!(grid.len(), 9);
    assert!(grid.iter().all(|r| *r == vec![1, 2, 3, 4, 5, 6, 7, 8, 9]));
}

#[test]
fn parse_grid_wrong_row_count() {
    let text = lines(&["123456789", "123456789", "12345678"]);
    let r = TextFileReader::parse_grid(&text);
    assert!(matches!(r, Err(GridError::WrongRowCount(2))));
    let empty: Vec<String> = Vec::new();
    assert!(matches!(TextFileReader::parse_grid(&empty), Err(GridError::WrongRowCount(0))));
}
