use sudoku::{read_puzzle, PuzzleError};

fn repeated_lines(line: &str, n: usize) -> String {
    let mut text = String::new();
    for _ in 0..n {
        text.push_str(line);
        text.push('\n');
    }
    text
}

#[test]
fn loader_single_clue_rest_open() {
    let text = repeated_lines("5,0,0,0,0,0,0,0,0", 9);
    // Only (0, 0) should be a clue: make the first token of every other row 0.
    let mut lines: Vec<&str> = text.lines().collect();
    assert_eq!(lines.len(), 9);
    lines[0] = "5,0,0,0,0,0,0,0,0";
    let rest = "0,0,0,0,0,0,0,0,0";
    for r in 1..9 {
        lines[r] = rest;
    }
    let text = lines.join("\n");
    let grid = read_puzzle(&text).unwrap();
    assert_eq!(sudoku::value_at(&grid, 0, 0), Some(5));
    assert!(sudoku::is_clue_at(&grid, 0, 0));
    for r in 0..9 {
        for c in 0..9 {
            if (r, c) == (0, 0) {
                continue;
            }
            assert_eq!(sudoku::value_at(&grid, r, c), None);
            assert!(!sudoku::is_clue_at(&grid, r, c));
            let cell = grid.get(r, c).unwrap();
            assert_eq!(cell.options, vec![1, 2, 3, 4, 5, 6, 7, 8, 9]);
        }
    }
}

#[test]
fn loader_same_line_repeated_keeps_each_first_cell() {
    // The line "5,0,0,0,0,0,0,0,0" repeated nine times puts a clue 5 in the
    // first column of every row.
    let text = repeated_lines("5,0,0,0,0,0,0,0,0", 9);
    let grid = read_puzzle(&text).unwrap();
    for r in 0..9 {
        assert_eq!(sudoku::value_at(&grid, r, 0), Some(5));
        assert!(sudoku::is_clue_at(&grid, r, 0));
        for c in 1..9 {
            assert_eq!(sudoku::value_at(&grid, r, c), None);
            assert!(!sudoku::is_clue_at(&grid, r, c));
            let cell = grid.get(r, c).unwrap();
            assert_eq!(cell.options, vec![1, 2, 3, 4, 5, 6, 7, 8, 9]);
        }
    }
}

#[test]
fn loader_rejects_eight_lines() {
    let text = repeated_lines("5,0,0,0,0,0,0,0,0", 8);
    assert_eq!(read_puzzle(&text).unwrap_err(), PuzzleError::MalformedPuzzle);
}

#[test]
fn loader_rejects_short_line() {
    let mut text = repeated_lines("0,0,0,0,0,0,0,0,0", 8);
    text.push_str("0,0,0,0,0,0,0,0\n");
    assert_eq!(read_puzzle(&text).unwrap_err(), PuzzleError::MalformedPuzzle);
}

#[test]
fn loader_rejects_oversized_clue() {
    let mut text = repeated_lines("0,0,0,0,0,0,0,0,0", 8);
    text.push_str("0,0,0,10,0,0,0,0,0\n");
    assert_eq!(read_puzzle(&text).unwrap_err(), PuzzleError::InvalidClueValue);
}

#[test]
fn loader_is_lenient_about_unreadable_tokens() {
    let mut text = String::new();
    text.push_str("x,0,-3,+7,,9999999999,2147483646999,0,0\n");
    for _ in 0..8 {
        text.push_str("0,0,0,0,0,0,0,0,0\n");
    }
    // An unreadable, negative, empty or overflowing token leaves the cell
    // open; "+7" reads as the clue 7.
    let grid = read_puzzle(&text).unwrap();
    assert_eq!(sudoku::value_at(&grid, 0, 0), None);
    assert_eq!(sudoku::value_at(&grid, 0, 2), None);
    assert_eq!(sudoku::value_at(&grid, 0, 3), Some(7));
    assert!(sudoku::is_clue_at(&grid, 0, 3));
    assert_eq!(sudoku::value_at(&grid, 0, 4), None);
    assert_eq!(sudoku::value_at(&grid, 0, 5), None);
    assert_eq!(sudoku::value_at(&grid, 0, 6), None);
}

#[test]
fn loader_accepts_text_without_trailing_newline() {
    let text = repeated_lines("0,0,0,0,0,0,0,0,0", 9);
    let trimmed = text.trim_end_matches('\n');
    assert!(read_puzzle(trimmed).is_ok());
}

#[test]
fn loader_accepts_carriage_returns() {
    let mut text = String::new();
    for _ in 0..9 {
        text.push_str("0,0,3,0,0,0,0,0,0\r\n");
    }
    let grid = read_puzzle(&text).unwrap();
    assert_eq!(sudoku::value_at(&grid, 4, 2), Some(3));
}
