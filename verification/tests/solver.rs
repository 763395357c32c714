use sudoku::{has_contradiction, read_puzzle, update, value_at};

fn grid_text(rows: [&str; 9]) -> String {
    let mut text = String::new();
    for row in rows.iter() {
        text.push_str(row);
        text.push('\n');
    }
    text
}

const OPEN_ROW: &str = "0,0,0,0,0,0,0,0,0";

#[test]
fn single_clue_step_excludes_peers_only() {
    let text = grid_text([
        "5,0,0,0,0,0,0,0,0",
        OPEN_ROW, OPEN_ROW, OPEN_ROW, OPEN_ROW, OPEN_ROW, OPEN_ROW, OPEN_ROW, OPEN_ROW,
    ]);
    let mut grid = read_puzzle(&text).unwrap();
    update(&mut grid);
    // Row peer of the clue.
    assert!(!grid.get(0, 1).unwrap().options.contains(&5));
    // Column peer of the clue.
    assert!(!grid.get(1, 0).unwrap().options.contains(&5));
    // Block peer of the clue.
    assert!(!grid.get(1, 1).unwrap().options.contains(&5));
    // No shared row, column or block: 5 must still be possible.
    assert!(grid.get(8, 8).unwrap().options.contains(&5));
}

#[test]
fn step_keeps_clues_and_never_grows_candidates() {
    let text = grid_text([
        "5,0,0,0,0,0,0,0,0",
        "0,3,0,0,0,0,0,0,0",
        OPEN_ROW, OPEN_ROW, OPEN_ROW, OPEN_ROW, OPEN_ROW, OPEN_ROW, OPEN_ROW,
    ]);
    let mut grid = read_puzzle(&text).unwrap();
    let mut before: Vec<Vec<i32>> = Vec::new();
    for r in 0..9 {
        for c in 0..9 {
            before.push(grid.get(r, c).unwrap().options.clone());
        }
    }
    for _ in 0..5 {
        update(&mut grid);
        assert_eq!(value_at(&grid, 0, 0), Some(5));
        assert!(sudoku::is_clue_at(&grid, 0, 0));
        assert_eq!(value_at(&grid, 1, 1), Some(3));
        assert!(sudoku::is_clue_at(&grid, 1, 1));
    }
    for r in 0..9 {
        for c in 0..9 {
            let after = &grid.get(r, c).unwrap().options;
            for v in after.iter() {
                assert!(before[r * 9 + c].contains(v));
            }
        }
    }
}

#[test]
fn solved_grid_is_stable_at_once() {
    let text = grid_text([
        "1,2,3,4,5,6,7,8,9",
        "4,5,6,7,8,9,1,2,3",
        "7,8,9,1,2,3,4,5,6",
        "2,3,4,5,6,7,8,9,1",
        "5,6,7,8,9,1,2,3,4",
        "8,9,1,2,3,4,5,6,7",
        "3,4,5,6,7,8,9,1,2",
        "6,7,8,9,1,2,3,4,5",
        "9,1,2,3,4,5,6,7,8",
    ]);
    let mut grid = read_puzzle(&text).unwrap();
    assert!(update(&mut grid));
    assert!(!has_contradiction(&grid));
    for r in 0..9 {
        for c in 0..9 {
            assert!(value_at(&grid, r, c).is_some());
        }
    }
}

#[test]
fn missing_cell_is_collapsed_to_forced_single() {
    // The full grid above with one cell blanked: the narrow phase leaves
    // exactly one candidate there and the collapse phase commits it.
    let text = grid_text([
        "1,2,3,4,5,6,7,8,9",
        "4,5,6,7,8,9,1,2,3",
        "7,8,9,1,2,3,4,5,6",
        "2,3,4,5,6,7,8,9,1",
        "5,6,7,8,0,1,2,3,4",
        "8,9,1,2,3,4,5,6,7",
        "3,4,5,6,7,8,9,1,2",
        "6,7,8,9,1,2,3,4,5",
        "9,1,2,3,4,5,6,7,8",
    ]);
    let mut grid = read_puzzle(&text).unwrap();
    assert_eq!(value_at(&grid, 4, 4), None);
    assert!(!sudoku::is_clue_at(&grid, 4, 4));
    let done = update(&mut grid);
    assert!(done);
    assert_eq!(value_at(&grid, 4, 4), Some(9));
    assert!(!sudoku::is_clue_at(&grid, 4, 4));
    assert_eq!(grid.get(4, 4).unwrap().options.len(), 0);
}

#[test]
fn stability_is_absorbing() {
    let text = grid_text([
        "1,2,3,4,5,6,7,8,9",
        "4,5,6,7,8,9,1,2,3",
        "7,8,9,1,2,3,4,5,6",
        "2,3,4,5,6,7,8,9,1",
        "5,6,7,8,0,1,2,3,4",
        "8,9,1,2,3,4,5,6,7",
        "3,4,5,6,7,8,9,1,2",
        "6,7,8,9,1,2,3,4,5",
        "9,1,2,3,4,5,6,7,8",
    ]);
    let mut grid = read_puzzle(&text).unwrap();
    assert!(update(&mut grid));
    // Once a step reports stable, every later step does too and the grid
    // no longer changes.
    for _ in 0..3 {
        assert!(update(&mut grid));
        assert_eq!(value_at(&grid, 4, 4), Some(9));
    }
}

#[test]
fn all_open_grid_stops_changing_but_never_reports_stable() {
    let text = grid_text([
        OPEN_ROW, OPEN_ROW, OPEN_ROW, OPEN_ROW, OPEN_ROW, OPEN_ROW, OPEN_ROW, OPEN_ROW, OPEN_ROW,
    ]);
    let mut grid = read_puzzle(&text).unwrap();
    for _ in 0..82 {
        // With no clue there is nothing to eliminate: every cell keeps all
        // nine candidates and no step can report stable.
        assert!(!update(&mut grid));
    }
    for r in 0..9 {
        for c in 0..9 {
            assert_eq!(grid.get(r, c).unwrap().options.len(), 9);
        }
    }
}

#[test]
fn overconstrained_cell_is_reported_dead() {
    let text = grid_text([
        "1,2,3,4,5,6,7,8,0",
        "0,0,0,0,0,0,0,0,9",
        OPEN_ROW, OPEN_ROW, OPEN_ROW, OPEN_ROW, OPEN_ROW, OPEN_ROW, OPEN_ROW,
    ]);
    let mut grid = read_puzzle(&text).unwrap();
    assert!(!has_contradiction(&grid));
    update(&mut grid);
    // (0, 8) lost 1..=8 to its row and 9 to its column: no candidate left.
    assert_eq!(value_at(&grid, 0, 8), None);
    assert_eq!(grid.get(0, 8).unwrap().options.len(), 0);
    assert!(has_contradiction(&grid));
}

#[test]
fn narrowing_twice_changes_nothing_more() {
    let text = grid_text([
        "5,0,0,0,0,0,0,0,0",
        "0,3,0,0,0,0,0,0,0",
        OPEN_ROW, OPEN_ROW, OPEN_ROW, OPEN_ROW, OPEN_ROW, OPEN_ROW, OPEN_ROW,
    ]);
    let mut grid = read_puzzle(&text).unwrap();
    // With no collapsible cell, a second step finds nothing new to remove.
    let first = update(&mut grid);
    let snapshot: Vec<Vec<i32>> = (0..9)
        .map(|r| {
            (0..9).flat_map(|c| grid.get(r, c).unwrap().options.clone()).collect::<Vec<i32>>()
        })
        .collect();
    let second = update(&mut grid);
    let snapshot_after: Vec<Vec<i32>> = (0..9)
        .map(|r| {
            (0..9).flat_map(|c| grid.get(r, c).unwrap().options.clone()).collect::<Vec<i32>>()
        })
        .collect();
    assert_eq!(first, second);
    assert_eq!(snapshot, snapshot_after);
}
