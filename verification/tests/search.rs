use word_search::solver::{undefined_coord, Solver};
use word_search::types::{Direction, Matrix, Point};

fn grid_from(rows: &[&str]) -> Matrix<char> {
    let height = rows.len();
    let width = if height == 0 { 0 } else { rows[0].chars().count() };
    let mut m: Matrix<char> = Matrix::new(height, width);
    for (i, row) in rows.iter().enumerate() {
        for (j, c) in row.chars().enumerate() {
            m.set(i, j, c);
        }
    }
    m
}

#[test]
fn cat_found_right_with_exact_comparisons() {
    let m = grid_from(&["CAT", "XXX", "XXX"]);
    let mut solver = Solver::new(&m);
    let res = solver.search(&"CAT".to_string());
    assert_eq!(res.found_at, Point::new(0, 0));
    assert!(matches!(res.dir, Direction::Rightwards));
    // Leftwards costs one comparison at each of the nine candidates (the one
    // 'C' matches and then walks off the grid); Rightwards succeeds at once
    // with three comparisons.
    assert_eq!(res.comparisons, 12);
}

#[test]
fn absent_word_gives_sentinel_and_sums_all_failures() {
    let m = grid_from(&["CAT", "XXX", "XXX"]);
    let mut solver = Solver::new(&m);
    let res = solver.search(&"DOG".to_string());
    assert_eq!(res.found_at, undefined_coord());
    assert!(matches!(res.dir, Direction::RightUpwards));
    // 'D' appears nowhere, so every candidate of every direction costs
    // exactly one comparison: 8 directions * 9 cells.
    assert_eq!(res.comparisons, 72);
}

#[test]
fn repeated_searches_are_deterministic() {
    let m = grid_from(&["CAT", "XXX", "XXX"]);
    let mut solver = Solver::new(&m);
    let first = solver.search(&"CAT".to_string());
    let second = solver.search(&"CAT".to_string());
    assert_eq!(first.found_at, second.found_at);
    assert!(matches!(second.dir, Direction::Rightwards));
    assert_eq!(first.comparisons, second.comparisons);

    let miss1 = solver.search(&"DOG".to_string());
    let miss2 = solver.search(&"DOG".to_string());
    assert_eq!(miss1.found_at, miss2.found_at);
    assert_eq!(miss1.comparisons, miss2.comparisons);
}

#[test]
fn vertical_word_found_downwards() {
    let m = grid_from(&["CAT", "XXX", "XXX"]);
    let mut solver = Solver::new(&m);
    let res = solver.search(&"TXX".to_string());
    // "TXX" runs down from (0,2); Downwards comes before the diagonals.
    assert_eq!(res.found_at, Point::new(0, 2));
    assert!(matches!(res.dir, Direction::Downwards));
}

#[test]
fn tie_break_prefers_first_direction_then_row_major_order() {
    let m = grid_from(&["CAT", "XXX", "XXX"]);
    let mut solver = Solver::new(&m);
    // "X" sits at six cells and matches in every direction; the first
    // direction is Leftwards and the first candidate in row-major order
    // is (1,0).
    let res = solver.search(&"X".to_string());
    assert_eq!(res.found_at, Point::new(1, 0));
    assert!(matches!(res.dir, Direction::Leftwards));

    let res_c = solver.search(&"C".to_string());
    assert_eq!(res_c.found_at, Point::new(0, 0));
    assert!(matches!(res_c.dir, Direction::Leftwards));
}

#[test]
fn optimization_keeps_position_and_direction() {
    let m = grid_from(&["CAT", "XXX", "XXX"]);
    for word in ["CAT", "TXX", "X", "CXX", "TAC", "DOG"] {
        let mut plain = Solver::new(&m);
        let mut pruned = Solver::new(&m);
        pruned.optimize();
        let a = plain.search(&word.to_string());
        let b = pruned.search(&word.to_string());
        assert_eq!(a.found_at, b.found_at, "word {word}");
        if a.found_at != undefined_coord() {
            assert_eq!(a.dir, b.dir);
        }
    }
}

#[test]
fn pruning_skips_words_longer_than_the_grid() {
    let m = grid_from(&["XXX", "XXX", "XXX"]);
    let mut pruned = Solver::new(&m);
    pruned.optimize();
    let res = pruned.search(&"XXXX".to_string());
    assert_eq!(res.found_at, undefined_coord());
    // No candidate range can hold a four-letter word on a 3x3 grid.
    assert_eq!(res.comparisons, 0);

    let mut plain = Solver::new(&m);
    let full = plain.search(&"XXXX".to_string());
    assert_eq!(full.found_at, undefined_coord());
    // Every attempt walks until it leaves the grid: 18 comparisons for each
    // of the four axis directions, 14 for each of the four diagonals.
    assert_eq!(full.comparisons, 128);
}

#[test]
fn empty_cells_never_match_but_cost_a_comparison() {
    let mut m: Matrix<char> = Matrix::new(1, 2);
    m.set(0, 0, 'A');
    let mut solver = Solver::new(&m);
    let res = solver.search(&"AB".to_string());
    assert_eq!(res.found_at, undefined_coord());
    // Rightwards reaches the empty cell after matching 'A' and spends a
    // comparison rejecting it; every other attempt fails on its first cell.
    assert_eq!(res.comparisons, 17);
}

#[test]
fn leftwards_word_found_before_rightwards() {
    let m = grid_from(&["TAC", "XXX", "XXX"]);
    let mut solver = Solver::new(&m);
    let res = solver.search(&"CAT".to_string());
    // "CAT" read leftwards from (0,2); Leftwards is the first direction.
    assert_eq!(res.found_at, Point::new(0, 2));
    assert!(matches!(res.dir, Direction::Leftwards));
}

#[test]
fn empty_grid_never_holds_a_word() {
    let m: Matrix<char> = Matrix::new(0, 0);
    let mut solver = Solver::new(&m);
    let res = solver.search(&"A".to_string());
    assert_eq!(res.found_at, undefined_coord());
    assert_eq!(res.comparisons, 0);
}

#[test]
fn toggling_optimization_mid_batch_affects_later_searches_only() {
    let m = grid_from(&["XXX", "XXX", "XXX"]);
    let mut solver = Solver::new(&m);
    let before = solver.search(&"XXXX".to_string());
    assert_eq!(before.comparisons, 128);
    solver.optimize();
    let after = solver.search(&"XXXX".to_string());
    assert_eq!(after.comparisons, 0);
}
