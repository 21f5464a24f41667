use sudoku::grid::Board;

/// Builds a board from nine rows of nine entries, 0 standing for empty.
fn board_of(rows: [[u8; 9]; 9]) -> Board {
    let mut cells: Vec<Option<u8>> = Vec::new();
    for row in rows.iter() {
        for &v in row.iter() {
            cells.push(if v == 0 { None } else { Some(v) });
        }
    }
    Board::from_cells(cells).expect("well-formed board")
}

/// A valid completed grid, built by cycling the first row.
fn full_grid() -> [[u8; 9]; 9] {
    [
        [1, 2, 3, 4, 5, 6, 7, 8, 9],
        [4, 5, 6, 7, 8, 9, 1, 2, 3],
        [7, 8, 9, 1, 2, 3, 4, 5, 6],
        [2, 3, 4, 5, 6, 7, 8, 9, 1],
        [5, 6, 7, 8, 9, 1, 2, 3, 4],
        [8, 9, 1, 2, 3, 4, 5, 6, 7],
        [3, 4, 5, 6, 7, 8, 9, 1, 2],
        [6, 7, 8, 9, 1, 2, 3, 4, 5],
        [9, 1, 2, 3, 4, 5, 6, 7, 8],
    ]
}

fn assert_cells_equal(a: &Board, b: &Board) {
    for y in 0..9 {
        for x in 0..9 {
            assert_eq!(a.get(y, x), b.get(y, x), "cell ({}, {})", y, x);
        }
    }
}

#[test]
fn solved_iff_full_and_consistent() {
    let full = board_of(full_grid());
    assert!(full.is_full());
    assert!(full.satisfies_constraints());
    assert!(full.is_solved());

    let mut partial = full_grid();
    partial[4][4] = 0;
    let partial = board_of(partial);
    assert!(!partial.is_full());
    assert!(partial.satisfies_constraints());
    assert!(!partial.is_solved());

    let mut broken = full_grid();
    broken[0][0] = broken[0][1];
    let broken = board_of(broken);
    assert!(broken.is_full());
    assert!(!broken.satisfies_constraints());
    assert!(!broken.is_solved());
}

#[test]
fn empty_grid_is_solvable() {
    let (solution, count) = Board::empty().solve();
    let solution = solution.expect("an empty grid always has a completion");
    assert!(solution.is_full());
    assert!(solution.satisfies_constraints());
    assert!(solution.is_solved());
    assert!(count >= 1);
}

#[test]
fn row_duplicate_is_rejected() {
    let mut rows = [[0u8; 9]; 9];
    rows[0][0] = 1;
    rows[0][5] = 1;
    let board = board_of(rows);
    assert!(!board.satisfies_row_constraints());
    assert!(board.satisfies_column_constraints());
    assert!(board.satisfies_box_constraints());
    assert!(!board.satisfies_constraints());
    let (solution, count) = board.solve();
    assert!(solution.is_none());
    assert_eq!(count, 1);
}

#[test]
fn column_duplicate_is_rejected() {
    let mut rows = [[0u8; 9]; 9];
    rows[0][2] = 7;
    rows[5][2] = 7;
    let board = board_of(rows);
    assert!(board.satisfies_row_constraints());
    assert!(!board.satisfies_column_constraints());
    assert!(board.satisfies_box_constraints());
    assert!(!board.satisfies_constraints());
}

#[test]
fn box_duplicate_is_rejected() {
    let mut rows = [[0u8; 9]; 9];
    rows[0][0] = 5;
    rows[1][1] = 5;
    let board = board_of(rows);
    assert!(board.satisfies_row_constraints());
    assert!(board.satisfies_column_constraints());
    assert!(!board.satisfies_box_constraints());
    assert!(!board.satisfies_constraints());
}

#[test]
fn unique_puzzle_solves_to_expected_grid() {
    // Blank five cells in distinct rows, columns and boxes: each blank is
    // then forced by its row, so the completion is unique.
    let mut rows = full_grid();
    rows[0][0] = 0;
    rows[1][4] = 0;
    rows[2][8] = 0;
    rows[4][2] = 0;
    rows[7][6] = 0;
    let puzzle = board_of(rows);

    let (solution, count) = puzzle.solve();
    let solution = solution.expect("this puzzle has a completion");
    assert!(solution.is_solved());
    assert_cells_equal(&solution, &board_of(full_grid()));

    // The search order is fixed, so the number of examined states is exact:
    // the initial state, then for each blank (in row-major order) one state
    // per candidate digit up to the forced one: 1 + 1 + 8 + 6 + 7 + 3.
    assert_eq!(count, 26);
}

#[test]
fn givens_are_preserved_in_solution() {
    let mut rows = [[0u8; 9]; 9];
    rows[3][5] = 4;
    rows[6][1] = 9;
    let board = board_of(rows);
    let (solution, _) = board.solve();
    let solution = solution.expect("a near-empty grid has a completion");
    assert!(solution.is_solved());
    assert_eq!(solution.get(3, 5), Some(4));
    assert_eq!(solution.get(6, 1), Some(9));
}

#[test]
fn inconsistent_full_grid_counts_exactly_one_state() {
    let board = board_of([[1u8; 9]; 9]);
    let (solution, count) = board.solve();
    assert!(solution.is_none());
    assert_eq!(count, 1);
}

#[test]
fn solve_is_deterministic() {
    let mut rows = full_grid();
    rows[0][0] = 0;
    rows[1][4] = 0;
    rows[2][8] = 0;
    let puzzle = board_of(rows);

    let (first, first_count) = puzzle.solve();
    let (second, second_count) = puzzle.solve();
    assert_eq!(first_count, second_count);
    let first = first.expect("solvable");
    let second = second.expect("solvable");
    assert_cells_equal(&first, &second);
}

#[test]
fn count_is_at_least_one() {
    let (_, count_empty) = Board::empty().solve();
    assert!(count_empty >= 1);
    let (_, count_full) = board_of(full_grid()).solve();
    assert_eq!(count_full, 1);
    let (_, count_bad) = board_of([[9u8; 9]; 9]).solve();
    assert!(count_bad >= 1);
}

#[test]
fn from_cells_rejects_wrong_length() {
    assert!(Board::from_cells(vec![None; 80]).is_none());
    assert!(Board::from_cells(vec![None; 82]).is_none());
    assert!(Board::from_cells(Vec::new()).is_none());
    assert!(Board::from_cells(vec![None; 81]).is_some());
}

#[test]
fn from_cells_rejects_digit_out_of_range() {
    let mut cells: Vec<Option<u8>> = vec![None; 81];
    cells[40] = Some(0);
    assert!(Board::from_cells(cells).is_none());

    let mut cells: Vec<Option<u8>> = vec![None; 81];
    cells[40] = Some(10);
    assert!(Board::from_cells(cells).is_none());

    let mut cells: Vec<Option<u8>> = vec![None; 81];
    cells[40] = Some(9);
    assert!(Board::from_cells(cells).is_some());
}

#[test]
fn get_returns_the_given_cells() {
    let mut rows = [[0u8; 9]; 9];
    rows[2][7] = 3;
    let board = board_of(rows);
    assert_eq!(board.get(2, 7), Some(3));
    assert_eq!(board.get(0, 0), None);
    assert_eq!(board.get(8, 8), None);
}

#[test]
fn render_empty_board() {
    let expected = "\
+---+---+---+\n\
|   |   |   |\n\
|   |   |   |\n\
|   |   |   |\n\
+---+---+---+\n\
|   |   |   |\n\
|   |   |   |\n\
|   |   |   |\n\
+---+---+---+\n\
|   |   |   |\n\
|   |   |   |\n\
|   |   |   |\n\
+---+---+---+\n";
    assert_eq!(Board::empty().render(), expected);
}

#[test]
fn render_full_board() {
    let expected = "\
+---+---+---+\n\
|123|456|789|\n\
|456|789|123|\n\
|789|123|456|\n\
+---+---+---+\n\
|234|567|891|\n\
|567|891|234|\n\
|891|234|567|\n\
+---+---+---+\n\
|345|678|912|\n\
|678|912|345|\n\
|912|345|678|\n\
+---+---+---+\n";
    assert_eq!(board_of(full_grid()).render(), expected);
}

#[test]
fn render_partial_board() {
    let mut rows = [[0u8; 9]; 9];
    rows[0][0] = 1;
    rows[0][8] = 9;
    rows[4][4] = 5;
    let expected = "\
+---+---+---+\n\
|1  |   |  9|\n\
|   |   |   |\n\
|   |   |   |\n\
+---+---+---+\n\
|   |   |   |\n\
|   | 5 |   |\n\
|   |   |   |\n\
+---+---+---+\n\
|   |   |   |\n\
|   |   |   |\n\
|   |   |   |\n\
+---+---+---+\n";
    assert_eq!(board_of(rows).render(), expected);
}

#[test]
fn classic_puzzle_solves() {
    let puzzle = board_of([
        [0, 0, 5, 3, 0, 0, 0, 0, 0],
        [8, 0, 0, 0, 0, 0, 0, 2, 0],
        [0, 7, 0, 0, 1, 0, 5, 0, 0],
        [4, 0, 0, 0, 0, 5, 3, 0, 0],
        [0, 1, 0, 0, 7, 0, 0, 0, 6],
        [0, 0, 3, 2, 0, 0, 0, 8, 0],
        [0, 6, 0, 5, 0, 0, 0, 0, 9],
        [0, 0, 4, 0, 0, 0, 0, 3, 0],
        [0, 0, 0, 0, 0, 9, 7, 0, 0],
    ]);
    let (solution, count) = puzzle.solve();
    let solution = solution.expect("the classic puzzle is solvable");
    assert!(solution.is_solved());
    assert_eq!(solution.get(0, 2), Some(5));
    assert_eq!(solution.get(8, 6), Some(7));
    assert!(count >= 1);
}
