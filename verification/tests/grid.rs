//! Tests of puzzle construction, validation and box arithmetic.

use sudoku_solver::sudoku::Sudoku;
use sudoku_solver::solver::SolveError;

#[test]
fn new_rejects_zero_box_side() {
    assert!(matches!(Sudoku::new(0, 3, vec![]), Err(SolveError::InvalidPuzzle)));
    assert!(matches!(Sudoku::new(3, 0, vec![]), Err(SolveError::InvalidPuzzle)));
}

#[test]
fn new_rejects_oversize_board() {
    // 5 * 4 = 20 > 16 does not fit a mask word.
    assert!(matches!(Sudoku::new(5, 4, vec![0u8; 400]), Err(SolveError::InvalidPuzzle)));
}

#[test]
fn new_rejects_wrong_cell_count() {
    assert!(matches!(Sudoku::new(3, 3, vec![0u8; 80]), Err(SolveError::InvalidPuzzle)));
}

#[test]
fn new_rejects_out_of_range_value() {
    let mut init = vec![0u8; 81];
    init[40] = 10;
    assert!(matches!(Sudoku::new(3, 3, init), Err(SolveError::InvalidPuzzle)));
}

#[test]
fn new_keeps_the_given_cells() {
    let mut init = vec![0u8; 81];
    init[3] = 7;
    let sudoku = Sudoku::new(3, 3, init.clone()).unwrap();
    assert_eq!(sudoku.n, 9);
    assert_eq!(sudoku.init, init);
    assert_eq!(sudoku.solution, init);
}

#[test]
fn check_rejects_incomplete_grid() {
    let sudoku = Sudoku::new(3, 3, vec![0u8; 81]).unwrap();
    assert!(!sudoku.check());
}

#[test]
fn check_rejects_constant_grid() {
    let sudoku = Sudoku::new(3, 3, vec![5u8; 81]).unwrap();
    assert!(!sudoku.check());
}

#[test]
fn check_accepts_a_valid_grid() {
    let solved: [[u8; 9]; 9] = [
        [9, 2, 6, 3, 4, 5, 8, 1, 7],
        [8, 5, 1, 7, 2, 6, 3, 9, 4],
        [4, 7, 3, 8, 9, 1, 2, 6, 5],
        [5, 6, 8, 9, 1, 3, 4, 7, 2],
        [3, 4, 2, 6, 8, 7, 9, 5, 1],
        [1, 9, 7, 2, 5, 4, 6, 3, 8],
        [6, 8, 5, 4, 7, 9, 1, 2, 3],
        [7, 3, 4, 1, 6, 2, 5, 8, 9],
        [2, 1, 9, 5, 3, 8, 7, 4, 6],
    ];
    let mut flat = Vec::new();
    for row in solved.iter() {
        for v in row.iter() {
            flat.push(*v);
        }
    }
    let sudoku = Sudoku::new(3, 3, flat).unwrap();
    assert!(sudoku.check());
}

#[test]
fn check_is_idempotent() {
    let sudoku = Sudoku::new(3, 3, vec![0u8; 81]).unwrap();
    assert_eq!(sudoku.check(), sudoku.check());

    let full = Sudoku::new(3, 3, vec![5u8; 81]).unwrap();
    assert_eq!(full.check(), full.check());
}

#[test]
fn box_index_on_standard_board() {
    let sudoku = Sudoku::new(3, 3, vec![0u8; 81]).unwrap();
    assert_eq!(sudoku.box_index(0, 0), 0);
    assert_eq!(sudoku.box_index(4, 5), 4);
    assert_eq!(sudoku.box_index(8, 8), 8);
}

#[test]
fn box_index_on_rectangular_boxes() {
    // 6 x 6 board, boxes of 2 rows by 3 columns: three bands of two boxes.
    let sudoku = Sudoku::new(2, 3, vec![0u8; 36]).unwrap();
    assert_eq!(sudoku.box_index(0, 0), 0);
    assert_eq!(sudoku.box_index(0, 3), 1);
    assert_eq!(sudoku.box_index(3, 4), 3);
    assert_eq!(sudoku.box_index(5, 5), 5);
}

#[test]
fn box_coord_points_at_the_top_left_corner() {
    let nine = Sudoku::new(3, 3, vec![0u8; 81]).unwrap();
    assert_eq!(nine.box_coord(4, 5), (3, 3));
    let six = Sudoku::new(2, 3, vec![0u8; 36]).unwrap();
    assert_eq!(six.box_coord(3, 4), (2, 3));
}
