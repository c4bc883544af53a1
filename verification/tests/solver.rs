//! End-to-end tests of the solving engine.

use sudoku_solver::solver::{Kind, SolveError, SolverEngine};
use sudoku_solver::sudoku::Sudoku;

fn flat9(rows: [[u8; 9]; 9]) -> Vec<u8> {
    let mut out = Vec::new();
    for row in rows.iter() {
        for v in row.iter() {
            out.push(*v);
        }
    }
    out
}

#[test]
fn dfs_backtracking_ok() {
    let init_sudoku = [
        [9, 0, 6, 3, 4, 0, 8, 1, 0],
        [0, 5, 1, 7, 0, 0, 3, 0, 0],
        [4, 7, 0, 0, 9, 1, 0, 0, 5],
        [0, 0, 0, 9, 0, 3, 0, 0, 2],
        [0, 0, 2, 0, 8, 7, 0, 0, 0],
        [1, 0, 7, 2, 0, 0, 6, 0, 0],
        [0, 8, 5, 0, 0, 9, 1, 0, 0],
        [0, 3, 4, 0, 6, 0, 0, 0, 9],
        [0, 1, 0, 5, 0, 8, 7, 0, 6],
    ];
    let expected = [
        [9, 2, 6, 3, 4, 5, 8, 1, 7],
        [8, 5, 1, 7, 2, 6, 3, 9, 4],
        [4, 7, 3, 8, 9, 1, 2, 6, 5],
        [5, 6, 8, 9, 1, 3, 4, 7, 2],
        [3, 4, 2, 6, 8, 7, 9, 5, 1],
        [1, 9, 7, 2, 5, 4, 6, 3, 8],
        [6, 8, 5, 4, 7, 9, 1, 2, 3],
        [7, 3, 4, 1, 6, 2, 5, 8, 9],
        [2, 1, 9, 5, 3, 8, 7, 4, 6],
    ];
    let mut sudoku = Sudoku::new(3, 3, flat9(init_sudoku)).unwrap();
    let mut solver_engine = SolverEngine::new(Kind::Dfs);
    let res = solver_engine.solve(&mut sudoku);

    assert!(res.is_ok());
    assert_eq!(sudoku.solution, flat9(expected));
    assert!(sudoku.check())
}

#[test]
fn dfs_backtracking_zero_ok() {
    let init_sudoku = [
        [0, 0, 0, 0, 0, 0, 0, 0, 0],
        [0, 0, 0, 0, 0, 0, 0, 0, 0],
        [0, 0, 0, 0, 0, 0, 0, 0, 0],
        [0, 0, 0, 0, 0, 0, 0, 0, 0],
        [0, 0, 0, 0, 0, 0, 0, 0, 0],
        [0, 0, 0, 0, 0, 0, 0, 0, 0],
        [0, 0, 0, 0, 0, 0, 0, 0, 0],
        [0, 0, 0, 0, 0, 0, 0, 0, 0],
        [0, 0, 0, 0, 0, 0, 0, 0, 0],
    ];

    let mut sudoku = Sudoku::new(3, 3, flat9(init_sudoku)).unwrap();
    let mut solver_engine = SolverEngine::new(Kind::Dfs);
    let res = solver_engine.solve(&mut sudoku);

    assert!(res.is_ok());
    assert!(sudoku.check())
}

#[test]
fn duplicate_given_in_row_is_unsolvable() {
    let mut init = vec![0u8; 81];
    init[0] = 5;
    init[1] = 5;
    let mut sudoku = Sudoku::new(3, 3, init.clone()).unwrap();
    let mut engine = SolverEngine::new(Kind::Dfs);
    let res = engine.solve(&mut sudoku);

    // The conflict among the givens is caught before any search runs.
    assert!(matches!(res, Err(SolveError::InvalidPuzzle)));
    // The failed attempt never leaks a partial grid as a solution.
    assert_eq!(sudoku.solution, init);
    assert!(!sudoku.check());
}

#[test]
fn cell_without_candidates_is_unsolvable() {
    // Row 0 holds 2..=9 and column 0 holds a 1, so the corner cell has no
    // legal value left, yet no unit repeats a given.
    let mut init = vec![0u8; 81];
    for c in 1..9 {
        init[c] = (c + 1) as u8;
    }
    init[5 * 9] = 1;
    let mut sudoku = Sudoku::new(3, 3, init.clone()).unwrap();
    let mut engine = SolverEngine::new(Kind::Dfs);
    let res = engine.solve(&mut sudoku);

    assert!(matches!(res, Err(SolveError::Unsolvable)));
    assert_eq!(sudoku.solution, init);
}

#[test]
fn solving_twice_yields_the_same_grid() {
    let init_sudoku = [
        [9, 0, 6, 3, 4, 0, 8, 1, 0],
        [0, 5, 1, 7, 0, 0, 3, 0, 0],
        [4, 7, 0, 0, 9, 1, 0, 0, 5],
        [0, 0, 0, 9, 0, 3, 0, 0, 2],
        [0, 0, 2, 0, 8, 7, 0, 0, 0],
        [1, 0, 7, 2, 0, 0, 6, 0, 0],
        [0, 8, 5, 0, 0, 9, 1, 0, 0],
        [0, 3, 4, 0, 6, 0, 0, 0, 9],
        [0, 1, 0, 5, 0, 8, 7, 0, 6],
    ];
    let mut first = Sudoku::new(3, 3, flat9(init_sudoku)).unwrap();
    let mut second = Sudoku::new(3, 3, flat9(init_sudoku)).unwrap();
    let mut engine = SolverEngine::new(Kind::Dfs);
    assert!(engine.solve(&mut first).is_ok());
    assert!(engine.solve(&mut second).is_ok());
    assert_eq!(first.solution, second.solution);

    // Re-solving the same instance overwrites the solution with the same grid.
    let before = first.solution.clone();
    assert!(engine.solve(&mut first).is_ok());
    assert_eq!(first.solution, before);
}

#[test]
fn one_cell_board_solves() {
    let mut sudoku = Sudoku::new(1, 1, vec![0u8]).unwrap();
    let mut engine = SolverEngine::new(Kind::Dfs);
    assert!(engine.solve(&mut sudoku).is_ok());
    assert_eq!(sudoku.solution, vec![1u8]);
    assert!(sudoku.check());
}

#[test]
fn sixteen_is_the_largest_side() {
    // 4 * 4 = 16 still fits a mask word; the board is accepted.
    let sudoku = Sudoku::new(4, 4, vec![0u8; 256]).unwrap();
    assert_eq!(sudoku.n, 16);
    assert!(!sudoku.check());
}

#[test]
fn six_by_six_board_solves() {
    let mut sudoku = Sudoku::new(2, 3, vec![0u8; 36]).unwrap();
    let mut engine = SolverEngine::new(Kind::Dfs);
    let res = engine.solve(&mut sudoku);

    assert!(res.is_ok());
    assert!(sudoku.check());
}

#[test]
fn six_by_six_fixed_given_is_preserved() {
    let mut init = vec![0u8; 36];
    init[7] = 4;
    init[35] = 6;
    let mut sudoku = Sudoku::new(2, 3, init).unwrap();
    let mut engine = SolverEngine::new(Kind::Dfs);
    assert!(engine.solve(&mut sudoku).is_ok());
    assert!(sudoku.check());
    assert_eq!(sudoku.solution[7], 4);
    assert_eq!(sudoku.solution[35], 6);
}

#[test]
fn solved_output_preserves_givens() {
    let init_sudoku = [
        [9, 0, 6, 3, 4, 0, 8, 1, 0],
        [0, 5, 1, 7, 0, 0, 3, 0, 0],
        [4, 7, 0, 0, 9, 1, 0, 0, 5],
        [0, 0, 0, 9, 0, 3, 0, 0, 2],
        [0, 0, 2, 0, 8, 7, 0, 0, 0],
        [1, 0, 7, 2, 0, 0, 6, 0, 0],
        [0, 8, 5, 0, 0, 9, 1, 0, 0],
        [0, 3, 4, 0, 6, 0, 0, 0, 9],
        [0, 1, 0, 5, 0, 8, 7, 0, 6],
    ];
    let init = flat9(init_sudoku);
    let mut sudoku = Sudoku::new(3, 3, init.clone()).unwrap();
    let mut engine = SolverEngine::new(Kind::Dfs);
    assert!(engine.solve(&mut sudoku).is_ok());
    for i in 0..81 {
        if init[i] != 0 {
            assert_eq!(sudoku.solution[i], init[i]);
        }
    }
}

#[test]
fn duplicate_given_in_box_is_rejected() {
    // 7 at (0,0) and (1,1): different row and column, but the same box.
    let mut init = vec![0u8; 81];
    init[0] = 7;
    init[9 + 1] = 7;
    let mut sudoku = Sudoku::new(3, 3, init).unwrap();
    let mut engine = SolverEngine::new(Kind::Dfs);
    assert!(matches!(engine.solve(&mut sudoku), Err(SolveError::InvalidPuzzle)));
}

#[test]
fn twelve_by_twelve_board_solves() {
    // 3 x 4 boxes tile a 12-sided board.
    let mut sudoku = Sudoku::new(3, 4, vec![0u8; 144]).unwrap();
    let mut engine = SolverEngine::new(Kind::Dfs);
    assert!(engine.solve(&mut sudoku).is_ok());
    assert!(sudoku.check());
}

#[test]
fn already_solved_grid_is_returned_unchanged() {
    let solved = [
        [9, 2, 6, 3, 4, 5, 8, 1, 7],
        [8, 5, 1, 7, 2, 6, 3, 9, 4],
        [4, 7, 3, 8, 9, 1, 2, 6, 5],
        [5, 6, 8, 9, 1, 3, 4, 7, 2],
        [3, 4, 2, 6, 8, 7, 9, 5, 1],
        [1, 9, 7, 2, 5, 4, 6, 3, 8],
        [6, 8, 5, 4, 7, 9, 1, 2, 3],
        [7, 3, 4, 1, 6, 2, 5, 8, 9],
        [2, 1, 9, 5, 3, 8, 7, 4, 6],
    ];
    let init = flat9(solved);
    let mut sudoku = Sudoku::new(3, 3, init.clone()).unwrap();
    let mut engine = SolverEngine::new(Kind::Dfs);
    assert!(engine.solve(&mut sudoku).is_ok());
    assert_eq!(sudoku.solution, init);
    assert!(sudoku.check());
}
