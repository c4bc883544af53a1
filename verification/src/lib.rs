//! A solver for generalized Sudoku-style constraint grids.
//!
//! A puzzle is an N x N grid, N = BR * BC, partitioned into BR x BC boxes.
//! Every row, column and box must hold each value 1..=N exactly once.  The
//! engine combines bitmask unit constraints, naked-single propagation and
//! MRV/LCV-guided backtracking, and a solution is only ever handed out after
//! the validity checker has accepted it.

pub mod dfs;
pub mod geom;
pub mod masks;
pub mod record;
pub mod solver;
pub mod sudoku;
