//! A solver for 9x9 Sudoku puzzles: a board that keeps, for each open
//! square, the digits that its fixed peers still allow, and a backtracking
//! search that fixes the most constrained square first.

pub mod grid;
pub mod laws;
pub mod search;
pub mod sudoku;
pub mod sudoku_solver;
pub mod text;
pub mod units;
