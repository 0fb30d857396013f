//! A 9x9 Sudoku engine: a grid model, a validator for the row, column and box
//! constraints, and a depth-first solver, each with a verified contract.

pub mod error;
pub mod model;
pub mod solver;
