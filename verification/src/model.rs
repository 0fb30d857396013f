//! The grid: coordinates, cell values and the board itself.

pub mod board;
pub mod cell;
pub mod facts;
