//! Solving a board by exhaustive search.

pub mod search;
