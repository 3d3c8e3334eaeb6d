//! A sudoku puzzle-state engine: a grid of optional cell values with
//! on-write constraint checking (region, row, column), candidate-set
//! ("entropy") computation for empty cells, and a plain-text grid codec.

pub mod sudoku;
pub mod text;
