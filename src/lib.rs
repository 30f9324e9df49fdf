//! A 9×9 Sudoku solver: candidate bitsets, fixed-point constraint
//! propagation and most-constrained-cell backtracking search.
pub mod board;
pub mod cellset;
pub mod grid;
pub mod laws;
pub mod model;

pub use board::{ParseError, SudokuBoard};
pub use cellset::{count, set_to_num, EMPTY_SET, FULL_SET};
pub use grid::{col, group, neighbors_of, row, NeighborIndex, NSQ};
