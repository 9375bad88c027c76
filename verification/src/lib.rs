//! A verified 9x9 Sudoku engine: constraint propagation over a board with
//! redundant candidate indices, exact solution counting by backtracking
//! search, recursive difficulty classification, and minimal-clue puzzle
//! reduction.

pub mod bits;
pub mod board;
pub mod model;
pub mod parse;
pub mod solve;
pub mod difficulty;
pub mod generate;

pub use board::Sudoku;
pub use board::Tile;
pub use solve::SolutionCount;
pub use difficulty::Difficulty;
