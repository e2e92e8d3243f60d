//! Conway's Game of Life on a finite grid with hard edges.
//!
//! [`grid`] holds the mathematical model of a board and the laws it obeys;
//! [`board`] holds the executable board, whose operations are proved against
//! that model.
pub mod board;
pub mod grid;

pub use board::Board;
pub use grid::Grid;
