//! Verified guest computations of a zkVM benchmark suite: Fibonacci numbers
//! modulo 7919 (linear recurrence and fast doubling), and the validity check
//! of a completed sudoku grid together with the generator of a known-valid grid.

pub mod fibonacci;
pub mod fixed_grid;
pub mod generate;
pub mod sudoku;
pub mod sudoku9;
