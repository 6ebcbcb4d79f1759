//! A minesweeper board simulator with a rule-based auto-solver.
pub mod grid;
pub mod board;
pub mod flood;
pub mod chance;
pub mod solver;
pub mod generate;
pub mod progress;
