//! The puzzle: its cells, the moves made on it and its solutions.
pub mod state;
pub mod initial_input;
pub mod sudoku;
pub mod edit;
pub mod setinputs;
pub mod access;
pub mod laws;
pub mod output;
