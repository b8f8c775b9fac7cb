//! A sudoku framework that finds solutions by brute force and by human solving techniques.
pub mod bitset;
pub mod errors;
pub mod sudokusize;
pub mod grid;
pub mod square;
pub mod move_change;
pub mod human_calcs;
pub mod solution;
pub mod brute;
pub mod hint;
pub mod sudoku;
pub mod text;
pub mod basic;
pub mod medium;
pub mod large;
pub mod xlarge;

pub use errors::SudError;
pub use sudokusize::SudokuSize;
pub use grid::grid::Grid;
pub use grid::types::Index;
pub use human_calcs::technique::Technique;
pub use move_change::{Move, IndexValuePair};
pub use sudoku::sudoku::Sudoku;
pub use sudoku::initial_input::InitialInput;
pub use sudoku::output::OutputString;
pub use solution::Solution;
pub use hint::Hint;
