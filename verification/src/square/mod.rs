//! A cell of the puzzle and the values still possible in it.
pub mod possibilities;
pub mod square;

pub use possibilities::Possibilities;
pub use square::Square;

