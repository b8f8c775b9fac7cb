//! Chooses which technique to try next and applies the hints found.
pub mod solver;
pub mod tech_index;
