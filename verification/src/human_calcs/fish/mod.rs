//! Fish: lines in which a value can only stand at as many places as there are lines.
pub mod fishtuple;
pub mod basicfish;
pub mod finned;
