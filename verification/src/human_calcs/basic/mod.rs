//! Singles, pointing and claiming.
pub mod single_cand;
pub mod single_poss;
pub mod candidates;
pub mod pointing;
pub mod claiming;
