//! Naked and hidden tuples.
pub mod naked_tup;

pub mod hidden_tup;
