use vstd::prelude::*;

verus! {

/// A row, column or box, with its number.
#[derive(Clone, Copy, Debug, PartialEq, Eq, Structural)]
pub enum House<T> {
    Row(T),
    Col(T),
    Box(T),
}

} // verus!
