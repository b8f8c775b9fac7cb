//! Sets of small integers stored in the bits of an unsigned integer.
pub mod traits;

pub use traits::BitSetInt;
pub mod bit;

pub use bit::Bit;
pub mod bitset;

pub use bitset::BitSet;
pub mod bitsetiter;

pub use bitsetiter::BitSetIter;
