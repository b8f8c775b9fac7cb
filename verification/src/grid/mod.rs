//! The grid of cells and the coordinates into it.
pub mod arith;
pub mod house;
pub mod types;
pub mod gridcoord;
pub mod grid;
pub mod grid_traits;

pub use gridcoord::{GridCoord, HouseCoord, InputCoord};
pub use grid::Grid;
pub use house::House;
pub use types::{Col, Coord, GridBox, Index, Row};
