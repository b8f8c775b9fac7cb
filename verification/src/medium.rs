//! Short names for puzzles of u32 cells.
use vstd::prelude::*;

verus! {

pub type Sudoku = crate::sudoku::sudoku::Sudoku<u32>;
pub type Move = crate::move_change::Move<u32>;
pub type HumanSolver = crate::human_calcs::humansolve::solver::HumanSolver<u32>;
pub type Hint = crate::hint::Hint<u32>;
pub type Solution = crate::solution::Solution<u32>;

} // verus!
