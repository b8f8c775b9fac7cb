//! Short names for puzzles of u64 cells.
use vstd::prelude::*;

verus! {

pub type Sudoku = crate::sudoku::sudoku::Sudoku<u64>;
pub type Move = crate::move_change::Move<u64>;
pub type HumanSolver = crate::human_calcs::humansolve::solver::HumanSolver<u64>;
pub type Hint = crate::hint::Hint<u64>;
pub type Solution = crate::solution::Solution<u64>;

} // verus!
