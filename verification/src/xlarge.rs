//! Short names for puzzles of u128 cells.
use vstd::prelude::*;

verus! {

pub type Sudoku = crate::sudoku::sudoku::Sudoku<u128>;
pub type Move = crate::move_change::Move<u128>;
pub type HumanSolver = crate::human_calcs::humansolve::solver::HumanSolver<u128>;
pub type Hint = crate::hint::Hint<u128>;
pub type Solution = crate::solution::Solution<u128>;

} // verus!
