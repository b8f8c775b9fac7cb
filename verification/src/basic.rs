//! Short names for puzzles of u16 cells.
use vstd::prelude::*;

verus! {

pub type Sudoku = crate::sudoku::sudoku::Sudoku<u16>;
pub type Move = crate::move_change::Move<u16>;
pub type HumanSolver = crate::human_calcs::humansolve::solver::HumanSolver<u16>;
pub type Hint = crate::hint::Hint<u16>;
pub type Solution = crate::solution::Solution<u16>;

} // verus!
