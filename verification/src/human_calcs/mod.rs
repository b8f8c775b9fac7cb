//! Solving techniques a person would use.
pub mod technique;
pub mod humansolve;
pub mod hints;
pub mod basic;
pub mod guess;
pub mod kept;
pub mod tuple_ctr;
pub mod tuples;
pub mod fish;

use vstd::prelude::*;
use crate::bitset::traits::BitSetInt;
use crate::human_calcs::hints::sound_hint;
use crate::human_calcs::technique::Technique;
use crate::move_change::Move;
use crate::sudoku::sudoku::Sudoku;

verus! {

/// A hint of technique `t` for the puzzle: it names `t` and is no manual move; a guess fills
/// a cell with the value of the unique solution there (`guess_move`), and any other hint is
/// one the puzzle can take; on a puzzle that can still take its unique solution, the hint
/// agrees with it (`sol_sound`).
pub open spec fn tech_ok<V: BitSetInt>(puz: Sudoku<V>, m: Move<V>, t: Technique) -> bool {
    &&& m.method == Some(t)
    &&& !m.manual
    &&& (t == Technique::Guess ==> crate::human_calcs::guess::guess_move(puz, m))
    &&& (t != Technique::Guess ==> sound_hint(puz, m, t))
    &&& (kept::keeps_solution(puz) ==> kept::sol_sound(puz, m))
}

/// A solving technique: looks for a hint in a puzzle.
pub trait TechStruct<V: BitSetInt> {
    /// The technique its hints name.
    spec fn spec_technique(&self) -> Technique;

    /// What the puzzle is like when the technique finds no hint in it.
    spec fn spec_finds_nothing(&self, puz: Sudoku<V>) -> bool;

    /// A hint of the technique, if the puzzle has one.
    fn tech_hint(&self, puz: &Sudoku<V>) -> (r: Option<Move<V>>)
        requires
            puz.wf(),
        ensures
            r matches Some(m) ==> tech_ok(*puz, m, self.spec_technique()),
            r is None ==> self.spec_finds_nothing(*puz),
    ;
}

} // verus!
