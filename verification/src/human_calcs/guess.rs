use vstd::prelude::*;
use crate::human_calcs::TechStruct;
use core::marker::PhantomData;
use crate::bitset::traits::BitSetInt;
use crate::grid::types::Index;
use crate::human_calcs::technique::Technique;
use crate::move_change::{Move, IndexValuePair};
use crate::sudoku::access::unique_grid;
use crate::sudoku::sudoku::Sudoku;
use crate::hint::applicable;
use crate::human_calcs::kept::keeps_solution;

verus! {

/// The cell to guess in: the first of the cells with the fewest possible values, counting
/// only cells with at least one; the first cell when no cell has any.
pub open spec fn fewest<V: BitSetInt>(puz: Sudoku<V>, ind: int) -> bool {
    let cells = puz.cells();
    ||| (0 <= ind < cells.len() && cells[ind].flags.count > 0
        && (forall|j: int| 0 <= j < cells.len() && (#[trigger] cells[j]).flags.count > 0 ==> cells[ind].flags.count <= cells[j].flags.count)
        && (forall|j: int| 0 <= j < ind && (#[trigger] cells[j]).flags.count > 0 ==> cells[ind].flags.count < cells[j].flags.count))
    ||| (ind == 0 && forall|j: int| 0 <= j < cells.len() ==> (#[trigger] cells[j]).flags.count == 0)
}

/// The guess for the puzzle: the value of its unique solution in the cell with the fewest
/// possible values (see `fewest`), naming the technique and nothing else.
pub open spec fn guess_move<V: BitSetInt>(puz: Sudoku<V>, m: Move<V>) -> bool {
    &&& unique_grid(puz.solution) is Some
    &&& m.value_set matches Some(p) && fewest(puz, p.index.inner_index as int) && p.index.size == puz.grid.size
        && p.value == unique_grid(puz.solution)->Some_0.items[p.index.inner_index as int]
    &&& m.method == Some(Technique::Guess)
    &&& !m.manual
    &&& m.removed_potentials@.len() == 0
    &&& m.used_to_solve@.len() == 0
}

/// Guesses: fills the value of the unique solution in a cell with the fewest possible values.
pub struct Guess<V: BitSetInt>(pub PhantomData<V>);

impl<V: BitSetInt> Guess<V> {
    pub fn new() -> (r: Self) {
        Guess(PhantomData)
    }

    /// Finds the square with the fewest possible values and 'guesses' the value of the unique
    /// solution there; `None` when the puzzle has no unique solution.
    pub fn _hint(puz: &Sudoku<V>) -> (r: Option<Move<V>>)
        requires
            puz.wf(),
        ensures
            unique_grid(puz.solution) is None ==> r is None,
            unique_grid(puz.solution) matches Some(g) ==> (r matches Some(m) && (m.value_set matches Some(p)
                && fewest(*puz, p.index.inner_index as int) && p.index.size == puz.grid.size
                && p.value == g.items[p.index.inner_index as int])
                && m.method == Some(Technique::Guess) && !m.manual
                && m.removed_potentials@.len() == 0 && m.used_to_solve@.len() == 0),
    {
        let n = puz.grid.items.len();
        let mut pos: usize = 0;
        let mut lowest: u32 = u32::MAX;
        for i in 0..n
            invariant
                n == puz.grid.items.len(),
                pos < n || (pos == 0 && i == 0),
                lowest == u32::MAX ==> pos == 0 && forall|j: int| 0 <= j < i ==> (#[trigger] puz.cells()[j]).flags.count == 0,
                lowest < u32::MAX ==> pos < i && lowest == puz.cells()[pos as int].flags.count && lowest > 0
                    && (forall|j: int| 0 <= j < i && (#[trigger] puz.cells()[j]).flags.count > 0 ==> lowest <= puz.cells()[j].flags.count)
                    && (forall|j: int| 0 <= j < pos && (#[trigger] puz.cells()[j]).flags.count > 0 ==> lowest < puz.cells()[j].flags.count),
                puz.wf(),
        {
            proof {
                V::lemma_range(puz.cells()[i as int].flags.poss.0);
                crate::bitset::traits::lemma_popcnt_bound(puz.cells()[i as int].flags.poss.0.spec_nat(), V::width());
                assert(crate::sudoku::state::cell_ok(puz.cells()[i as int], i as int, puz.grid.size));
            }
            let c = puz.grid.items[i].count();
            if c < lowest && c > 0 {
                pos = i;
                lowest = c;
            }
        }
        proof {
            puz.grid.size.lemma_sizes();
        }
        match puz.unique_solution() {
            Ok(solved) => {
                proof {
                    assert(fewest(*puz, pos as int)) by {
                        if lowest < u32::MAX {
                        } else {
                            assert(pos == 0);
                        }
                    }
                    assert(crate::brute::solves(*solved, puz.cells(), puz.grid.size));
                }
                let solution = solved.items[pos];
                let mut themove = Move::new();
                themove.set_value(puz.upgrade_index(pos), solution, false);
                themove.method = Some(Technique::Guess);
                Some(themove)
            },
            Err(_) => None,
        }
    }
}

impl<V: BitSetInt> TechStruct<V> for Guess<V> {
    open spec fn spec_technique(&self) -> Technique {
        Technique::Guess
    }

    /// No hint of the technique: the puzzle has no unique solution.
    open spec fn spec_finds_nothing(&self, puz: Sudoku<V>) -> bool {
        unique_grid(puz.solution) is None
    }

    /// The value of the unique solution in a cell with the fewest possible values.
    fn tech_hint(&self, puz: &Sudoku<V>) -> (r: Option<Move<V>>)
        ensures
            unique_grid(puz.solution) is Some <==> r is Some,
    {
        let r = Self::_hint(puz);
        proof {
            if r is Some {
                let m = r->Some_0;
                assert(m.removed_potentials@.len() == 0);
            }
        }
        r
    }
}

/// The guess can be made on a puzzle that can still take its unique solution and has a cell
/// with a possible value.
pub proof fn lemma_guess_applicable<V: BitSetInt>(puz: Sudoku<V>, m: Move<V>, j: int)
    requires
        puz.wf(),
        guess_move(puz, m),
        keeps_solution(puz),
        0 <= j < puz.cells().len(),
        puz.cells()[j].flags.poss@ != Set::<nat>::empty(),
    ensures
        applicable(puz, m),
{
    let cells = puz.cells();
    let p = m.value_set->Some_0;
    let i = p.index.inner_index as int;
    assert(crate::sudoku::state::cell_ok(cells[j], j, puz.grid.size));
    if cells[j].flags.count == 0 {
        crate::bitset::bitset::lemma_count_zero_empty(cells[j].flags.poss);
    }
    assert(cells[j].flags.count > 0);
    assert(0 <= i < cells.len() && cells[i].flags.count > 0);
    assert(crate::sudoku::state::cell_ok(cells[i], i, puz.grid.size));
    assert(cells[i].value is None) by {
        if cells[i].value is Some {
            assert(cells[i].flags.poss@ == Set::<nat>::empty());
            crate::bitset::bitset::lemma_values_len(cells[i].flags.poss);
        }
    }
}

} // verus!
