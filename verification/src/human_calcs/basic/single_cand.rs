use vstd::prelude::*;
use crate::human_calcs::TechStruct;
use core::marker::PhantomData;
use crate::bitset::traits::BitSetInt;
use crate::bitset::bitsetiter::{asc_from, lemma_asc_from_contains};
use crate::grid::types::Index;
use crate::human_calcs::hints::{sound_hint, lemma_nonzero_values, lemma_popcnt_nonzero};
use crate::human_calcs::technique::Technique;
use crate::move_change::Move;
use crate::sudoku::state::cell_ok;
use crate::sudoku::sudoku::Sudoku;
use crate::sudoku::access::unique_grid;
use crate::human_calcs::kept::{keeps_solution, gval};

verus! {

/// Finds cells that have only one possible value and fills it in.
pub struct SingleCandidate<V: BitSetInt>(pub PhantomData<V>);

impl<V: BitSetInt> SingleCandidate<V> {
    pub fn new() -> (r: Self) {
        SingleCandidate(PhantomData)
    }

    /// The first cell with exactly one possible value, filled with that value; `None` when
    /// no cell has exactly one.
    pub fn _hint(puz: &Sudoku<V>) -> (r: Option<Move<V>>)
        requires
            puz.wf(),
        ensures
            r is None <==> forall|i: int| 0 <= i < puz.cells().len() ==> (#[trigger] puz.cells()[i]).flags.count != 1,
            r matches Some(m) ==> sound_hint(*puz, m, Technique::SingleCandidate) && (m.value_set matches Some(p)
                && puz.cells()[p.index.inner_index as int].flags.count == 1
                && p.index.size == puz.grid.size
                && forall|j: int| 0 <= j < p.index.inner_index ==> (#[trigger] puz.cells()[j]).flags.count != 1)
                && m.removed_potentials@.len() == 0 && m.used_to_solve@.len() == 0,
    {
        let n = puz.grid.items.len();
        for i in 0..n
            invariant
                n == puz.grid.items.len(),
                puz.wf(),
                forall|j: int| 0 <= j < i ==> (#[trigger] puz.cells()[j]).flags.count != 1,
        {
            let sq = &puz.grid.items[i];
            if sq.count() == 1 {
                proof {
                    assert(cell_ok(puz.cells()[i as int], i as int, puz.grid.size));
                    lemma_popcnt_nonzero(sq.flags.poss.0.spec_nat());
                    lemma_nonzero_values(sq.flags.poss.0);
                }
                let mut it = sq.poss().iter();
                match it.next() {
                    Some(b) => {
                        proof {
                            lemma_asc_from_contains(sq.flags.poss.0.spec_nat(), 1, V::width(), b@);
                        }
                        let mut themove = Move::new();
                        themove.set_method(Some(Technique::SingleCandidate));
                        themove.set_value(puz.upgrade_index(sq.index()), b.to_value(), false);
                        return Some(themove);
                    },
                    None => {
                        proof { assert(false); }
                    },
                }
            }
        }
        None
    }
}

impl<V: BitSetInt> TechStruct<V> for SingleCandidate<V> {
    open spec fn spec_technique(&self) -> Technique {
        Technique::SingleCandidate
    }

    /// No hint of the technique: no cell has a single possible value.
    open spec fn spec_finds_nothing(&self, puz: Sudoku<V>) -> bool {
        forall|i: int| 0 <= i < puz.cells().len() ==> (#[trigger] puz.cells()[i]).flags.count != 1
    }

    /// A cell with a single possible value, filled with it.
    fn tech_hint(&self, puz: &Sudoku<V>) -> (r: Option<Move<V>>)
        ensures
            r matches Some(m) ==> sound_hint(*puz, m, Technique::SingleCandidate),
            r is None <==> forall|i: int| 0 <= i < puz.cells().len() ==> (#[trigger] puz.cells()[i]).flags.count != 1,
    {
        let r = Self::_hint(puz);
        proof {
            if r is Some {
                let m = r->Some_0;
                if keeps_solution(*puz) {
                    let p = m.value_set->Some_0;
                    let t = p.index.inner_index as int;
                    let g = unique_grid(puz.solution)->Some_0;
                    let sq = puz.cells()[t];
                    assert(cell_ok(sq, t, puz.grid.size));
                    assert(sq.value is None) by {
                        if sq.value is Some {
                            assert(sq.flags.poss@.contains(p.value.spec_nat()));
                        }
                    }
                    crate::human_calcs::fish::fishtuple::lemma_single_value(sq.flags.poss, p.value.spec_nat(), gval(g, t));
                }
            }
        }
        r
    }
}

} // verus!
