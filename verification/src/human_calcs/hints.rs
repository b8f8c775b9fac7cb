use vstd::prelude::*;
use crate::bitset::traits::{BitSetInt, bit_of, lemma_low_bit, lemma_bit_high, low_bit, popcnt};
use crate::bitset::bitsetiter::{asc_from, lemma_asc_from_contains};
use crate::hint::applicable;
use crate::human_calcs::technique::Technique;
use crate::move_change::Move;
use crate::sudoku::sudoku::Sudoku;

verus! {

/// The move is a hint that the puzzle can take: it can be made, it names the technique,
/// and it fills a cell or takes out at least one possible value.  This says nothing of
/// whether the hint agrees with the solution; `kept::sol_sound` says that.
pub open spec fn sound_hint<V: BitSetInt>(puz: Sudoku<V>, m: Move<V>, t: Technique) -> bool {
    &&& applicable(puz, m)
    &&& m.method == Some(t)
    &&& !m.manual
    &&& (m.value_set is Some || exists|k: int| 0 <= k < m.removed_potentials@.len()
        && (#[trigger] m.removed_potentials@[k]).value@ != Set::<nat>::empty())
}

/// A set of a nonzero number lists at least one value.
pub proof fn lemma_nonzero_values<V: BitSetInt>(x: V)
    requires
        x.spec_nat() != 0,
    ensures
        asc_from(x.spec_nat(), 1, V::width()).len() > 0,
{
    V::lemma_range(x);
    let n = x.spec_nat();
    lemma_low_bit(n);
    if low_bit(n) >= V::width() {
        lemma_bit_high(n, V::width(), low_bit(n));
    }
    lemma_asc_from_contains(n, 1, V::width(), low_bit(n) + 1);
}

/// One possible value counted means the set is not zero.
pub proof fn lemma_popcnt_nonzero(x: nat)
    requires
        popcnt(x) != 0,
    ensures
        x != 0,
{
}

} // verus!
