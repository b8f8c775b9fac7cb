use vstd::prelude::*;
use crate::bitset::traits::BitSetInt;
use crate::human_calcs::technique::Technique;
use crate::move_change::Move;
use crate::sudoku::edit::{same_move, set_done, pot_removed, pots_removed, undone};
use crate::sudoku::sudoku::Sudoku;
use crate::brute::{solves, same_entries, listed};
use crate::grid::grid::Grid;
use crate::solution::Solution;
use crate::sudoku::state::{empty_count, valid_entry, no_clash, peers};
use crate::sudoku::output::{OutputString, output_text, values_text, value_text};
use crate::sudoku::initial_input::digit_of;
use crate::sudoku::sudoku::given_or_open;
use crate::text::{decimal, digit_char};

verus! {

/// Undoing the move that `set` made gives back the cells, the count of empty cells and the
/// moves of the puzzle as they were before the value was set.
pub proof fn lemma_set_then_undo<V: BitSetInt>(
    s0: Sudoku<V>, s1: Sudoku<V>, s2: Sudoku<V>, t: nat, value: V, technique: Option<Technique>, m1: Move<V>, m2: Move<V>,
)
    requires
        s0.wf(),
        set_done(s0, s1, t, value, technique, m1),
        undone(s1, s2, m2),
    ensures
        s2.cells() == s0.cells(),
        s2.unsolved == s0.unsolved,
        s2.moves@ == s0.moves@,
        s2.saved@ == s0.saved@,
        same_move(m2, m1),
{
    assert(s1.moves@.drop_last() =~= s1.moves@.subrange(0, s0.moves@.len() as int));
    assert(s1.saved@.drop_last() =~= s0.saved@);
}

/// Undoing the move that `remove_potential` made gives back the cells, the count of empty
/// cells and the moves of the puzzle as they were before the value was taken out.
pub proof fn lemma_remove_then_undo<V: BitSetInt>(
    s0: Sudoku<V>, s1: Sudoku<V>, s2: Sudoku<V>, t: nat, value: V, m1: Move<V>, m2: Move<V>,
)
    requires
        s0.wf(),
        pot_removed(s0, s1, t, value, m1),
        undone(s1, s2, m2),
    ensures
        s2.cells() == s0.cells(),
        s2.unsolved == s0.unsolved,
        s2.moves@ == s0.moves@,
        s2.saved@ == s0.saved@,
        same_move(m2, m1),
{
    assert(s1.moves@.drop_last() =~= s1.moves@.subrange(0, s0.moves@.len() as int));
    assert(s1.saved@.drop_last() =~= s0.saved@);
}

/// Undoing the move of a hint that took values out gives back the cells, the count of empty
/// cells and the moves of the puzzle as they were before the hint was applied.
pub proof fn lemma_hint_then_undo<V: BitSetInt>(s0: Sudoku<V>, s1: Sudoku<V>, s2: Sudoku<V>, m1: Move<V>, m2: Move<V>)
    requires
        s0.wf(),
        pots_removed(s0, s1, m1),
        undone(s1, s2, m2),
    ensures
        s2.cells() == s0.cells(),
        s2.unsolved == s0.unsolved,
        s2.moves@ == s0.moves@,
        s2.saved@ == s0.saved@,
        same_move(m2, m1),
{
    assert(s1.moves@.drop_last() =~= s1.moves@.subrange(0, s0.moves@.len() as int));
    assert(s1.saved@.drop_last() =~= s0.saved@);
}

/// The solution that the brute force search found is the only one: every grid that fills
/// the puzzle with values of `1..=house`, keeps its givens and repeats no value in a row,
/// column or box holds the values of that solution.
pub proof fn lemma_one_solution_is_unique<V: BitSetInt>(s: Sudoku<V>, g: Grid<V>)
    requires
        s.wf(),
        s.solution is One,
        solves(g, s.cells(), s.grid.size),
    ensures
        same_entries(s.solution->One_0, g),
{
}

/// A puzzle for which the search found no solution has none.
pub proof fn lemma_no_solution_is_none<V: BitSetInt>(s: Sudoku<V>, g: Grid<V>)
    requires
        s.wf(),
        s.solution is NoSolution,
    ensures
        !solves(g, s.cells(), s.grid.size),
{
}

/// Each solution of a puzzle with several is among the grids the search listed.
pub proof fn lemma_multi_solution_lists_all<V: BitSetInt>(s: Sudoku<V>, g: Grid<V>)
    requires
        s.wf(),
        s.solution is Multi,
        solves(g, s.cells(), s.grid.size),
    ensures
        listed(g, s.solution->Multi_0@, 0),
{
}

/// Setting a value leaves one empty cell fewer.
pub proof fn lemma_set_fills_one<V: BitSetInt>(s0: Sudoku<V>, s1: Sudoku<V>, t: nat, value: V, technique: Option<Technique>, m: Move<V>)
    requires
        s0.wf(),
        s1.wf(),
        set_done(s0, s1, t, value, technique, m),
    ensures
        empty_count(s1.cells()) == empty_count(s0.cells()) - 1,
{
}

/// Taking a value out of a cell, by hand or by a hint, leaves the number of empty cells.
pub proof fn lemma_removal_keeps_count<V: BitSetInt>(s0: Sudoku<V>, s1: Sudoku<V>, m: Move<V>)
    requires
        s0.wf(),
        s1.wf(),
        pots_removed(s0, s1, m),
    ensures
        empty_count(s1.cells()) == empty_count(s0.cells()),
{
}

/// Undoing the last move gives back the number of empty cells from before it, and one move
/// fewer.
pub proof fn lemma_undo_restores_count<V: BitSetInt>(s0: Sudoku<V>, s1: Sudoku<V>, m: Move<V>)
    requires
        s0.wf(),
        undone(s0, s1, m),
    ensures
        empty_count(s1.cells()) == empty_count(s0.saved@.last().0),
        s1.moves@.len() == s0.moves@.len() - 1,
{
    assert(s0.saved@.last() == s0.saved@[s0.saved@.len() - 1]);
}

/// A well-formed puzzle has no conflicts: every filled cell holds a value that no other cell
/// of its row, column or box holds.
pub proof fn lemma_no_conflicts<V: BitSetInt>(s: Sudoku<V>)
    requires
        s.wf(),
    ensures
        forall|i: int| 0 <= i < s.cells().len() ==> #[trigger] valid_entry(s.cells(), s.grid.size, i),
{
    let c = s.cells();
    let size = s.grid.size;
    reveal(no_clash);
    assert forall|i: int| 0 <= i < c.len() implies #[trigger] valid_entry(c, size, i) by {
        if c[i].value is Some {
            assert forall|j: nat| j < size.spec_total() && j != i && #[trigger] peers(size, i as nat, j)
                implies c[j as int].value != c[i].value by {
                assert(peers(size, j, i as nat));
            }
            crate::brute::lemma_valid_entry_back(c, size, i as nat);
        }
    }
}

/// A character that stands for an empty cell ('.') or for a value of one digit.
pub open spec fn puzzle_char(c: char) -> bool {
    c == '.' || ('1' <= c && c <= '9')
}

/// The text of the value a puzzle character stands for is the character itself, when empty
/// cells are written as '.'.
proof fn lemma_char_text(c: char)
    requires
        puzzle_char(c),
    ensures
        value_text(digit_of(c), '.') == seq![c],
{
    if c != '.' {
        let d = digit_of(c);
        assert(1 <= d <= 9);
        assert(decimal(d) == seq![digit_char(d)]);
        assert(digit_char(d) == c) by {
            if c == '1' {} else if c == '2' {} else if c == '3' {} else if c == '4' {} else if c == '5' {}
            else if c == '6' {} else if c == '7' {} else if c == '8' {} else { assert(c == '9'); }
        }
    }
}

/// Writing out the values that a text of puzzle characters stands for, with '.' for an
/// empty cell and no delimiter, gives the text back.
pub proof fn lemma_text_round_trip(s: Seq<char>)
    requires
        forall|k: int| 0 <= k < s.len() ==> puzzle_char(#[trigger] s[k]),
    ensures
        output_text(s.map_values(|c: char| digit_of(c)), '.', None) == s,
    decreases s.len(),
{
    let vals = s.map_values(|c: char| digit_of(c));
    if s.len() > 0 {
        let t = s.drop_last();
        lemma_text_round_trip(t);
        assert(vals.drop_last() =~= t.map_values(|c: char| digit_of(c)));
        lemma_char_text(s.last());
        assert(values_text(vals, '.', None) == values_text(vals.drop_last(), '.', None) + value_text(vals.last(), '.') + Seq::<char>::empty());
        assert(values_text(vals, '.', None) =~= t + seq![s.last()]);
        assert(t + seq![s.last()] =~= s);
    } else {
        assert(vals.len() == 0);
        assert(values_text(vals, '.', None) =~= s);
    }
}

/// A puzzle built from a text of puzzle characters writes the text back out, with '.' for an
/// empty cell and no delimiter.
pub proof fn lemma_output_round_trip<V: BitSetInt>(s: Seq<char>, p: Sudoku<V>)
    requires
        forall|k: int| 0 <= k < s.len() ==> puzzle_char(#[trigger] s[k]),
        p.grid.items.len() == s.len(),
        forall|i: int| 0 <= i < p.grid.items.len() ==> given_or_open(#[trigger] p.grid.items[i],
            s.map_values(|c: char| digit_of(c))[i], p.cells(), p.grid.size, i as nat),
    ensures
        output_text(p.spec_values(), '.', None) == s,
{
    let vals = s.map_values(|c: char| digit_of(c));
    assert(p.spec_values() =~= vals) by {
        assert forall|i: int| 0 <= i < vals.len() implies #[trigger] p.spec_values()[i] == vals[i] by {
            assert(given_or_open(p.grid.items[i], vals[i], p.cells(), p.grid.size, i as nat));
        }
    }
    lemma_text_round_trip(s);
}

/// After `k` undos from `states[0]`, the moves and saved states are the first ones of
/// `states[0]`, all but the last `k`.
proof fn lemma_undo_prefix<V: BitSetInt>(states: Seq<Sudoku<V>>, ms: Seq<Move<V>>, k: int)
    requires
        states.len() == ms.len() + 1,
        states[0].moves@.len() == ms.len(),
        states[0].saved@.len() == ms.len(),
        forall|j: int| 0 <= j < ms.len() ==> #[trigger] undone(states[j], states[j + 1], ms[j]),
        0 <= k <= ms.len(),
    ensures
        states[k].moves@ == states[0].moves@.subrange(0, ms.len() - k),
        states[k].saved@ == states[0].saved@.subrange(0, ms.len() - k),
    decreases k,
{
    if k > 0 {
        lemma_undo_prefix(states, ms, k - 1);
        let j = k - 1;
        assert(undone(states[j], states[j + 1], ms[j]));
        assert(j + 1 == k);
        assert(states[k].moves@ =~= states[0].moves@.subrange(0, ms.len() - k));
        assert(states[k].saved@ =~= states[0].saved@.subrange(0, ms.len() - k));
    } else {
        assert(states[0].moves@ =~= states[0].moves@.subrange(0, ms.len() as int));
        assert(states[0].saved@ =~= states[0].saved@.subrange(0, ms.len() as int));
    }
}

/// Undoing every recorded move of a well-formed puzzle, one after another, gives back its
/// moves from the last to the first and ends with the cells it had before its first move and
/// no moves left, so that a further `undo` gives nothing.
pub proof fn lemma_undo_all<V: BitSetInt>(states: Seq<Sudoku<V>>, ms: Seq<Move<V>>)
    requires
        states.len() == ms.len() + 1,
        ms.len() > 0,
        states[0].wf(),
        states[0].moves@.len() == ms.len(),
        forall|j: int| 0 <= j < ms.len() ==> #[trigger] undone(states[j], states[j + 1], ms[j]),
    ensures
        states.last().cells() == states[0].saved@[0].0,
        states.last().moves@.len() == 0,
        forall|j: int| 0 <= j < ms.len() ==> same_move(#[trigger] ms[j], states[0].moves@[ms.len() - 1 - j]),
{
    let n = ms.len() as int;
    assert forall|j: int| 0 <= j < n implies same_move(#[trigger] ms[j], states[0].moves@[n - 1 - j]) by {
        lemma_undo_prefix(states, ms, j);
        assert(undone(states[j], states[j + 1], ms[j]));
        assert(states[j].moves@.last() == states[0].moves@[n - 1 - j]);
    }
    lemma_undo_prefix(states, ms, n - 1);
    lemma_undo_prefix(states, ms, n);
    let j = n - 1;
    assert(undone(states[j], states[j + 1], ms[j]));
    assert(j + 1 == n);
    assert(states.last() == states[n]);
    assert(states[n - 1].saved@.last() == states[0].saved@[0]);
}

} // verus!
