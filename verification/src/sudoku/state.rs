use vstd::prelude::*;
use crate::bitset::traits::BitSetInt;
use crate::bitset::bitset::{BitSet, first_values, lemma_view_inj};
use crate::grid::arith::{lemma_split, lemma_unflat};
use crate::grid::gridcoord::{lemma_flat, lemma_rc, lemma_box_cell};
use crate::grid::types::{cell_row, cell_col, cell_box, row_of, col_of, box_of, box_offset};
use crate::grid::grid::{count_value, single_cells, house_cells};
use crate::grid::house::House;
use crate::move_change::{Move, IndexValuePair};
use crate::square::square::Square;
use crate::sudokusize::SudokuSize;

verus! {

/// A cell as a puzzle keeps it: at its own index, with no trial cursor, a given holds its
/// value, possible values lie in `1..=house`, and a filled cell has no possible value left.
pub open spec fn cell_ok<V: BitSetInt>(sq: Square<V>, i: int, size: SudokuSize) -> bool {
    &&& sq.wf()
    &&& sq.index == i
    &&& sq.flags.current.0.spec_nat() == 0
    &&& sq.flags.poss@.subset_of(first_values(size.spec_house()))
    &&& sq.fixed ==> sq.value is Some
    &&& sq.value matches Some(b) ==> 1 <= b@ <= size.spec_house() && sq.flags.poss@ == Set::<nat>::empty()
}

/// Every cell of the grid is as a puzzle keeps it.
pub open spec fn cells_ok<V: BitSetInt>(cells: Seq<Square<V>>, size: SudokuSize) -> bool {
    &&& cells.len() == size.spec_total()
    &&& forall|i: int| 0 <= i < cells.len() ==> #[trigger] cell_ok(cells[i], i, size)
}

/// The number of empty cells.
pub open spec fn empty_count<V: BitSetInt>(cells: Seq<Square<V>>) -> nat
    decreases cells.len(),
{
    if cells.len() == 0 {
        0
    } else {
        empty_count(cells.drop_last()) + if cells.last().value is None { 1nat } else { 0nat }
    }
}

/// Cells `j` and `t` share a row, a column or a box.
pub open spec fn peers(size: SudokuSize, t: nat, j: nat) -> bool {
    ||| row_of(size, j) == row_of(size, t)
    ||| col_of(size, j) == col_of(size, t)
    ||| box_of(size, j) == box_of(size, t)
}

/// The values that the records `pairs` take out of cell `j`.
pub open spec fn pots_for<V: BitSetInt>(pairs: Seq<IndexValuePair<BitSet<V>>>, j: int) -> Set<nat>
    decreases pairs.len(),
{
    if pairs.len() == 0 {
        Set::<nat>::empty()
    } else {
        pots_for(pairs.drop_last(), j).union(
            if pairs.last().index.inner_index == j { pairs.last().value@ } else { Set::<nat>::empty() },
        )
    }
}

/// The move fills cell `j`.
pub open spec fn sets_cell<V: BitSetInt>(m: Move<V>, j: int) -> bool {
    m.value_set matches Some(p) && p.index.inner_index == j
}

/// Undoing `m` turns cell `a` (at `j`) back into `b`: a filled cell is emptied, and the
/// values the move took out are put back.
pub open spec fn restores<V: BitSetInt>(a: Square<V>, m: Move<V>, j: int, b: Square<V>) -> bool {
    &&& b.value == (if sets_cell(m, j) { None } else { a.value })
    &&& b.fixed == a.fixed
    &&& b.index == a.index
    &&& b.flags.original == a.flags.original
    &&& b.flags.current == a.flags.current
    &&& b.flags.poss@ == (if sets_cell(m, j) { Set::<nat>::empty() } else { a.flags.poss@ }).union(
        pots_for(m.removed_potentials@, j),
    )
}

/// Undoing `m` on the cells `after` gives the cells `before`.
pub open spec fn undoes_to<V: BitSetInt>(after: Seq<Square<V>>, m: Move<V>, before: Seq<Square<V>>, size: SudokuSize) -> bool {
    &&& before.len() == after.len()
    &&& m.value_set matches Some(p) ==> p.index.inner_index < after.len() && 1 <= p.value.spec_nat() <= size.spec_house()
        && after[p.index.inner_index as int].value is Some
    &&& forall|k: int| 0 <= k < m.removed_potentials@.len() ==> #[trigger] m.removed_potentials@[k].index.inner_index < after.len()
    &&& forall|j: int| 0 <= j < after.len() ==> #[trigger] restores(after[j], m, j, before[j])
}

/// Two cells that agree on all but the possible values.
pub open spec fn same_but_poss<V: BitSetInt>(a: Square<V>, b: Square<V>) -> bool {
    &&& a.value == b.value
    &&& a.fixed == b.fixed
    &&& a.index == b.index
    &&& a.flags.original == b.flags.original
    &&& a.flags.current == b.flags.current
}

/// Two well formed cells that agree on everything they hold are the same cell.
pub proof fn lemma_same_square<V: BitSetInt>(a: Square<V>, b: Square<V>)
    requires
        a.wf(),
        b.wf(),
        same_but_poss(a, b),
        a.flags.poss@ == b.flags.poss@,
    ensures
        a == b,
{
    lemma_view_inj(a.flags.poss, b.flags.poss);
}

/// Changing one cell changes the count of empty cells by what that cell changed.
pub proof fn lemma_empty_count_update<V: BitSetInt>(cells: Seq<Square<V>>, i: int, sq: Square<V>)
    requires
        0 <= i < cells.len(),
    ensures
        empty_count(cells.update(i, sq)) + (if cells[i].value is None { 1int } else { 0int })
            == empty_count(cells) + (if sq.value is None { 1int } else { 0int }),
    decreases cells.len(),
{
    let u = cells.update(i, sq);
    if i == cells.len() - 1 {
        assert(u.drop_last() =~= cells.drop_last());
    } else {
        assert(u.drop_last() =~= cells.drop_last().update(i, sq));
        lemma_empty_count_update(cells.drop_last(), i, sq);
    }
}

/// Cells that are empty at the same places have the same count of empty cells.
pub proof fn lemma_empty_count_same<V: BitSetInt>(a: Seq<Square<V>>, b: Seq<Square<V>>)
    requires
        a.len() == b.len(),
        forall|j: int| 0 <= j < a.len() ==> (#[trigger] a[j].value is None) == (b[j].value is None),
    ensures
        empty_count(a) == empty_count(b),
    decreases a.len(),
{
    if a.len() > 0 {
        lemma_empty_count_same(a.drop_last(), b.drop_last());
    }
}

/// With no empty cell, every cell holds a value.
pub proof fn lemma_empty_count_zero<V: BitSetInt>(a: Seq<Square<V>>)
    requires
        empty_count(a) == 0,
    ensures
        forall|j: int| 0 <= j < a.len() ==> (#[trigger] a[j]).value is Some,
    decreases a.len(),
{
    if a.len() > 0 {
        lemma_empty_count_zero(a.drop_last());
        assert forall|j: int| 0 <= j < a.len() implies (#[trigger] a[j]).value is Some by {
            if j < a.len() - 1 {
                assert(a.drop_last()[j] == a[j]);
            }
        }
    }
}

/// The count of empty cells is at most the count of cells.
pub proof fn lemma_empty_count_bound<V: BitSetInt>(a: Seq<Square<V>>)
    ensures
        empty_count(a) <= a.len(),
    decreases a.len(),
{
    if a.len() > 0 {
        lemma_empty_count_bound(a.drop_last());
    }
}

/// Adding a record adds its values to its cell only.
pub proof fn lemma_pots_push<V: BitSetInt>(pairs: Seq<IndexValuePair<BitSet<V>>>, p: IndexValuePair<BitSet<V>>, j: int)
    ensures
        pots_for(pairs.push(p), j) == pots_for(pairs, j).union(
            if p.index.inner_index == j { p.value@ } else { Set::<nat>::empty() },
        ),
{
    assert(pairs.push(p).drop_last() =~= pairs);
}

/// No records take nothing out.
pub proof fn lemma_pots_empty<V: BitSetInt>(j: int)
    ensures
        pots_for(Seq::<IndexValuePair<BitSet<V>>>::empty(), j) == Set::<nat>::empty(),
{
}

/// Each cell of a box is the cell at its offset in its box.
pub proof fn lemma_box_place(s: SudokuSize, j: nat)
    requires
        j < s.spec_total(),
    ensures
        box_of(s, j) < s.spec_house(),
        box_offset(s, j) < s.spec_house(),
        cell_box(s, box_of(s, j), box_offset(s, j)) == j,
{
    s.lemma_sizes();
    let w = s.spec_size();
    let r = row_of(s, j);
    let c = col_of(s, j);
    lemma_flat(s, j);
    lemma_rc(s, r, c);
    let b = box_of(s, j);
    let off = box_offset(s, j);
    lemma_box_cell(s, b, off);
    lemma_unflat(w, r);
    lemma_unflat(w, c);
    lemma_split(w, r / w, c / w);
    lemma_split(w, r % w, c % w);
}

/// A cell lies in row `n` exactly when it is cell `col_of` of that row.
pub proof fn lemma_row_member(s: SudokuSize, n: nat, j: nat)
    requires
        j < s.spec_total(),
        n < s.spec_house(),
    ensures
        row_of(s, j) == n <==> cell_row(s, n, col_of(s, j)) == j,
        forall|k: nat| k < s.spec_house() && #[trigger] cell_row(s, n, k) == j ==> row_of(s, j) == n,
{
    lemma_flat(s, j);
    assert forall|k: nat| k < s.spec_house() && #[trigger] cell_row(s, n, k) == j implies row_of(s, j) == n by {
        lemma_rc(s, n, k);
    }
    if cell_row(s, n, col_of(s, j)) == j {
        lemma_rc(s, n, col_of(s, j));
    }
}

/// A cell lies in column `n` exactly when it is cell `row_of` of that column.
pub proof fn lemma_col_member(s: SudokuSize, n: nat, j: nat)
    requires
        j < s.spec_total(),
        n < s.spec_house(),
    ensures
        col_of(s, j) == n <==> cell_col(s, n, row_of(s, j)) == j,
        forall|k: nat| k < s.spec_house() && #[trigger] cell_col(s, n, k) == j ==> col_of(s, j) == n,
{
    lemma_flat(s, j);
    assert forall|k: nat| k < s.spec_house() && #[trigger] cell_col(s, n, k) == j implies col_of(s, j) == n by {
        lemma_rc(s, k, n);
    }
    if cell_col(s, n, row_of(s, j)) == j {
        lemma_rc(s, row_of(s, j), n);
    }
}

/// A cell lies in box `n` exactly when it is cell `box_offset` of that box.
pub proof fn lemma_box_member(s: SudokuSize, n: nat, j: nat)
    requires
        j < s.spec_total(),
        n < s.spec_house(),
    ensures
        box_of(s, j) == n <==> cell_box(s, n, box_offset(s, j)) == j,
        forall|k: nat| k < s.spec_house() && #[trigger] cell_box(s, n, k) == j ==> box_of(s, j) == n,
{
    lemma_box_place(s, j);
    assert forall|k: nat| k < s.spec_house() && #[trigger] cell_box(s, n, k) == j implies box_of(s, j) == n by {
        lemma_box_cell(s, n, k);
    }
    if cell_box(s, n, box_offset(s, j)) == j {
        lemma_box_cell(s, n, box_offset(s, j));
    }
}

/// The values held by the cells `idxs`.
pub open spec fn values_at<V: BitSetInt>(cells: Seq<Square<V>>, idxs: Seq<nat>) -> Set<nat>
    decreases idxs.len(),
{
    if idxs.len() == 0 {
        Set::<nat>::empty()
    } else {
        values_at(cells, idxs.drop_last()).union(
            match cells[idxs.last() as int].value {
                Some(b) => Set::<nat>::empty().insert(b@),
                None => Set::<nat>::empty(),
            },
        )
    }
}

/// The values held in the row, the column and the box of cell `i`.
pub open spec fn values_around<V: BitSetInt>(cells: Seq<Square<V>>, size: SudokuSize, i: nat) -> Set<nat> {
    values_at(cells, house_cells(size, House::Row(row_of(size, i))))
        .union(values_at(cells, house_cells(size, House::Col(col_of(size, i)))))
        .union(values_at(cells, house_cells(size, House::Box(box_of(size, i)))))
}

/// An empty cell, or a filled cell whose value no other cell of its row, column or box holds.
pub open spec fn valid_entry<V: BitSetInt>(cells: Seq<Square<V>>, size: SudokuSize, i: int) -> bool {
    cells[i].value is None || count_value(cells, single_cells(size, i as nat), cells[i].value) == 3
}

/// The number of cells below `n` that are not valid entries.
pub open spec fn invalid_count<V: BitSetInt>(cells: Seq<Square<V>>, size: SudokuSize, n: nat) -> nat
    decreases n,
{
    if n == 0 {
        0
    } else {
        invalid_count(cells, size, (n - 1) as nat) + if valid_entry(cells, size, n - 1) { 0nat } else { 1nat }
    }
}

/// The count of invalid entries below `n` is zero exactly when all of them are valid.
pub proof fn lemma_invalid_count<V: BitSetInt>(cells: Seq<Square<V>>, size: SudokuSize, n: nat)
    ensures
        invalid_count(cells, size, n) <= n,
        (invalid_count(cells, size, n) == 0) == (forall|i: int| 0 <= i < n ==> #[trigger] valid_entry(cells, size, i)),
    decreases n,
{
    if n > 0 {
        lemma_invalid_count(cells, size, (n - 1) as nat);
        if invalid_count(cells, size, n) == 0 {
            assert forall|i: int| 0 <= i < n implies #[trigger] valid_entry(cells, size, i) by {
                if i < n - 1 {
                    assert(invalid_count(cells, size, (n - 1) as nat) == 0);
                }
            }
        }
    }
}

/// Cells whose givens are the same, at the same places.
pub open spec fn givens_same<V: BitSetInt>(a: Seq<Square<V>>, b: Seq<Square<V>>) -> bool {
    &&& a.len() == b.len()
    &&& forall|i: int| 0 <= i < a.len() ==> (#[trigger] a[i]).fixed == b[i].fixed
    &&& forall|i: int| 0 <= i < a.len() && (#[trigger] a[i]).fixed ==> a[i].value == b[i].value
}

/// No two cells of a row, column or box hold the same value, and no cell keeps as possible a
/// value that another cell of its row, column or box holds.
#[verifier::opaque]
pub open spec fn no_clash<V: BitSetInt>(cells: Seq<Square<V>>, size: SudokuSize) -> bool {
    forall|i: int, j: int|
        0 <= i < cells.len() && 0 <= j < cells.len() && i != j && peers(size, i as nat, j as nat)
            && (#[trigger] cells[j]).value is Some
        ==> (#[trigger] cells[i]).value != cells[j].value && !cells[i].flags.poss@.contains(cells[j].value->Some_0@)
}

/// Taking possible values out keeps the cells free of clashes.
pub proof fn lemma_no_clash_shrink<V: BitSetInt>(a: Seq<Square<V>>, b: Seq<Square<V>>, size: SudokuSize)
    requires
        no_clash(a, size),
        a.len() == b.len(),
        forall|j: int| 0 <= j < a.len() ==> #[trigger] b[j].value == a[j].value,
        forall|j: int| 0 <= j < a.len() ==> (#[trigger] b[j]).flags.poss@.subset_of(a[j].flags.poss@),
    ensures
        no_clash(b, size),
{
    reveal(no_clash);
    assert forall|i: int, j: int|
        0 <= i < b.len() && 0 <= j < b.len() && i != j && peers(size, i as nat, j as nat)
            && (#[trigger] b[j]).value is Some
        implies (#[trigger] b[i]).value != b[j].value && !b[i].flags.poss@.contains(b[j].value->Some_0@) by {
        assert(a[j].value is Some);
        assert(b[i].flags.poss@.subset_of(a[i].flags.poss@));
    }
}

/// Setting in cell `t` a value possible there, and taking it out of the possible values of
/// the cells of its row, column and box, keeps the cells free of clashes.
pub proof fn lemma_no_clash_set<V: BitSetInt>(a: Seq<Square<V>>, b: Seq<Square<V>>, size: SudokuSize, t: nat, v: nat)
    requires
        no_clash(a, size),
        a.len() == b.len(),
        t < a.len(),
        a[t as int].flags.poss@.contains(v),
        b[t as int].value matches Some(x) && x@ == v,
        forall|j: int| 0 <= j < b.len() && j != t ==> #[trigger] b[j].value == a[j].value,
        forall|j: int| 0 <= j < b.len() ==> (#[trigger] b[j]).flags.poss@ == if j == t {
            Set::<nat>::empty()
        } else if peers(size, t, j as nat) {
            a[j].flags.poss@.remove(v)
        } else {
            a[j].flags.poss@
        },
    ensures
        no_clash(b, size),
{
    reveal(no_clash);
    assert forall|i: int, j: int|
        0 <= i < b.len() && 0 <= j < b.len() && i != j && peers(size, i as nat, j as nat)
            && (#[trigger] b[j]).value is Some
        implies (#[trigger] b[i]).value != b[j].value && !b[i].flags.poss@.contains(b[j].value->Some_0@) by {
        if j == t {
            assert(peers(size, t, i as nat));
            if a[i].value is Some {
                assert(a[i].value != a[t as int].value);
                assert(!a[t as int].flags.poss@.contains(a[i].value->Some_0@));
            }
        } else if i == t {
            assert(a[j].value is Some);
            assert(!a[t as int].flags.poss@.contains(a[j].value->Some_0@));
        } else {
            assert(a[j].value is Some);
            assert(a[i].value != a[j].value);
        }
    }
}

/// A value held at place `q` of the list is among the values of the list.
pub proof fn lemma_values_at_has<V: BitSetInt>(cells: Seq<Square<V>>, idxs: Seq<nat>, q: int)
    requires
        0 <= q < idxs.len(),
        cells[idxs[q] as int].value is Some,
    ensures
        values_at(cells, idxs).contains(cells[idxs[q] as int].value->Some_0@),
    decreases idxs.len(),
{
    if q < idxs.len() - 1 {
        assert(idxs.drop_last()[q] == idxs[q]);
        lemma_values_at_has(cells, idxs.drop_last(), q);
    }
}

/// The value of a cell of the row, column or box of `i` is among the values around `i`.
pub proof fn lemma_values_around_has<V: BitSetInt>(cells: Seq<Square<V>>, size: SudokuSize, i: nat, j: nat)
    requires
        cells.len() == size.spec_total(),
        i < size.spec_total(),
        j < size.spec_total(),
        peers(size, i, j),
        cells[j as int].value is Some,
    ensures
        values_around(cells, size, i).contains(cells[j as int].value->Some_0@),
{
    lemma_flat(size, i);
    lemma_flat(size, j);
    lemma_box_place(size, i);
    lemma_box_place(size, j);
    if row_of(size, j) == row_of(size, i) {
        let rs = house_cells(size, House::Row(row_of(size, i)));
        assert(rs[col_of(size, j) as int] == j);
        lemma_values_at_has(cells, rs, col_of(size, j) as int);
    } else if col_of(size, j) == col_of(size, i) {
        let cs = house_cells(size, House::Col(col_of(size, i)));
        lemma_col_member(size, col_of(size, i), j);
        assert(cs[row_of(size, j) as int] == j);
        lemma_values_at_has(cells, cs, row_of(size, j) as int);
    } else {
        let bs = house_cells(size, House::Box(box_of(size, i)));
        assert(bs[box_offset(size, j) as int] == j);
        lemma_values_at_has(cells, bs, box_offset(size, j) as int);
    }
}

} // verus!
