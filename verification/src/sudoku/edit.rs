use vstd::prelude::*;
use crate::bitset::traits::BitSetInt;
use crate::bitset::bit::Bit;
use crate::bitset::bitset::{BitSet, first_values};
use crate::errors::SudError;
use crate::grid::gridcoord::{HouseCoord, InputCoord, lemma_flat};
use crate::grid::types::{Index, Row, Col, GridBox, cell_row, cell_col, cell_box, row_of, col_of, box_of, box_offset};
use crate::human_calcs::technique::Technique;
use crate::move_change::{Move, IndexValuePair};
use crate::square::square::Square;
use crate::sudoku::state::{no_clash, lemma_no_clash_shrink, lemma_no_clash_set, cells_ok, cell_ok, empty_count, undoes_to, restores, sets_cell, pots_for, peers, same_but_poss,
    lemma_same_square, lemma_empty_count_update, lemma_empty_count_same, lemma_empty_count_bound, lemma_pots_push,
    lemma_box_place, lemma_row_member, lemma_col_member, lemma_box_member, givens_same};
use crate::sudoku::sudoku::Sudoku;
use crate::hint::{Hint, removals_fit};
use crate::brute::{solution_solves, solution_complete, solves, lemma_solution_givens, lemma_complete_givens};
use crate::sudokusize::SudokuSize;
use crate::text::{decimal, push_decimal, push_text, push_char};

verus! {

/// The text of a bit as its derived `Debug` writes it: `Bit(`, the number that holds the bit,
/// in decimal, and `)`.
pub open spec fn bit_text(b: nat) -> Seq<char> {
    "Bit("@ + decimal(b) + ")"@
}

/// The number written out in decimal.
fn number_text(n: u128) -> (r: String)
    ensures
        r@ == decimal(n as nat),
{
    let mut s = String::new();
    push_decimal(&mut s, n);
    s
}

/// The text of the bit `b`.
fn bit_string<V: BitSetInt>(b: Bit<V>) -> (r: String)
    ensures
        r@ == bit_text(b.0.spec_nat()),
{
    let mut s = String::new();
    push_text(&mut s, "Bit(");
    push_decimal(&mut s, b.0.to_u128());
    push_char(&mut s, ')');
    proof {
        reveal_strlit("Bit(");
        reveal_strlit(")");
        assert(s@ =~= bit_text(b.0.spec_nat()));
    }
    s
}

/// Whether a number is at most the width of its type.
pub(crate) fn fits_width<V: BitSetInt>(value: V) -> (r: bool)
    ensures
        r == (value.spec_nat() <= V::width()),
{
    match value.try_usize() {
        Some(u) => u <= V::bits() as usize,
        None => {
            proof { V::lemma_range(value); }
            false
        },
    }
}

/// The two moves record the same thing.
pub open spec fn same_move<V: BitSetInt>(a: Move<V>, b: Move<V>) -> bool {
    &&& a.method == b.method
    &&& a.manual == b.manual
    &&& a.value_set == b.value_set
    &&& a.used_to_solve@ == b.used_to_solve@
    &&& a.removed_potentials@ == b.removed_potentials@
}

/// Takes `value` out of the possible values of the cells `idxs` that hold it, recording
/// each such cell in `themove`.
fn take_out<V: BitSetInt>(items: &mut Vec<Square<V>>, idxs: &Vec<usize>, value: Bit<V>, size: SudokuSize, themove: &mut Move<V>)
    requires
        value.wf(),
        value@ >= 1,
        old(items).len() == size.spec_total(),
        forall|k: int| 0 <= k < idxs.len() ==> #[trigger] idxs[k] < old(items).len(),
        forall|j: int| 0 <= j < old(items).len() ==> #[trigger] cell_ok(old(items)[j], j, size),
    ensures
        final(items).len() == old(items).len(),
        forall|j: int| 0 <= j < final(items).len() ==> #[trigger] cell_ok(final(items)[j], j, size),
        forall|j: int| 0 <= j < final(items).len() ==> #[trigger] same_but_poss(old(items)[j], final(items)[j]),
        forall|j: int| 0 <= j < final(items).len() ==> (#[trigger] final(items)[j]).flags.poss@ == if idxs@.contains(j as usize) {
            old(items)[j].flags.poss@.remove(value@)
        } else {
            old(items)[j].flags.poss@
        },
        forall|j: int| 0 <= j < final(items).len() ==> #[trigger] pots_for(final(themove).removed_potentials@, j)
            == pots_for(old(themove).removed_potentials@, j).union(old(items)[j].flags.poss@.difference(final(items)[j].flags.poss@)),
        final(themove).removed_potentials@.len() >= old(themove).removed_potentials@.len(),
        forall|k: int| 0 <= k < old(themove).removed_potentials@.len() ==> #[trigger] final(themove).removed_potentials@[k] == old(themove).removed_potentials@[k],
        forall|k: int| old(themove).removed_potentials@.len() <= k < final(themove).removed_potentials@.len()
            ==> #[trigger] final(themove).removed_potentials@[k].index.inner_index < final(items).len(),
        final(themove).method == old(themove).method,
        final(themove).manual == old(themove).manual,
        final(themove).value_set == old(themove).value_set,
        final(themove).used_to_solve == old(themove).used_to_solve,
{
    let ghost start = items@;
    let ghost start_pairs = themove.removed_potentials@;
    let one: BitSet<V> = BitSet::new().insert(value);
    proof {
        assert(one@ == Set::<nat>::empty().insert(value@));
    }
    for k in 0..idxs.len()
        invariant
            value.wf(),
            value@ >= 1,
            one@ == Set::<nat>::empty().insert(value@),
            items.len() == start.len(),
            start.len() == size.spec_total(),
            forall|q: int| 0 <= q < idxs.len() ==> #[trigger] idxs[q] < start.len(),
            forall|j: int| 0 <= j < items.len() ==> #[trigger] cell_ok(items[j], j, size),
            forall|j: int| 0 <= j < items.len() ==> #[trigger] same_but_poss(start[j], items[j]),
            forall|j: int| 0 <= j < items.len() ==> (#[trigger] items[j]).flags.poss@ == if idxs@.subrange(0, k as int).contains(j as usize) {
                start[j].flags.poss@.remove(value@)
            } else {
                start[j].flags.poss@
            },
            forall|j: int| 0 <= j < items.len() ==> #[trigger] pots_for(themove.removed_potentials@, j)
                == pots_for(start_pairs, j).union(start[j].flags.poss@.difference(items[j].flags.poss@)),
            themove.removed_potentials@.len() >= start_pairs.len(),
            forall|q: int| 0 <= q < start_pairs.len() ==> #[trigger] themove.removed_potentials@[q] == start_pairs[q],
            forall|q: int| start_pairs.len() <= q < themove.removed_potentials@.len()
                ==> #[trigger] themove.removed_potentials@[q].index.inner_index < start.len(),
            themove.method == old(themove).method,
            themove.manual == old(themove).manual,
            themove.value_set == old(themove).value_set,
            themove.used_to_solve == old(themove).used_to_solve,
            start_pairs == old(themove).removed_potentials@,
    {
        let j = idxs[k];
        let ghost before = items@;
        let ghost before_pairs = themove.removed_potentials@;
        proof {
            assert(idxs@.subrange(0, k + 1) =~= idxs@.subrange(0, k as int).push(j));
        }
        proof {
            assert(cell_ok(items[j as int], j as int, size));
            assert(idxs@.subrange(0, k + 1)[k as int] == j);
        }
        if items[j].poss_contains(value) {
            let mut sq = items[j];
            let at = sq.index();
            sq.remove_pot(value);
            items.set(j, sq);
            themove.add_removed_potential(Index::new(at, size), one);
            proof {
                assert(cell_ok(before[j as int], j as int, size));
                assert(at == j);
                assert(!idxs@.subrange(0, k as int).contains(j)) by {
                    if idxs@.subrange(0, k as int).contains(j) {
                        assert(!before[j as int].flags.poss@.contains(value@));
                    }
                }
                assert forall|i: int| 0 <= i < items.len() implies #[trigger] pots_for(themove.removed_potentials@, i)
                    == pots_for(start_pairs, i).union(start[i].flags.poss@.difference(items[i].flags.poss@)) by {
                    lemma_pots_push(before_pairs, IndexValuePair { index: Index { inner_index: at, size }, value: one }, i);
                    if i == j {
                        assert(start[i].flags.poss@.difference(items[i].flags.poss@)
                            =~= start[i].flags.poss@.difference(before[i].flags.poss@).union(one@));
                    } else {
                        assert(items[i] == before[i]);
                    }
                }
                assert forall|i: int| 0 <= i < items.len() implies (#[trigger] items[i]).flags.poss@ == if idxs@.subrange(0, k + 1).contains(i as usize) {
                    start[i].flags.poss@.remove(value@)
                } else {
                    start[i].flags.poss@
                } by {
                    if i != j {
                        assert(items[i] == before[i]);
                        assert(idxs@.subrange(0, k + 1).contains(i as usize) == idxs@.subrange(0, k as int).contains(i as usize));
                    } else {
                        assert(idxs@.subrange(0, k + 1).contains(i as usize));
                    }
                }
                assert forall|i: int| 0 <= i < items.len() implies #[trigger] cell_ok(items[i], i, size) by {
                    if i == j {
                        assert(cell_ok(before[i], i, size));
                    } else {
                        assert(items[i] == before[i]);
                    }
                }
                assert forall|i: int| 0 <= i < items.len() implies #[trigger] same_but_poss(start[i], items[i]) by {
                    assert(same_but_poss(start[i], before[i]));
                    if i != j {
                        assert(items[i] == before[i]);
                    }
                }
            }
        } else {
            proof {
                assert(cell_ok(before[j as int], j as int, size));
                assert(!before[j as int].flags.poss@.contains(value@));
                assert forall|i: int| 0 <= i < items.len() implies (#[trigger] items[i]).flags.poss@ == if idxs@.subrange(0, k + 1).contains(i as usize) {
                    start[i].flags.poss@.remove(value@)
                } else {
                    start[i].flags.poss@
                } by {
                    if i != j {
                        assert(idxs@.subrange(0, k + 1).contains(i as usize) == idxs@.subrange(0, k as int).contains(i as usize));
                    } else {
                        assert(idxs@.subrange(0, k + 1).contains(i as usize));
                        if !idxs@.subrange(0, k as int).contains(i as usize) {
                            assert(start[i].flags.poss@.remove(value@) =~= start[i].flags.poss@);
                        }
                    }
                }
            }
        }
    }
    proof {
        assert(idxs@.subrange(0, idxs.len() as int) =~= idxs@);
    }
}

/// The list of the cells of row `n` holds exactly the cells of that row.
proof fn lemma_row_list(size: SudokuSize, n: nat, idxs: Seq<usize>, j: int)
    requires
        n < size.spec_house(),
        0 <= j < size.spec_total(),
        idxs.len() == size.spec_house(),
        forall|k: int| 0 <= k < idxs.len() ==> #[trigger] idxs[k] == cell_row(size, n, k as nat),
    ensures
        idxs.contains(j as usize) <==> row_of(size, j as nat) == n,
{
    size.lemma_sizes();
    lemma_row_member(size, n, j as nat);
    lemma_flat(size, j as nat);
    if idxs.contains(j as usize) {
        let k = choose|k: int| 0 <= k < idxs.len() && idxs[k] == j as usize;
        assert(cell_row(size, n, k as nat) == j);
    }
    if row_of(size, j as nat) == n {
        assert(idxs[col_of(size, j as nat) as int] == j as usize);
    }
}

/// The list of the cells of column `n` holds exactly the cells of that column.
proof fn lemma_col_list(size: SudokuSize, n: nat, idxs: Seq<usize>, j: int)
    requires
        n < size.spec_house(),
        0 <= j < size.spec_total(),
        idxs.len() == size.spec_house(),
        forall|k: int| 0 <= k < idxs.len() ==> #[trigger] idxs[k] == cell_col(size, n, k as nat),
    ensures
        idxs.contains(j as usize) <==> col_of(size, j as nat) == n,
{
    size.lemma_sizes();
    lemma_col_member(size, n, j as nat);
    lemma_flat(size, j as nat);
    if idxs.contains(j as usize) {
        let k = choose|k: int| 0 <= k < idxs.len() && idxs[k] == j as usize;
        assert(cell_col(size, n, k as nat) == j);
    }
    if col_of(size, j as nat) == n {
        assert(idxs[row_of(size, j as nat) as int] == j as usize);
    }
}

/// The list of the cells of box `n` holds exactly the cells of that box.
proof fn lemma_box_list(size: SudokuSize, n: nat, idxs: Seq<usize>, j: int)
    requires
        n < size.spec_house(),
        0 <= j < size.spec_total(),
        idxs.len() == size.spec_house(),
        forall|k: int| 0 <= k < idxs.len() ==> #[trigger] idxs[k] == cell_box(size, n, k as nat),
    ensures
        idxs.contains(j as usize) <==> box_of(size, j as nat) == n,
{
    size.lemma_sizes();
    lemma_box_member(size, n, j as nat);
    lemma_box_place(size, j as nat);
    if idxs.contains(j as usize) {
        let k = choose|k: int| 0 <= k < idxs.len() && idxs[k] == j as usize;
        assert(cell_box(size, n, k as nat) == j);
    }
    if box_of(size, j as nat) == n {
        assert(idxs[box_offset(size, j as nat) as int] == j as usize);
    }
}

impl<V: BitSetInt> Sudoku<V> {
    /// The index type for a flat index of this puzzle.
    pub fn upgrade_index(&self, ind: usize) -> (r: Index)
        ensures
            r == (Index { inner_index: ind, size: self.grid.size }),
    {
        Index::new(ind, self.grid.size)
    }

    /// Takes `value` out of the possible values of every cell of the row, the column and the
    /// box of cell `index`, recording each cell it leaves in `themove`.
    fn update_potentials(&mut self, index: usize, value: Bit<V>, themove: &mut Move<V>)
        requires
            index < old(self).grid.size.spec_total(),
            cells_ok(old(self).grid.items@, old(self).grid.size),
            value.wf(),
            value@ >= 1,
        ensures
            final(self).grid.size == old(self).grid.size,
            final(self).grid.items.len() == old(self).grid.items.len(),
            forall|j: int| 0 <= j < final(self).grid.items.len() ==> #[trigger] cell_ok(final(self).grid.items[j], j, final(self).grid.size),
            forall|j: int| 0 <= j < final(self).grid.items.len() ==> #[trigger] same_but_poss(old(self).grid.items[j], final(self).grid.items[j]),
            forall|j: int| 0 <= j < final(self).grid.items.len() ==> (#[trigger] final(self).grid.items[j]).flags.poss@
                == if peers(old(self).grid.size, index as nat, j as nat) {
                    old(self).grid.items[j].flags.poss@.remove(value@)
                } else {
                    old(self).grid.items[j].flags.poss@
                },
            forall|j: int| 0 <= j < final(self).grid.items.len() ==> #[trigger] pots_for(final(themove).removed_potentials@, j)
                == pots_for(old(themove).removed_potentials@, j).union(
                    old(self).grid.items[j].flags.poss@.difference(final(self).grid.items[j].flags.poss@)),
            final(themove).removed_potentials@.len() >= old(themove).removed_potentials@.len(),
            forall|k: int| 0 <= k < old(themove).removed_potentials@.len() ==> #[trigger] final(themove).removed_potentials@[k] == old(themove).removed_potentials@[k],
            forall|k: int| old(themove).removed_potentials@.len() <= k < final(themove).removed_potentials@.len()
                ==> #[trigger] final(themove).removed_potentials@[k].index.inner_index < final(self).grid.items.len(),
            final(themove).method == old(themove).method,
            final(themove).manual == old(themove).manual,
            final(themove).value_set == old(themove).value_set,
            final(themove).used_to_solve == old(themove).used_to_solve,
            final(self).rows == old(self).rows,
            final(self).cols == old(self).cols,
            final(self).boxes == old(self).boxes,
            final(self).unsolved == old(self).unsolved,
            final(self).moves == old(self).moves,
            final(self).solution == old(self).solution,
            final(self).human_solver == old(self).human_solver,
            final(self).saved == old(self).saved,
    {
        let size = self.grid.size;
        let (row, col, box_num) = self.grid.calc_house(index);
        let rows = self.grid.house_iter(Row::start(row, size));
        let cols = self.grid.house_iter(Col::start(col, size));
        let boxes = self.grid.house_iter(GridBox::start(box_num, size));
        let ghost c0 = self.grid.items@;
        let ghost p0 = themove.removed_potentials@;
        take_out(&mut self.grid.items, &rows, value, size, themove);
        let ghost c1 = self.grid.items@;
        let ghost p1 = themove.removed_potentials@;
        take_out(&mut self.grid.items, &cols, value, size, themove);
        let ghost c2 = self.grid.items@;
        let ghost p2 = themove.removed_potentials@;
        take_out(&mut self.grid.items, &boxes, value, size, themove);
        proof {
            let c3 = self.grid.items@;
            assert forall|j: int| 0 <= j < c3.len() implies (#[trigger] c3[j]).flags.poss@
                == if peers(size, index as nat, j as nat) { c0[j].flags.poss@.remove(value@) } else { c0[j].flags.poss@ } by {
                lemma_row_list(size, row as nat, rows@, j);
                lemma_col_list(size, col as nat, cols@, j);
                lemma_box_list(size, box_num as nat, boxes@, j);
                assert(c1[j].flags.poss@ == if rows@.contains(j as usize) { c0[j].flags.poss@.remove(value@) } else { c0[j].flags.poss@ });
                assert(c2[j].flags.poss@ == if cols@.contains(j as usize) { c1[j].flags.poss@.remove(value@) } else { c1[j].flags.poss@ });
                if peers(size, index as nat, j as nat) {
                    assert(c3[j].flags.poss@ =~= c0[j].flags.poss@.remove(value@));
                }
            }
            assert forall|j: int| 0 <= j < c3.len() implies #[trigger] pots_for(themove.removed_potentials@, j)
                == pots_for(p0, j).union(c0[j].flags.poss@.difference(c3[j].flags.poss@)) by {
                assert(pots_for(p1, j) == pots_for(p0, j).union(c0[j].flags.poss@.difference(c1[j].flags.poss@)));
                assert(pots_for(p2, j) == pots_for(p1, j).union(c1[j].flags.poss@.difference(c2[j].flags.poss@)));
                assert(c1[j].flags.poss@.subset_of(c0[j].flags.poss@));
                assert(c2[j].flags.poss@.subset_of(c1[j].flags.poss@));
                assert(c3[j].flags.poss@.subset_of(c2[j].flags.poss@));
                assert(pots_for(themove.removed_potentials@, j) =~= pots_for(p0, j).union(c0[j].flags.poss@.difference(c3[j].flags.poss@)));
            }
            assert forall|j: int| 0 <= j < c3.len() implies #[trigger] same_but_poss(c0[j], c3[j]) by {
                assert(same_but_poss(c0[j], c1[j]));
                assert(same_but_poss(c1[j], c2[j]));
                assert(same_but_poss(c2[j], c3[j]));
            }
            assert forall|k: int| 0 <= k < p0.len() implies #[trigger] themove.removed_potentials@[k] == p0[k] by {
                assert(p1[k] == p0[k]);
                assert(p2[k] == p1[k]);
            }
            assert forall|k: int| p0.len() <= k < themove.removed_potentials@.len()
                implies #[trigger] themove.removed_potentials@[k].index.inner_index < c3.len() by {
                if k < p1.len() {
                    assert(p2[k] == p1[k]);
                } else if k < p2.len() {
                    assert(themove.removed_potentials@[k] == p2[k]);
                }
            }
        }
    }
}

/// A puzzle that made one more move, whose undoing gives back the cells before it, is still
/// well formed.
proof fn lemma_push_move<V: BitSetInt>(old: Sudoku<V>, new: Sudoku<V>)
    requires
        old.wf(),
        new.grid.size == old.grid.size,
        cells_ok(new.cells(), new.grid.size),
        no_clash(new.cells(), new.grid.size),
        new.unsolved == empty_count(new.cells()),
        new.rows.len() == old.rows.len(),
        new.cols.len() == old.cols.len(),
        new.boxes.len() == old.boxes.len(),
        new.solution == old.solution,
        new.human_solver == old.human_solver,
        givens_same(old.cells(), new.cells()),
        new.saved@ == old.saved@.push((old.cells(), old.unsolved)),
        new.moves@.len() == old.moves@.len() + 1,
        forall|k: int| 0 <= k < old.moves@.len() ==> #[trigger] new.moves@[k] == old.moves@[k],
        undoes_to(new.cells(), new.moves@[old.moves@.len() as int], old.cells(), old.grid.size),
    ensures
        new.wf(),
{
    let size = old.grid.size;
    let n = old.saved@.len();
    lemma_solution_givens(old.solution, old.cells(), new.cells(), size);
    lemma_complete_givens(old.solution, old.cells(), new.cells(), size);
    assert forall|k: int| 0 <= k < new.saved@.len() implies {
        &&& cells_ok((#[trigger] new.saved@[k]).0, size)
        &&& no_clash(new.saved@[k].0, size)
        &&& new.saved@[k].1 == empty_count(new.saved@[k].0)
        &&& solution_solves(new.solution, new.saved@[k].0, size)
        &&& solution_complete(new.solution, new.saved@[k].0, size)
        &&& undoes_to(new.after_move(k), new.moves@[k], new.saved@[k].0, size)
    } by {
        if k < n {
            assert(new.saved@[k] == old.saved@[k]);
            assert(new.moves@[k] == old.moves@[k]);
            assert(old.saved@[k] == old.saved@[k]);
            if k + 1 < n {
                assert(new.saved@[k + 1] == old.saved@[k + 1]);
            }
            assert(new.after_move(k) == old.after_move(k));
        } else {
            assert(new.saved@[k] == (old.cells(), old.unsolved));
        }
    }
}

impl<V: BitSetInt> Sudoku<V> {
    /// Sets the value in the square.  Checks that the value is a valid possibility, returns
    /// `SudError::ValueNotPossible` if not, and `SudError::InvalidLocation` if the index lies
    /// outside the grid.  Accepts a 1-D index, a `(row, col)` pair or an `Index`.  The value
    /// is taken out of the possible values of the cells of its row, column and box, it joins
    /// the trackers of that row, column and box, and the move is recorded, with no technique:
    /// it was made by hand.
    pub fn set<C: InputCoord>(&mut self, index: C, value: V) -> (r: Result<Move<V>, SudError>)
        requires
            old(self).wf(),
            index.spec_computable(old(self).grid.size),
        ensures
            final(self).wf(),
            index.spec_target(old(self).grid.size) >= old(self).grid.size.spec_total()
                ==> r == Err::<Move<V>, SudError>(index.spec_location_error()) && *final(self) == *old(self),
            index.spec_target(old(self).grid.size) < old(self).grid.size.spec_total()
                && !old(self).cells()[index.spec_target(old(self).grid.size) as int].flags.poss@.contains(value.spec_nat())
                ==> (r matches Err(SudError::ValueNotPossible(t)) && *final(self) == *old(self)
                    && (value.spec_nat() <= V::width() ==> t@ == bit_text(Bit::<V>::of_value(value.spec_nat())))),
            index.spec_target(old(self).grid.size) < old(self).grid.size.spec_total()
                && old(self).cells()[index.spec_target(old(self).grid.size) as int].flags.poss@.contains(value.spec_nat())
                ==> (r matches Ok(m) && set_done(*old(self), *final(self), index.spec_target(old(self).grid.size), value, None, m)),
    {
        self.set_with_technique(index, value, None)
    }

    /// Sets the value in the square as `set` does, recording the technique that found it
    /// (`None` for a move by hand).
    pub fn set_with_technique<C: InputCoord>(&mut self, index: C, value: V, technique: Option<Technique>) -> (r: Result<Move<V>, SudError>)
        requires
            old(self).wf(),
            index.spec_computable(old(self).grid.size),
        ensures
            final(self).wf(),
            index.spec_target(old(self).grid.size) >= old(self).grid.size.spec_total()
                ==> r == Err::<Move<V>, SudError>(index.spec_location_error()) && *final(self) == *old(self),
            index.spec_target(old(self).grid.size) < old(self).grid.size.spec_total()
                && !old(self).cells()[index.spec_target(old(self).grid.size) as int].flags.poss@.contains(value.spec_nat())
                ==> (r matches Err(SudError::ValueNotPossible(t)) && *final(self) == *old(self)
                    && (value.spec_nat() <= V::width() ==> t@ == bit_text(Bit::<V>::of_value(value.spec_nat())))),
            index.spec_target(old(self).grid.size) < old(self).grid.size.spec_total()
                && old(self).cells()[index.spec_target(old(self).grid.size) as int].flags.poss@.contains(value.spec_nat())
                ==> (r matches Ok(m) && set_done(*old(self), *final(self), index.spec_target(old(self).grid.size), value, technique, m)),
    {
        let ghost old_self = *self;
        let size = self.grid.size;
        let index = match index.to_usize(&self.grid.size) {
            Ok(i) => i,
            Err(e) => {
                return Err(e);
            },
        };
        proof {
            size.lemma_sizes();
            assert(cell_ok(self.grid.items[index as int], index as int, size));
        }
        if !fits_width(value) {
            proof {
                assert(!first_values(size.spec_house()).contains(value.spec_nat()));
            }
            return Err(SudError::ValueNotPossible(number_text(value.to_u128())));
        }
        let bit = Bit::from_value(value);
        if !self.grid.items[index].poss_contains(bit) {
            return Err(SudError::ValueNotPossible(bit_string(bit)));
        }
        let ghost old_cells = self.grid.items@;
        proof {
            lemma_empty_count_bound(old_cells);
        }
        let possibils = *self.grid.items[index].poss();
        let mut sq = self.grid.items[index];
        sq.set_value(Some(bit));
        proof {
            lemma_empty_count_update(old_cells, index as int, sq);
        }
        if self.grid.items[index].val().is_none() {
            self.unsolved = self.unsolved - 1;
        }
        self.grid.items.set(index, sq);
        let ghost mid_cells = self.grid.items@;
        proof {
            lemma_empty_count_update(old_cells, index as int, sq);
            assert(mid_cells == old_cells.update(index as int, sq));
            assert forall|j: int| 0 <= j < mid_cells.len() implies #[trigger] cell_ok(mid_cells[j], j, size) by {
                if j != index {
                    assert(mid_cells[j] == old_cells[j]);
                }
            }
        }
        let mut themove: Move<V> = Move::new();
        themove.set_method(technique);
        themove.set_value(self.upgrade_index(index), value, technique.is_none());
        themove.add_removed_potential(self.upgrade_index(index), possibils);
        let ghost first_pairs = themove.removed_potentials@;
        self.update_potentials(index, bit, &mut themove);
        let (row, col, box_num) = self.grid.calc_house(index);
        let r = self.rows[row].insert(bit);
        self.rows.set(row, r);
        let c = self.cols[col].insert(bit);
        self.cols.set(col, c);
        let b = self.boxes[box_num].insert(bit);
        self.boxes.set(box_num, b);
        let pushed = themove.clone_move();
        self.moves.push(pushed);
        proof {
            self.saved@ = self.saved@.push((old_cells, old_self.unsolved));
        }
        proof {
            let new_cells = self.grid.items@;
            let m = self.moves@[old_self.moves@.len() as int];
            assert forall|j: int| 0 <= j < mid_cells.len() implies (#[trigger] mid_cells[j].value is None) == (new_cells[j].value is None) by {
                assert(same_but_poss(mid_cells[j], new_cells[j]));
            }
            lemma_empty_count_same(mid_cells, new_cells);
            assert forall|j: int| 0 <= j < new_cells.len() implies #[trigger] pots_for(themove.removed_potentials@, j)
                == old_cells[j].flags.poss@.difference(new_cells[j].flags.poss@) by {
                lemma_pots_push(Seq::<IndexValuePair<BitSet<V>>>::empty(), IndexValuePair { index: Index { inner_index: index, size }, value: possibils }, j);
                assert(first_pairs == Seq::<IndexValuePair<BitSet<V>>>::empty().push(IndexValuePair { index: Index { inner_index: index, size }, value: possibils }));
                assert(pots_for(Seq::<IndexValuePair<BitSet<V>>>::empty(), j) == Set::<nat>::empty());
                if j == index {
                    assert(pots_for(themove.removed_potentials@, j) =~= old_cells[j].flags.poss@.difference(new_cells[j].flags.poss@));
                } else {
                    assert(mid_cells[j] == old_cells[j]);
                    assert(pots_for(themove.removed_potentials@, j) =~= old_cells[j].flags.poss@.difference(new_cells[j].flags.poss@));
                }
            }
            assert forall|j: int| 0 <= j < new_cells.len() implies #[trigger] restores(new_cells[j], m, j, old_cells[j]) by {
                assert(cell_ok(old_cells[j], j, size));
                assert(cell_ok(new_cells[j], j, size));
                assert(same_but_poss(mid_cells[j], new_cells[j]));
                V::lemma_nat_inj(old_cells[j].flags.current.0, new_cells[j].flags.current.0);
                if j != index {
                    assert(mid_cells[j] == old_cells[j]);
                    assert(new_cells[j].flags.poss@.subset_of(old_cells[j].flags.poss@));
                    assert(old_cells[j].flags.poss@ =~= new_cells[j].flags.poss@.union(pots_for(m.removed_potentials@, j)));
                } else {
                    assert(old_cells[j].flags.poss@ =~= Set::<nat>::empty().union(pots_for(m.removed_potentials@, j)));
                }
            }
            assert forall|k: int| 0 <= k < m.removed_potentials@.len() implies #[trigger] m.removed_potentials@[k].index.inner_index < new_cells.len() by {
                if k == 0 {
                    assert(m.removed_potentials@[0] == first_pairs[0]);
                }
            }
            assert(undoes_to(new_cells, m, old_cells, size));
            assert forall|j: int| 0 <= j < old_cells.len() implies (#[trigger] old_cells[j]).fixed == new_cells[j].fixed by {
                assert(same_but_poss(mid_cells[j], new_cells[j]));
                if j != index {
                    assert(mid_cells[j] == old_cells[j]);
                }
            }
            assert forall|j: int| 0 <= j < old_cells.len() && (#[trigger] old_cells[j]).fixed implies old_cells[j].value == new_cells[j].value by {
                assert(same_but_poss(mid_cells[j], new_cells[j]));
                assert(cell_ok(old_cells[j], j, size));
                if j != index {
                    assert(mid_cells[j] == old_cells[j]);
                }
            }
            assert(givens_same(old_cells, new_cells));
            assert forall|k: int| 0 <= k < old_self.moves@.len() implies #[trigger] self.moves@[k] == old_self.moves@[k] by {}
            assert forall|j: int| 0 <= j < new_cells.len() && j != index implies #[trigger] new_cells[j].value == old_cells[j].value by {
                assert(same_but_poss(mid_cells[j], new_cells[j]));
                assert(mid_cells[j] == old_cells[j]);
            }

            assert(self.moves@.subrange(0, old_self.moves@.len() as int) =~= old_self.moves@);
            let new = *self;
            let t = index as nat;
            assert(same_but_poss(mid_cells[index as int], new_cells[index as int]));
            assert(mid_cells[index as int] == sq);
            assert(new.cells()[t as int].value matches Some(b) && b@ == value.spec_nat());
            assert(forall|j: int| 0 <= j < new.cells().len() ==> (#[trigger] new.cells()[j]).flags.poss@ == if j == t {
                Set::<nat>::empty()
            } else if peers(size, t, j as nat) {
                old_self.cells()[j].flags.poss@.remove(value.spec_nat())
            } else {
                old_self.cells()[j].flags.poss@
            });
            lemma_no_clash_set(old_cells, new_cells, size, index as nat, value.spec_nat());
            lemma_push_move(old_self, *self);
            assert(new.unsolved == old_self.unsolved - 1);
            assert(same_move(new.moves@.last(), themove));
            assert(themove.value_set == Some(IndexValuePair { index: Index { inner_index: t as usize, size }, value }));
            assert(themove.used_to_solve@.len() == 0);
            assert(themove.removed_potentials@[0] == IndexValuePair { index: Index { inner_index: t as usize, size }, value: old_self.cells()[t as int].flags.poss });
        }
        Ok(themove)
    }
}

/// The state after value `value` was set in cell `t` by move `m`: the cell holds the value
/// and no possible value, the value left the possible values of the row, column and box and
/// joined their trackers, one empty cell less, the move was recorded with the state before it.
pub open spec fn set_done<V: BitSetInt>(old: Sudoku<V>, new: Sudoku<V>, t: nat, value: V, technique: Option<Technique>, m: Move<V>) -> bool {
    let size = old.grid.size;
    let v = value.spec_nat();
    &&& new.grid.size == size
    &&& new.cells().len() == old.cells().len()
    &&& new.cells()[t as int].value matches Some(b) && b@ == v
    &&& forall|j: int| 0 <= j < new.cells().len() && j != t ==> #[trigger] new.cells()[j].value == old.cells()[j].value
    &&& forall|j: int| 0 <= j < new.cells().len() ==> (#[trigger] new.cells()[j]).flags.poss@ == if j == t {
        Set::<nat>::empty()
    } else if peers(size, t, j as nat) {
        old.cells()[j].flags.poss@.remove(v)
    } else {
        old.cells()[j].flags.poss@
    }
    &&& new.unsolved == old.unsolved - 1
    &&& new.moves@.len() == old.moves@.len() + 1
    &&& new.moves@.subrange(0, old.moves@.len() as int) == old.moves@
    &&& same_move(new.moves@.last(), m)
    &&& new.saved@ == old.saved@.push((old.cells(), old.unsolved))
    &&& m.value_set == Some(IndexValuePair { index: Index { inner_index: t as usize, size }, value })
    &&& m.method == technique
    &&& m.manual == (technique is None)
    &&& m.used_to_solve@.len() == 0
    &&& m.removed_potentials@.len() >= 1
    &&& m.removed_potentials@[0] == IndexValuePair { index: Index { inner_index: t as usize, size }, value: old.cells()[t as int].flags.poss }
    &&& forall|j: int| 0 <= j < new.cells().len() ==> #[trigger] pots_for(m.removed_potentials@, j)
        == old.cells()[j].flags.poss@.difference(new.cells()[j].flags.poss@)
    &&& new.rows.len() == old.rows.len()
    &&& new.rows@[row_of(size, t) as int]@ == old.rows@[row_of(size, t) as int]@.insert(v)
    &&& forall|k: int| 0 <= k < new.rows.len() && k != row_of(size, t) ==> #[trigger] new.rows@[k] == old.rows@[k]
    &&& new.cols.len() == old.cols.len()
    &&& new.cols@[col_of(size, t) as int]@ == old.cols@[col_of(size, t) as int]@.insert(v)
    &&& forall|k: int| 0 <= k < new.cols.len() && k != col_of(size, t) ==> #[trigger] new.cols@[k] == old.cols@[k]
    &&& new.boxes.len() == old.boxes.len()
    &&& new.boxes@[box_of(size, t) as int]@ == old.boxes@[box_of(size, t) as int]@.insert(v)
    &&& forall|k: int| 0 <= k < new.boxes.len() && k != box_of(size, t) ==> #[trigger] new.boxes@[k] == old.boxes@[k]
    &&& new.solution == old.solution
    &&& new.human_solver == old.human_solver
}

/// What the records that fit take out of a cell was possible there.
proof fn lemma_pots_fit<V: BitSetInt>(cells: Seq<Square<V>>, pairs: Seq<IndexValuePair<BitSet<V>>>, j: int)
    requires
        removals_fit(cells, pairs),
        0 <= j < cells.len(),
    ensures
        pots_for(pairs, j).subset_of(cells[j].flags.poss@),
    decreases pairs.len(),
{
    if pairs.len() > 0 {
        assert forall|k: int| 0 <= k < pairs.drop_last().len() implies (#[trigger] pairs.drop_last()[k]).index.inner_index < cells.len()
            && pairs.drop_last()[k].value@.subset_of(cells[pairs.drop_last()[k].index.inner_index as int].flags.poss@) by {
            assert(pairs.drop_last()[k] == pairs[k]);
        }
        lemma_pots_fit(cells, pairs.drop_last(), j);
        assert(pairs[pairs.len() - 1] == pairs.last());
    }
}

/// The state after value `value` was taken out of the possible values of cell `t` by move `m`.
pub open spec fn pot_removed<V: BitSetInt>(old: Sudoku<V>, new: Sudoku<V>, t: nat, value: V, m: Move<V>) -> bool {
    let size = old.grid.size;
    &&& new.grid.size == size
    &&& new.cells().len() == old.cells().len()
    &&& forall|j: int| 0 <= j < new.cells().len() && j != t ==> #[trigger] new.cells()[j] == old.cells()[j]
    &&& same_but_poss(old.cells()[t as int], new.cells()[t as int])
    &&& new.cells()[t as int].flags.poss@ == old.cells()[t as int].flags.poss@.remove(value.spec_nat())
    &&& new.unsolved == old.unsolved
    &&& new.moves@.len() == old.moves@.len() + 1
    &&& new.moves@.subrange(0, old.moves@.len() as int) == old.moves@
    &&& same_move(new.moves@.last(), m)
    &&& new.saved@ == old.saved@.push((old.cells(), old.unsolved))
    &&& m.value_set is None
    &&& m.method is None
    &&& m.manual
    &&& m.used_to_solve@.len() == 0
    &&& m.removed_potentials@.len() == 1
    &&& m.removed_potentials@[0].index == (Index { inner_index: t as usize, size })
    &&& m.removed_potentials@[0].value@ == Set::<nat>::empty().insert(value.spec_nat())
    &&& new.rows == old.rows
    &&& new.cols == old.cols
    &&& new.boxes == old.boxes
    &&& new.solution == old.solution
    &&& new.human_solver == old.human_solver
}

/// The state after the values of the records of `m` were taken out of their cells.
pub open spec fn pots_removed<V: BitSetInt>(old: Sudoku<V>, new: Sudoku<V>, m: Move<V>) -> bool {
    &&& new.grid.size == old.grid.size
    &&& new.cells().len() == old.cells().len()
    &&& forall|j: int| 0 <= j < new.cells().len() ==> #[trigger] same_but_poss(old.cells()[j], new.cells()[j])
    &&& forall|j: int| 0 <= j < new.cells().len() ==> (#[trigger] new.cells()[j]).flags.poss@
        == old.cells()[j].flags.poss@.difference(pots_for(m.removed_potentials@, j))
    &&& new.unsolved == old.unsolved
    &&& new.moves@.len() == old.moves@.len() + 1
    &&& new.moves@.subrange(0, old.moves@.len() as int) == old.moves@
    &&& same_move(new.moves@.last(), m)
    &&& new.saved@ == old.saved@.push((old.cells(), old.unsolved))
    &&& new.rows == old.rows
    &&& new.cols == old.cols
    &&& new.boxes == old.boxes
    &&& new.solution == old.solution
    &&& new.human_solver == old.human_solver
}

/// What undoing the top move does: the cells and the count of empty cells go back to what
/// was saved before it, and a value taken back leaves the trackers of its row, column and
/// box.
pub open spec fn undone<V: BitSetInt>(old: Sudoku<V>, new: Sudoku<V>, m: Move<V>) -> bool {
    let size = old.grid.size;
    &&& old.moves@.len() > 0
    &&& same_move(m, old.moves@.last())
    &&& new.grid.size == size
    &&& new.cells() == old.saved@.last().0
    &&& new.unsolved == old.saved@.last().1
    &&& new.moves@ == old.moves@.drop_last()
    &&& new.saved@ == old.saved@.drop_last()
    &&& new.solution == old.solution
    &&& new.human_solver == old.human_solver
    &&& match m.value_set {
        Some(p) => {
            let t = p.index.inner_index as nat;
            let v = p.value.spec_nat();
            let b = box_of(size, t) as int;
            &&& new.boxes.len() == old.boxes.len()
            &&& new.boxes@[b]@ == old.boxes@[b]@.remove(v)
            &&& forall|k: int| 0 <= k < new.boxes.len() && k != b ==> #[trigger] new.boxes@[k] == old.boxes@[k]
            &&& new.rows.len() == old.rows.len()
            &&& new.rows@[row_of(size, t) as int]@ == old.rows@[row_of(size, t) as int]@.remove(v)
            &&& forall|k: int| 0 <= k < new.rows.len() && k != row_of(size, t) ==> #[trigger] new.rows@[k] == old.rows@[k]
            &&& new.cols.len() == old.cols.len()
            &&& new.cols@[col_of(size, t) as int]@ == old.cols@[col_of(size, t) as int]@.remove(v)
            &&& forall|k: int| 0 <= k < new.cols.len() && k != col_of(size, t) ==> #[trigger] new.cols@[k] == old.cols@[k]
        },
        None => new.rows == old.rows && new.cols == old.cols && new.boxes == old.boxes,
    }
}

impl<V: BitSetInt> Sudoku<V> {
    /// Removes potential value from a square.  Returns `SudError::ValueNotPossible` if the
    /// value is not possible there and `SudError::InvalidLocation` for an index outside the
    /// grid.  The move is recorded as made by hand.
    pub fn remove_potential<C: InputCoord>(&mut self, index: C, value: V) -> (r: Result<Move<V>, SudError>)
        requires
            old(self).wf(),
            index.spec_computable(old(self).grid.size),
        ensures
            final(self).wf(),
            index.spec_target(old(self).grid.size) >= old(self).grid.size.spec_total()
                ==> r == Err::<Move<V>, SudError>(index.spec_location_error()) && *final(self) == *old(self),
            index.spec_target(old(self).grid.size) < old(self).grid.size.spec_total()
                && !old(self).cells()[index.spec_target(old(self).grid.size) as int].flags.poss@.contains(value.spec_nat())
                ==> (r matches Err(SudError::ValueNotPossible(t)) && *final(self) == *old(self)
                    && t@ == decimal(index.spec_target(old(self).grid.size))),
            index.spec_target(old(self).grid.size) < old(self).grid.size.spec_total()
                && old(self).cells()[index.spec_target(old(self).grid.size) as int].flags.poss@.contains(value.spec_nat())
                ==> (r matches Ok(m) && pot_removed(*old(self), *final(self), index.spec_target(old(self).grid.size), value, m)),
    {
        let ghost old_self = *self;
        let size = self.grid.size;
        let index = match index.to_usize(&self.grid.size) {
            Ok(i) => i,
            Err(e) => {
                return Err(e);
            },
        };
        proof {
            size.lemma_sizes();
            assert(cell_ok(self.grid.items[index as int], index as int, size));
        }
        if !fits_width(value) {
            proof {
                assert(!first_values(size.spec_house()).contains(value.spec_nat()));
            }
            return Err(SudError::ValueNotPossible(number_text(index as u128)));
        }
        let bit = Bit::from_value(value);
        if !self.grid.items[index].poss_contains(bit) {
            return Err(SudError::ValueNotPossible(number_text(index as u128)));
        }
        let ghost old_cells = self.grid.items@;
        let mut themove: Move<V> = Move::new();
        themove.set_method(None);
        let one = BitSet::new().insert(bit);
        themove.add_removed_potential(self.upgrade_index(index), one);
        let mut sq = self.grid.items[index];
        sq.remove_pot(bit);
        self.grid.items.set(index, sq);
        let pushed = themove.clone_move();
        self.moves.push(pushed);
        proof {
            self.saved@ = self.saved@.push((old_cells, old_self.unsolved));
        }
        proof {
            let new_cells = self.grid.items@;
            let m = self.moves@[old_self.moves@.len() as int];
            assert(new_cells == old_cells.update(index as int, sq));
            assert forall|j: int| 0 <= j < new_cells.len() implies #[trigger] cell_ok(new_cells[j], j, size) by {
                if j != index {
                    assert(new_cells[j] == old_cells[j]);
                }
            }
            assert forall|j: int| 0 <= j < old_cells.len() implies (#[trigger] old_cells[j].value is None) == (new_cells[j].value is None) by {}
            lemma_empty_count_same(old_cells, new_cells);
            assert forall|j: int| 0 <= j < new_cells.len() implies #[trigger] restores(new_cells[j], m, j, old_cells[j]) by {
                lemma_pots_push(Seq::<IndexValuePair<BitSet<V>>>::empty(), IndexValuePair { index: Index { inner_index: index, size }, value: one }, j);
                assert(m.removed_potentials@ == Seq::<IndexValuePair<BitSet<V>>>::empty().push(IndexValuePair { index: Index { inner_index: index, size }, value: one }));
                if j == index {
                    assert(old_cells[j].flags.poss@ =~= new_cells[j].flags.poss@.union(pots_for(m.removed_potentials@, j)));
                } else {
                    assert(old_cells[j].flags.poss@ =~= new_cells[j].flags.poss@.union(pots_for(m.removed_potentials@, j)));
                }
            }
            assert(undoes_to(new_cells, m, old_cells, size));
            assert(givens_same(old_cells, new_cells));
            assert forall|j: int| 0 <= j < old_cells.len() implies #[trigger] new_cells[j].value == old_cells[j].value by {
                if j != index {
                    assert(new_cells[j] == old_cells[j]);
                }
            }
            assert forall|j: int| 0 <= j < old_cells.len() implies (#[trigger] new_cells[j]).flags.poss@.subset_of(old_cells[j].flags.poss@) by {
                assert(restores(new_cells[j], m, j, old_cells[j]));
            }
            lemma_no_clash_shrink(old_cells, new_cells, size);
            assert forall|k: int| 0 <= k < old_self.moves@.len() implies #[trigger] self.moves@[k] == old_self.moves@[k] by {}
            lemma_push_move(old_self, *self);
            assert(self.moves@.subrange(0, old_self.moves@.len() as int) =~= old_self.moves@);
        }
        Ok(themove)
    }

    /// Takes out of each cell the values that the records of the hint name, and records the
    /// hint's move.
    pub fn remove_potentials_from_hint(&mut self, hint: Hint<V>) -> (r: Result<Move<V>, SudError>)
        requires
            old(self).wf(),
            hint.0.value_set is None,
            removals_fit(old(self).cells(), hint.0.removed_potentials@),
        ensures
            final(self).wf(),
            r matches Ok(m) && same_move(m, hint.0) && pots_removed(*old(self), *final(self), hint.0),
    {
        let ghost old_self = *self;
        let ghost old_cells = self.grid.items@;
        let size = self.grid.size;
        let themove = hint.0;
        let ghost pairs = themove.removed_potentials@;
        for k in 0..themove.removed_potentials.len()
            invariant
                pairs == themove.removed_potentials@,
                removals_fit(old_cells, pairs),
                self.grid.size == size,
                self.grid.items.len() == old_cells.len(),
                old_cells.len() == size.spec_total(),
                cells_ok(old_cells, size),
                forall|j: int| 0 <= j < self.grid.items.len() ==> #[trigger] cell_ok(self.grid.items[j], j, size),
                forall|j: int| 0 <= j < self.grid.items.len() ==> #[trigger] same_but_poss(old_cells[j], self.grid.items[j]),
                forall|j: int| 0 <= j < self.grid.items.len() ==> (#[trigger] self.grid.items[j]).flags.poss@
                    == old_cells[j].flags.poss@.difference(pots_for(pairs.subrange(0, k as int), j)),
                self.rows == old_self.rows,
                self.cols == old_self.cols,
                self.boxes == old_self.boxes,
                self.unsolved == old_self.unsolved,
                self.moves == old_self.moves,
                self.solution == old_self.solution,
                self.human_solver == old_self.human_solver,
                self.saved == old_self.saved,
        {
            let pair = themove.removed_potentials[k];
            let idx = pair.index().to_usize();
            let ghost before = self.grid.items@;
            proof {
                assert(pairs[k as int] == pair);
                assert(cell_ok(before[idx as int], idx as int, size));
            }
            let mut sq = self.grid.items[idx];
            sq.remove_set(pair.value);
            self.grid.items.set(idx, sq);
            proof {
                assert(pairs.subrange(0, k + 1) =~= pairs.subrange(0, k as int).push(pair));
                assert forall|j: int| 0 <= j < self.grid.items.len() implies #[trigger] cell_ok(self.grid.items[j], j, size) by {
                    assert(cell_ok(before[j], j, size));
                    if j != idx {
                        assert(self.grid.items[j] == before[j]);
                    } else {
                        assert(self.grid.items[j].flags.poss@.subset_of(before[j].flags.poss@));
                        if before[j].value is Some {
                            assert(self.grid.items[j].flags.poss@ =~= Set::<nat>::empty());
                        }
                    }
                }
                assert forall|j: int| 0 <= j < self.grid.items.len() implies #[trigger] same_but_poss(old_cells[j], self.grid.items[j]) by {
                    assert(same_but_poss(old_cells[j], before[j]));
                    assert(cell_ok(old_cells[j], j, size));
                    assert(cell_ok(self.grid.items[j], j, size));
                    V::lemma_nat_inj(old_cells[j].flags.current.0, self.grid.items[j].flags.current.0);
                    if j != idx {
                        assert(self.grid.items[j] == before[j]);
                    }
                }
                assert forall|j: int| 0 <= j < self.grid.items.len() implies (#[trigger] self.grid.items[j]).flags.poss@
                    == old_cells[j].flags.poss@.difference(pots_for(pairs.subrange(0, k + 1), j)) by {
                    lemma_pots_push(pairs.subrange(0, k as int), pair, j);
                    if j == idx {
                        assert(self.grid.items[j].flags.poss@ =~= old_cells[j].flags.poss@.difference(pots_for(pairs.subrange(0, k + 1), j)));
                    } else {
                        assert(self.grid.items[j] == before[j]);
                        assert(self.grid.items[j].flags.poss@ =~= old_cells[j].flags.poss@.difference(pots_for(pairs.subrange(0, k + 1), j)));
                    }
                }
            }
        }
        let pushed = themove.clone_move();
        self.moves.push(pushed);
        proof {
            self.saved@ = self.saved@.push((old_cells, old_self.unsolved));
        }
        proof {
            let new_cells = self.grid.items@;
            let m = self.moves@[old_self.moves@.len() as int];
            assert(pairs.subrange(0, pairs.len() as int) =~= pairs);
            assert forall|j: int| 0 <= j < old_cells.len() implies (#[trigger] old_cells[j].value is None) == (new_cells[j].value is None) by {
                assert(same_but_poss(old_cells[j], new_cells[j]));
            }
            lemma_empty_count_same(old_cells, new_cells);
            assert forall|j: int| 0 <= j < new_cells.len() implies #[trigger] restores(new_cells[j], m, j, old_cells[j]) by {
                assert(same_but_poss(old_cells[j], new_cells[j]));
                lemma_pots_fit(old_cells, pairs, j);
                assert(old_cells[j].flags.poss@ =~= new_cells[j].flags.poss@.union(pots_for(m.removed_potentials@, j)));
            }
            assert forall|k: int| 0 <= k < m.removed_potentials@.len() implies #[trigger] m.removed_potentials@[k].index.inner_index < new_cells.len() by {
                assert(pairs[k] == m.removed_potentials@[k]);
            }
            assert(undoes_to(new_cells, m, old_cells, size));
            assert forall|j: int| 0 <= j < old_cells.len() implies #[trigger] new_cells[j].value == old_cells[j].value by {
                assert(same_but_poss(old_cells[j], new_cells[j]));
            }
            assert forall|j: int| 0 <= j < old_cells.len() implies (#[trigger] new_cells[j]).flags.poss@.subset_of(old_cells[j].flags.poss@) by {
                assert(restores(new_cells[j], m, j, old_cells[j]));
            }
            lemma_no_clash_shrink(old_cells, new_cells, size);
            assert forall|j: int| 0 <= j < old_cells.len() implies (#[trigger] old_cells[j]).fixed == new_cells[j].fixed by {
                assert(same_but_poss(old_cells[j], new_cells[j]));
            }
            assert forall|j: int| 0 <= j < old_cells.len() && (#[trigger] old_cells[j]).fixed implies old_cells[j].value == new_cells[j].value by {
                assert(same_but_poss(old_cells[j], new_cells[j]));
            }
            assert(givens_same(old_cells, new_cells));
            assert forall|k: int| 0 <= k < old_self.moves@.len() implies #[trigger] self.moves@[k] == old_self.moves@[k] by {}
            lemma_push_move(old_self, *self);
            assert(self.moves@.subrange(0, old_self.moves@.len() as int) =~= old_self.moves@);
        }
        Ok(themove)
    }
}

impl<V: BitSetInt> Sudoku<V> {
    /// Empties the cell that `pair` filled, counts it as empty again, and takes its value out
    /// of the trackers of its row, column and box.
    fn undo_set(&mut self, pair: &IndexValuePair<V>)
        requires
            pair.index.inner_index < old(self).grid.items.len(),
            old(self).grid.items.len() == old(self).grid.size.spec_total(),
            old(self).grid.items[pair.index.inner_index as int].wf(),
            1 <= pair.value.spec_nat() <= old(self).grid.size.spec_house(),
            old(self).grid.size.spec_house() <= V::width(),
            old(self).unsolved < old(self).grid.size.spec_total(),
            old(self).rows.len() == old(self).grid.size.spec_house(),
            old(self).cols.len() == old(self).grid.size.spec_house(),
            old(self).boxes.len() == old(self).grid.size.spec_house(),
        ensures
            final(self).grid.size == old(self).grid.size,
            final(self).grid.items@ == old(self).grid.items@.update(pair.index.inner_index as int, final(self).grid.items[pair.index.inner_index as int]),
            final(self).grid.items[pair.index.inner_index as int].wf(),
            final(self).grid.items[pair.index.inner_index as int].value is None,
            final(self).grid.items[pair.index.inner_index as int].flags.poss@ == Set::<nat>::empty(),
            final(self).grid.items[pair.index.inner_index as int].flags.current.0.spec_nat() == 0,
            final(self).grid.items[pair.index.inner_index as int].fixed == old(self).grid.items[pair.index.inner_index as int].fixed,
            final(self).grid.items[pair.index.inner_index as int].index == old(self).grid.items[pair.index.inner_index as int].index,
            final(self).grid.items[pair.index.inner_index as int].flags.original == old(self).grid.items[pair.index.inner_index as int].flags.original,
            final(self).rows.len() == old(self).rows.len(),
            final(self).cols.len() == old(self).cols.len(),
            final(self).boxes.len() == old(self).boxes.len(),
            final(self).boxes@[box_of(old(self).grid.size, pair.index.inner_index as nat) as int]@
                == old(self).boxes@[box_of(old(self).grid.size, pair.index.inner_index as nat) as int]@.remove(pair.value.spec_nat()),
            forall|k: int| 0 <= k < final(self).boxes.len() && k != box_of(old(self).grid.size, pair.index.inner_index as nat)
                ==> #[trigger] final(self).boxes@[k] == old(self).boxes@[k],
            final(self).rows@[row_of(old(self).grid.size, pair.index.inner_index as nat) as int]@
                == old(self).rows@[row_of(old(self).grid.size, pair.index.inner_index as nat) as int]@.remove(pair.value.spec_nat()),
            forall|k: int| 0 <= k < final(self).rows.len() && k != row_of(old(self).grid.size, pair.index.inner_index as nat)
                ==> #[trigger] final(self).rows@[k] == old(self).rows@[k],
            final(self).cols@[col_of(old(self).grid.size, pair.index.inner_index as nat) as int]@
                == old(self).cols@[col_of(old(self).grid.size, pair.index.inner_index as nat) as int]@.remove(pair.value.spec_nat()),
            forall|k: int| 0 <= k < final(self).cols.len() && k != col_of(old(self).grid.size, pair.index.inner_index as nat)
                ==> #[trigger] final(self).cols@[k] == old(self).cols@[k],
            final(self).unsolved == old(self).unsolved + 1,
            final(self).moves == old(self).moves,
            final(self).solution == old(self).solution,
            final(self).human_solver == old(self).human_solver,
            final(self).saved == old(self).saved,
    {
        let index = pair.index().to_usize();
        let value: BitSet<V> = BitSet::from_bit(Bit::from_value(*pair.value()));
        let (row, col, thebox) = self.grid.calc_house(index);
        let mut sq = self.grid.items[index];
        sq.set_value(None);
        self.grid.items.set(index, sq);
        self.unsolved = self.unsolved + 1;
        let b = self.boxes[thebox].difference(value);
        self.boxes.set(thebox, b);
        let r = self.rows[row].difference(value);
        self.rows.set(row, r);
        let c = self.cols[col].difference(value);
        self.cols.set(col, c);
    }
}

impl<V: BitSetInt> Sudoku<V> {
    /// Puts the values of `pair` back into the possible values of its cell.
    fn undo_pot(&mut self, pair: &IndexValuePair<BitSet<V>>)
        requires
            pair.index.inner_index < old(self).grid.items.len(),
            old(self).grid.items[pair.index.inner_index as int].wf(),
        ensures
            final(self).grid.items@ == old(self).grid.items@.update(pair.index.inner_index as int, final(self).grid.items[pair.index.inner_index as int]),
            final(self).grid.items[pair.index.inner_index as int].wf(),
            same_but_poss(old(self).grid.items[pair.index.inner_index as int], final(self).grid.items[pair.index.inner_index as int]),
            final(self).grid.items[pair.index.inner_index as int].flags.poss@
                == old(self).grid.items[pair.index.inner_index as int].flags.poss@.union(pair.value@),
            final(self).grid.size == old(self).grid.size,
            final(self).rows == old(self).rows,
            final(self).cols == old(self).cols,
            final(self).boxes == old(self).boxes,
            final(self).unsolved == old(self).unsolved,
            final(self).moves == old(self).moves,
            final(self).solution == old(self).solution,
            final(self).human_solver == old(self).human_solver,
            final(self).saved == old(self).saved,
    {
        let index = pair.index().to_usize();
        let mut sq = self.grid.items[index];
        sq.insert_set(*pair.value());
        self.grid.items.set(index, sq);
    }

    /// Takes back the last move: a value it set is emptied again and the values it took out
    /// are put back, so that the cells and the count of empty cells are again those before
    /// the move.  Returns the move, or `None` when no move was made.
    pub fn undo(&mut self) -> (r: Option<Move<V>>)
        requires
            old(self).wf(),
        ensures
            final(self).wf(),
            old(self).moves.len() == 0 ==> r is None && *final(self) == *old(self),
            old(self).moves.len() > 0 ==> (r matches Some(m) && undone(*old(self), *final(self), m)),
    {
        let ghost old_self = *self;
        let ghost size = self.grid.size;
        let ghost n = self.moves.len();
        if self.moves.len() == 0 {
            return None;
        }
        let popped = self.moves.pop();
        match popped {
            Some(last_move) => {
                proof {
                    assert(old_self.moves@.len() > 0);
                }
                let ghost after = self.grid.items@;
                let ghost before = self.saved@[n - 1].0;
                proof {
                    assert(old_self.saved@[n - 1] == old_self.saved@[n - 1]);
                    assert(old_self.after_move(n - 1) == after);
                    assert(old_self.moves@[n - 1] == last_move);
                    assert(undoes_to(after, last_move, before, size));
                    assert(cells_ok(before, size));
                    size.lemma_sizes();
                }
                match last_move.value_set {
                    Some(pair) => {
                        proof {
                            let t = pair.index.inner_index as int;
                            assert(cell_ok(after[t], t, size));
                            assert(restores(after[t], last_move, t, before[t]));
                            assert(sets_cell(last_move, t));
                            assert(before[t].value is None);
                            assert(after[t].value is Some);
                            assert(self.unsolved == empty_count(after));
                            let e = after.update(t, before[t]);
                            lemma_empty_count_update(after, t, before[t]);
                            lemma_empty_count_bound(e);
                        }
                        self.undo_set(&pair);
                    },
                    None => {},
                }
                let ghost mid = self.grid.items@;
                let ghost rows_mid = self.rows;
                let ghost cols_mid = self.cols;
                let ghost boxes_mid = self.boxes;
                let ghost unsolved_mid = self.unsolved;
                proof {
                    assert forall|j: int| 0 <= j < mid.len() implies (#[trigger] mid[j]).wf() by {
                        assert(cell_ok(after[j], j, size));
                        match last_move.value_set {
                            Some(p) => {
                                if j != p.index.inner_index {
                                    assert(mid[j] == after[j]);
                                }
                            },
                            None => {},
                        }
                    }
                }
                let pots = &last_move.removed_potentials;
                for k in 0..pots.len()
                    invariant
                        pots@ == last_move.removed_potentials@,
                        undoes_to(after, last_move, before, size),
                        self.grid.items.len() == mid.len(),
                        mid.len() == after.len(),
                        forall|j: int| 0 <= j < mid.len() ==> (#[trigger] mid[j]).wf(),
                        forall|j: int| 0 <= j < mid.len() ==> (#[trigger] self.grid.items[j]).wf(),
                        forall|j: int| 0 <= j < mid.len() ==> #[trigger] same_but_poss(mid[j], self.grid.items[j]),
                        forall|j: int| 0 <= j < mid.len() ==> (#[trigger] self.grid.items[j]).flags.poss@
                            == mid[j].flags.poss@.union(pots_for(pots@.subrange(0, k as int), j)),
                        self.grid.size == size,
                        self.rows.len() == size.spec_house(),
                        self.cols.len() == size.spec_house(),
                        self.boxes.len() == size.spec_house(),
                        self.rows == rows_mid,
                        self.cols == cols_mid,
                        self.boxes == boxes_mid,
                        self.unsolved == unsolved_mid,
                        unsolved_mid == old_self.unsolved + if last_move.value_set is Some { 1int } else { 0int },
                        self.moves@ == old_self.moves@.drop_last(),
                        self.solution == old_self.solution,
                        self.human_solver == old_self.human_solver,
                        self.saved == old_self.saved,
                {
                    let ghost cur = self.grid.items@;
                    proof {
                        assert(pots@[k as int].index.inner_index < after.len());
                    }
                    self.undo_pot(&pots[k]);
                    proof {
                        assert(pots@.subrange(0, k + 1) =~= pots@.subrange(0, k as int).push(pots@[k as int]));
                        assert forall|j: int| 0 <= j < mid.len() implies (#[trigger] self.grid.items[j]).wf()
                            && same_but_poss(mid[j], self.grid.items[j])
                            && self.grid.items[j].flags.poss@ == mid[j].flags.poss@.union(pots_for(pots@.subrange(0, k + 1), j)) by {
                            lemma_pots_push(pots@.subrange(0, k as int), pots@[k as int], j);
                            assert(same_but_poss(mid[j], cur[j]));
                            if j == pots@[k as int].index.inner_index {
                                assert(self.grid.items[j].flags.poss@ =~= mid[j].flags.poss@.union(pots_for(pots@.subrange(0, k + 1), j)));
                            } else {
                                assert(self.grid.items[j] == cur[j]);
                                assert(self.grid.items[j].flags.poss@ =~= mid[j].flags.poss@.union(pots_for(pots@.subrange(0, k + 1), j)));
                            }
                        }
                    }
                }
                proof {
                    self.saved@ = self.saved@.drop_last();
                }
                proof {
                    let now = self.grid.items@;
                    assert(pots@.subrange(0, pots@.len() as int) =~= pots@);
                    assert forall|j: int| 0 <= j < now.len() implies #[trigger] now[j] == before[j] by {
                        assert(restores(after[j], last_move, j, before[j]));
                        assert(cell_ok(after[j], j, size));
                        assert(cell_ok(before[j], j, size));
                        assert(same_but_poss(mid[j], now[j]));
                        if sets_cell(last_move, j) {
                            V::lemma_nat_inj(now[j].flags.current.0, before[j].flags.current.0);
                        } else {
                            assert(mid[j] == after[j]);
                        }
                        assert(now[j].flags.poss@ =~= before[j].flags.poss@);
                        lemma_same_square(now[j], before[j]);
                    }
                    assert(now =~= before);
                    assert forall|j: int| 0 <= j < after.len() && j != (match last_move.value_set { Some(p) => p.index.inner_index as int, None => -1 })
                        implies #[trigger] after[j].value == before[j].value by {
                        assert(restores(after[j], last_move, j, before[j]));
                    }
                    match last_move.value_set {
                        Some(p) => {
                            let t = p.index.inner_index as int;
                            let e = after.update(t, before[t]);
                            assert forall|j: int| 0 <= j < e.len() implies (#[trigger] e[j].value is None) == (before[j].value is None) by {
                                assert(restores(after[j], last_move, j, before[j]));
                            }
                            lemma_empty_count_same(e, before);
                            lemma_empty_count_update(after, t, before[t]);
                            assert(restores(after[t], last_move, t, before[t]));
                        },
                        None => {
                            assert forall|j: int| 0 <= j < after.len() implies (#[trigger] after[j].value is None) == (before[j].value is None) by {
                                assert(restores(after[j], last_move, j, before[j]));
                            }
                            lemma_empty_count_same(after, before);
                        },
                    }
                    assert forall|k: int| 0 <= k < self.saved@.len() implies {
                        &&& cells_ok((#[trigger] self.saved@[k]).0, size)
                        &&& self.saved@[k].1 == empty_count(self.saved@[k].0)
                        &&& solution_solves(self.solution, self.saved@[k].0, size)
                        &&& undoes_to(self.after_move(k), self.moves@[k], self.saved@[k].0, size)
                    } by {
                        assert(self.saved@[k] == old_self.saved@[k]);
                        assert(self.moves@[k] == old_self.moves@[k]);
                        assert(old_self.saved@[k + 1] == old_self.saved@[k + 1]);
                        assert(self.after_move(k) == old_self.after_move(k));
                    }
                    assert(old_self.saved@[n - 1] == old_self.saved@.last());
                }
                Some(last_move)
            },
            None => None,
        }
    }
}

} // verus!
