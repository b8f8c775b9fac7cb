//! Puzzles that can still take their unique solution, and hints that keep it.
use vstd::prelude::*;
use crate::bitset::traits::BitSetInt;
use crate::brute::{solves, solution_solves};
use crate::grid::grid::{Grid, house_cells};
use crate::grid::house::House;
use crate::grid::types::{cell_row, cell_col, cell_box, row_of, col_of, box_of};
use crate::move_change::{Move, IndexValuePair};
use crate::bitset::bitset::{BitSet, first_values};
use crate::sudoku::access::unique_grid;
use crate::sudoku::state::{peers, no_clash, cell_ok, pots_for};
use crate::sudoku::sudoku::Sudoku;

verus! {

/// The value the grid puts in cell `i`.
pub open spec fn gval<V: BitSetInt>(g: Grid<V>, i: int) -> nat {
    g.items[i].spec_nat()
}

/// The puzzle has a unique solution, each filled cell holds the solution's value, and each
/// empty cell can still hold it.
pub open spec fn keeps_solution<V: BitSetInt>(puz: Sudoku<V>) -> bool {
    &&& unique_grid(puz.solution) is Some
    &&& forall|i: int| 0 <= i < puz.cells().len() ==> {
        &&& ((#[trigger] puz.cells()[i]).value matches Some(b) ==> b@ == gval(unique_grid(puz.solution)->Some_0, i))
        &&& (puz.cells()[i].value is None ==> puz.cells()[i].flags.poss@.contains(gval(unique_grid(puz.solution)->Some_0, i)))
    }
}

/// Every cell is filled with the value that `g` puts there.
pub open spec fn filled_as<V: BitSetInt>(cells: Seq<crate::square::square::Square<V>>, g: Grid<V>) -> bool {
    forall|i: int| 0 <= i < cells.len() ==> ((#[trigger] cells[i]).value matches Some(b) && b@ == gval(g, i))
}

/// The move agrees with the unique solution of the puzzle: a value it sets is the solution's
/// value there, and no value it takes out of a cell is the solution's value there.
pub open spec fn sol_sound<V: BitSetInt>(puz: Sudoku<V>, m: Move<V>) -> bool {
    let g = unique_grid(puz.solution)->Some_0;
    &&& (m.value_set matches Some(p) ==> p.value.spec_nat() == gval(g, p.index.inner_index as int))
    &&& forall|k: int, x: nat| #![trigger m.removed_potentials@[k].value@.contains(x)]
        0 <= k < m.removed_potentials@.len() && m.removed_potentials@[k].value@.contains(x)
        ==> x != gval(g, m.removed_potentials@[k].index.inner_index as int)
}

/// The unique solution of a well-formed puzzle solves it.
pub proof fn lemma_unique_solves<V: BitSetInt>(puz: Sudoku<V>)
    requires
        puz.wf(),
        unique_grid(puz.solution) is Some,
    ensures
        solves(unique_grid(puz.solution)->Some_0, puz.cells(), puz.grid.size),
{
}

/// A house of the puzzle.
pub open spec fn house_ok(size: crate::sudokusize::SudokuSize, h: House<nat>) -> bool {
    match h {
        House::Row(n) => n < size.spec_house(),
        House::Col(n) => n < size.spec_house(),
        House::Box(n) => n < size.spec_house(),
    }
}

/// Two places of a house hold two different cells of the grid that share the house.
pub proof fn lemma_house_peers(size: crate::sudokusize::SudokuSize, h: House<nat>, a: int, b: int)
    requires
        house_ok(size, h),
        0 <= a < size.spec_house(),
        0 <= b < size.spec_house(),
    ensures
        house_cells(size, h)[a] < size.spec_total(),
        a != b ==> house_cells(size, h)[a] != house_cells(size, h)[b],
        peers(size, house_cells(size, h)[a], house_cells(size, h)[b]),
{
    match h {
        House::Row(n) => {
            crate::grid::gridcoord::lemma_rc(size, n, a as nat);
            crate::grid::gridcoord::lemma_rc(size, n, b as nat);
        },
        House::Col(n) => {
            crate::grid::gridcoord::lemma_rc(size, a as nat, n);
            crate::grid::gridcoord::lemma_rc(size, b as nat, n);
            assert(cell_col(size, n, a as nat) == cell_row(size, a as nat, n));
            assert(cell_col(size, n, b as nat) == cell_row(size, b as nat, n));
        },
        House::Box(n) => {
            crate::grid::gridcoord::lemma_box_cell(size, n, a as nat);
            crate::grid::gridcoord::lemma_box_cell(size, n, b as nat);
        },
    }
    if a != b {
        crate::human_calcs::basic::pointing::lemma_cells_distinct(size, h, a, b);
    }
}

/// A map that is one to one from a finite set into a set of the same size reaches all of it.
pub proof fn lemma_onto<A, B>(a: Set<A>, b: Set<B>, f: spec_fn(A) -> B)
    requires
        a.finite(),
        b.finite(),
        a.len() == b.len(),
        forall|x: A| #[trigger] a.contains(x) ==> b.contains(f(x)),
        vstd::relations::injective_on(f, a),
    ensures
        forall|y: B| #[trigger] b.contains(y) ==> exists|x: A| a.contains(x) && f(x) == y,
{
    let im = a.map(f);
    vstd::set_lib::lemma_map_size(a, im, f);
    assert(im.subset_of(b));
    vstd::set_lib::lemma_subset_equality(im, b);
    assert forall|y: B| #[trigger] b.contains(y) implies exists|x: A| a.contains(x) && f(x) == y by {
        assert(im.contains(y));
    }
}

/// A solution puts each value of `1..=house` somewhere in each house.
pub proof fn lemma_value_in_house<V: BitSetInt>(g: Grid<V>, cells: Seq<crate::square::square::Square<V>>,
    size: crate::sudokusize::SudokuSize, h: House<nat>, v: nat) -> (q: int)
    requires
        solves(g, cells, size),
        house_ok(size, h),
        1 <= v <= size.spec_house(),
    ensures
        0 <= q < size.spec_house(),
        gval(g, house_cells(size, h)[q] as int) == v,
{
    let n = size.spec_house();
    let cs = house_cells(size, h);
    let a = vstd::set_lib::set_int_range(0, n as int);
    let b = vstd::set_lib::set_int_range(1, n as int + 1);
    vstd::set_lib::lemma_int_range(0, n as int);
    vstd::set_lib::lemma_int_range(1, n as int + 1);
    let f = |q: int| gval(g, cs[q] as int) as int;
    assert forall|q: int| #[trigger] a.contains(q) implies b.contains(f(q)) by {
        lemma_house_peers(size, h, q, q);
    }
    assert(vstd::relations::injective_on(f, a)) by {
        assert forall|q1: int, q2: int| a.contains(q1) && a.contains(q2) && #[trigger] f(q1) == #[trigger] f(q2) implies q1 == q2 by {
            lemma_house_peers(size, h, q1, q2);
            lemma_house_peers(size, h, q2, q1);
            if q1 != q2 {
                let i = cs[q1] as int;
                let j = cs[q2] as int;
                assert(0 <= i < g.items.len() && 0 <= j < g.items.len() && i != j && peers(size, i as nat, j as nat));
                assert(g.items[i].spec_nat() != g.items[j].spec_nat());
                assert(gval(g, cs[q1] as int) != gval(g, cs[q2] as int));
            }
        }
    }
    lemma_onto(a, b, f);
    assert(b.contains(v as int));
    let q = choose|q: int| a.contains(q) && f(q) == v as int;
    q
}

/// A value that the records take out of cell `j` is the value of a record of `j`.
pub proof fn lemma_pots_for_from<V: BitSetInt>(pairs: Seq<IndexValuePair<BitSet<V>>>, j: int, x: nat)
    requires
        pots_for(pairs, j).contains(x),
    ensures
        exists|k: int| 0 <= k < pairs.len() && pairs[k].index.inner_index == j && (#[trigger] pairs[k]).value@.contains(x),
    decreases pairs.len(),
{
    if pairs.len() > 0 {
        if pots_for(pairs.drop_last(), j).contains(x) {
            lemma_pots_for_from(pairs.drop_last(), j, x);
            let k = choose|k: int| 0 <= k < pairs.drop_last().len() && pairs.drop_last()[k].index.inner_index == j
                && (#[trigger] pairs.drop_last()[k]).value@.contains(x);
            assert(pairs[k] == pairs.drop_last()[k]);
        } else {
            assert(pairs[pairs.len() - 1] == pairs.last());
        }
    }
}

/// In a well-formed puzzle no cell can hold a value that another cell sharing a house holds.
pub proof fn lemma_placed_blocks<V: BitSetInt>(puz: Sudoku<V>, d: int, e: int)
    requires
        puz.wf(),
        0 <= d < puz.cells().len(),
        0 <= e < puz.cells().len(),
        d != e,
        peers(puz.grid.size, e as nat, d as nat),
        puz.cells()[d].value is Some,
    ensures
        !puz.cells()[e].flags.poss@.contains(puz.cells()[d].value->Some_0@),
        puz.cells()[e].value != puz.cells()[d].value,
{
    reveal(no_clash);
    assert(puz.cells()[e].value != puz.cells()[d].value && !puz.cells()[e].flags.poss@.contains(puz.cells()[d].value->Some_0@));
}

/// Making a hint that agrees with the unique solution keeps a puzzle that can take the
/// solution able to take it.
pub proof fn lemma_step_keeps<V: BitSetInt>(before: Sudoku<V>, after: Sudoku<V>, h: Move<V>, m: Move<V>)
    requires
        before.wf(),
        keeps_solution(before),
        sol_sound(before, h),
        crate::human_calcs::humansolve::solver::hint_step(before, after, h, m),
    ensures
        keeps_solution(after),
        unique_grid(after.solution) == unique_grid(before.solution),
{
    let g = unique_grid(before.solution)->Some_0;
    let size = before.grid.size;
    lemma_unique_solves(before);
    match h.value_set {
        Some(p) => {
            let t = p.index.inner_index as int;
            let v = p.value.spec_nat();
            assert forall|i: int| 0 <= i < after.cells().len() implies {
                &&& ((#[trigger] after.cells()[i]).value matches Some(b) ==> b@ == gval(unique_grid(after.solution)->Some_0, i))
                &&& (after.cells()[i].value is None ==> after.cells()[i].flags.poss@.contains(gval(unique_grid(after.solution)->Some_0, i)))
            } by {
                assert(before.cells()[i] == before.cells()[i]);
                if i != t && after.cells()[i].value is None {
                    assert(before.cells()[i].value is None);
                    if peers(size, t as nat, i as nat) {
                        assert(g.items[t].spec_nat() != g.items[i].spec_nat());
                    }
                }
            }
        },
        None => {
            assert forall|i: int| 0 <= i < after.cells().len() implies {
                &&& ((#[trigger] after.cells()[i]).value matches Some(b) ==> b@ == gval(unique_grid(after.solution)->Some_0, i))
                &&& (after.cells()[i].value is None ==> after.cells()[i].flags.poss@.contains(gval(unique_grid(after.solution)->Some_0, i)))
            } by {
                assert(crate::sudoku::state::same_but_poss(before.cells()[i], after.cells()[i]));
                if after.cells()[i].value is None {
                    if pots_for(h.removed_potentials@, i).contains(gval(g, i)) {
                        lemma_pots_for_from(h.removed_potentials@, i, gval(g, i));
                        let k = choose|k: int| 0 <= k < h.removed_potentials@.len() && h.removed_potentials@[k].index.inner_index == i
                            && (#[trigger] h.removed_potentials@[k]).value@.contains(gval(g, i));
                        assert(h.removed_potentials@[k].value@.contains(gval(g, i)));
                    }
                }
            }
        },
    }
}

/// A cell where the solution's value is no longer possible is filled with that value.
pub proof fn lemma_sol_cell<V: BitSetInt>(puz: Sudoku<V>, i: int)
    requires
        keeps_solution(puz),
        0 <= i < puz.cells().len(),
        !puz.cells()[i].flags.poss@.contains(gval(unique_grid(puz.solution)->Some_0, i)),
    ensures
        puz.cells()[i].value is Some,
        puz.cells()[i].value->Some_0@ == gval(unique_grid(puz.solution)->Some_0, i),
{
    assert(puz.cells()[i] == puz.cells()[i]);
}

/// Where value `v` is possible in one place of a house only, the solution puts `v` there.
pub proof fn lemma_only_place_sol<V: BitSetInt>(puz: Sudoku<V>, h: House<nat>, k: int, v: nat)
    requires
        puz.wf(),
        keeps_solution(puz),
        house_ok(puz.grid.size, h),
        0 <= k < puz.grid.size.spec_house(),
        puz.cells()[house_cells(puz.grid.size, h)[k] as int].flags.poss@.contains(v),
        forall|k2: int| 0 <= k2 < puz.grid.size.spec_house() && k2 != k
            ==> !puz.cells()[(#[trigger] house_cells(puz.grid.size, h)[k2]) as int].flags.poss@.contains(v),
    ensures
        gval(unique_grid(puz.solution)->Some_0, house_cells(puz.grid.size, h)[k] as int) == v,
{
    let g = unique_grid(puz.solution)->Some_0;
    let size = puz.grid.size;
    let cs = house_cells(size, h);
    let t = cs[k] as int;
    lemma_house_peers(size, h, k, k);
    assert(crate::sudoku::state::cell_ok(puz.cells()[t], t, size));
    assert(first_values(size.spec_house()).contains(v));
    lemma_unique_solves(puz);
    let q = lemma_value_in_house(g, puz.cells(), size, h, v);
    if q != k {
        lemma_house_peers(size, h, q, k);
        let d = cs[q] as int;
        assert(!puz.cells()[cs[q] as int].flags.poss@.contains(v));
        lemma_sol_cell(puz, d);
        lemma_placed_blocks(puz, d, t);
    }
}

/// Two cells that share a house get two different values from the solution.
pub proof fn lemma_sol_differs<V: BitSetInt>(puz: Sudoku<V>, i: int, j: int)
    requires
        puz.wf(),
        keeps_solution(puz),
        0 <= i < puz.cells().len(),
        0 <= j < puz.cells().len(),
        i != j,
        peers(puz.grid.size, i as nat, j as nat),
    ensures
        gval(unique_grid(puz.solution)->Some_0, i) != gval(unique_grid(puz.solution)->Some_0, j),
{
    let g = unique_grid(puz.solution)->Some_0;
    lemma_unique_solves(puz);
    assert(g.items[i].spec_nat() != g.items[j].spec_nat());
}

/// Where value `x` is possible in some cell of a house, the solution puts `x` in a cell of the
/// house where it is still possible.
pub proof fn lemma_sol_possible<V: BitSetInt>(puz: Sudoku<V>, h: House<nat>, k0: int, x: nat) -> (q: int)
    requires
        puz.wf(),
        keeps_solution(puz),
        house_ok(puz.grid.size, h),
        0 <= k0 < puz.grid.size.spec_house(),
        puz.cells()[house_cells(puz.grid.size, h)[k0] as int].flags.poss@.contains(x),
    ensures
        0 <= q < puz.grid.size.spec_house(),
        gval(unique_grid(puz.solution)->Some_0, house_cells(puz.grid.size, h)[q] as int) == x,
        puz.cells()[house_cells(puz.grid.size, h)[q] as int].flags.poss@.contains(x),
{
    let g = unique_grid(puz.solution)->Some_0;
    let size = puz.grid.size;
    let cs = house_cells(size, h);
    let e = cs[k0] as int;
    lemma_house_peers(size, h, k0, k0);
    assert(crate::sudoku::state::cell_ok(puz.cells()[e], e, size));
    assert(first_values(size.spec_house()).contains(x));
    lemma_unique_solves(puz);
    let q = lemma_value_in_house(g, puz.cells(), size, h, x);
    lemma_house_peers(size, h, k0, q);
    lemma_house_peers(size, h, q, k0);
    let d = cs[q] as int;
    if !puz.cells()[d].flags.poss@.contains(x) {
        lemma_sol_cell(puz, d);
        assert(crate::sudoku::state::cell_ok(puz.cells()[d], d, size));
        assert(d != e);
        lemma_placed_blocks(puz, d, e);
    }
    q
}

/// A puzzle with the cells and the solution of one that can take its unique solution can take
/// it too, and its unique solution has the same values.
pub proof fn lemma_keeps_copy<V: BitSetInt>(a: Sudoku<V>, b: Sudoku<V>)
    requires
        keeps_solution(a),
        b.cells() == a.cells(),
        crate::solution::same_solution(b.solution, a.solution),
    ensures
        keeps_solution(b),
        crate::brute::same_entries(unique_grid(b.solution)->Some_0, unique_grid(a.solution)->Some_0),
{
    let ga = unique_grid(a.solution)->Some_0;
    let gb = unique_grid(b.solution)->Some_0;
    assert(gb.items@ == ga.items@);
    assert forall|i: int| 0 <= i < b.cells().len() implies {
        &&& ((#[trigger] b.cells()[i]).value matches Some(x) ==> x@ == gval(gb, i))
        &&& (b.cells()[i].value is None ==> b.cells()[i].flags.poss@.contains(gval(gb, i)))
    } by {
        assert(a.cells()[i] == b.cells()[i]);
        assert(gb.items[i] == ga.items[i]);
    }
    assert forall|i: int| 0 <= i < gb.items.len() implies #[trigger] gb.items[i].spec_nat() == ga.items[i].spec_nat() by {
        assert(gb.items[i] == ga.items[i]);
    }
}

/// Some cell of cells with a positive count of empty cells is empty.
pub proof fn lemma_empty_cell<V: BitSetInt>(a: Seq<crate::square::square::Square<V>>) -> (j: int)
    requires
        crate::sudoku::state::empty_count(a) > 0,
    ensures
        0 <= j < a.len(),
        a[j].value is None,
    decreases a.len(),
{
    if a.last().value is None {
        a.len() - 1
    } else {
        let j = lemma_empty_cell(a.drop_last());
        assert(a.drop_last()[j] == a[j]);
        j
    }
}

/// Where the row, column or box of cell `i` holds value `x`, some cell that shares a house
/// with `i` is filled with `x`.
proof fn lemma_around_peer<V: BitSetInt>(cells: Seq<crate::square::square::Square<V>>, size: crate::sudokusize::SudokuSize,
    i: nat, x: nat) -> (j: nat)
    requires
        i < size.spec_total(),
        crate::sudoku::state::values_around(cells, size, i).contains(x),
    ensures
        j < size.spec_total(),
        peers(size, i, j),
        cells[j as int].value matches Some(b) && b@ == x,
{
    crate::grid::gridcoord::lemma_flat(size, i);
    crate::sudoku::state::lemma_box_place(size, i);
    let r = row_of(size, i);
    let c = col_of(size, i);
    let bx = box_of(size, i);
    if crate::sudoku::state::values_at(cells, house_cells(size, House::Row(r))).contains(x) {
        let q = crate::brute::lemma_values_at_member(cells, house_cells(size, House::Row(r)), x);
        crate::grid::gridcoord::lemma_rc(size, r, q as nat);
        house_cells(size, House::Row(r))[q]
    } else if crate::sudoku::state::values_at(cells, house_cells(size, House::Col(c))).contains(x) {
        let q = crate::brute::lemma_values_at_member(cells, house_cells(size, House::Col(c)), x);
        crate::grid::gridcoord::lemma_rc(size, q as nat, c);
        assert(cell_col(size, c, q as nat) == cell_row(size, q as nat, c));
        house_cells(size, House::Col(c))[q]
    } else {
        let q = crate::brute::lemma_values_at_member(cells, house_cells(size, House::Box(bx)), x);
        crate::grid::gridcoord::lemma_box_cell(size, bx, q as nat);
        house_cells(size, House::Box(bx))[q]
    }
}

/// A puzzle built from its givens, each empty cell allowed the values that its row, column
/// and box do not hold, can take its unique solution.
pub proof fn lemma_fresh_keeps<V: BitSetInt>(puz: Sudoku<V>, vals: Seq<nat>)
    requires
        puz.wf(),
        unique_grid(puz.solution) is Some,
        forall|i: int| 0 <= i < puz.grid.items.len() ==> crate::sudoku::sudoku::given_or_open(#[trigger] puz.grid.items[i],
            vals[i], puz.cells(), puz.grid.size, i as nat),
    ensures
        keeps_solution(puz),
{
    let g = unique_grid(puz.solution)->Some_0;
    let size = puz.grid.size;
    let cells = puz.cells();
    lemma_unique_solves(puz);
    assert forall|i: int| 0 <= i < cells.len() implies {
        &&& ((#[trigger] cells[i]).value matches Some(b) ==> b@ == gval(g, i))
        &&& (cells[i].value is None ==> cells[i].flags.poss@.contains(gval(g, i)))
    } by {
        assert(crate::sudoku::sudoku::given_or_open(puz.grid.items[i], vals[i], cells, size, i as nat));
        if cells[i].value is None {
            let x = gval(g, i);
            assert(first_values(size.spec_house()).contains(x));
            if crate::sudoku::state::values_around(cells, size, i as nat).contains(x) {
                let j = lemma_around_peer(cells, size, i as nat, x);
                assert(crate::sudoku::sudoku::given_or_open(puz.grid.items[j as int], vals[j as int], cells, size, j));
                assert(cells[j as int].fixed);
                assert(g.items[j as int].spec_nat() == x);
                assert(g.items[i].spec_nat() != g.items[j as int].spec_nat());
            }
        }
    }
}

} // verus!
