use vstd::prelude::*;
use crate::solution::{same_solution, same_grid};
use crate::bitset::traits::BitSetInt;
use crate::bitset::bit::Bit;
use crate::bitset::bitset::first_values;
use crate::bitset::bitsetiter::{lemma_asc_from_contains, lemma_asc_from_increasing};
use crate::errors::SudError;
use crate::grid::grid::{Grid, count_value, single_cells, house_cells};
use crate::grid::gridcoord::lemma_flat;
use crate::grid::house::House;
use crate::grid::types::{cell_row, cell_col, row_of, col_of, box_of, box_offset};
use crate::solution::Solution;
use crate::square::square::Square;
use crate::sudoku::state::{no_clash, cell_ok, lemma_values_around_has, values_at, values_around, peers, givens_same, lemma_same_square, lemma_box_place, lemma_row_member, lemma_col_member, lemma_box_member};
use crate::sudokusize::SudokuSize;

verus! {

/// More solutions than this make the search give up.
pub const MAX_SOLUTIONS: usize = 5;

/// Two cells that share a house never hold the same value.
pub open spec fn consistent<V: BitSetInt>(cells: Seq<Square<V>>, size: SudokuSize) -> bool {
    forall|i: int, j: int|
        0 <= i < cells.len() && 0 <= j < cells.len() && i != j && peers(size, i as nat, j as nat)
            && #[trigger] cells[i].value is Some && #[trigger] cells[j].value is Some
            ==> cells[i].value != cells[j].value
}

/// `g` fills every cell with a value of `1..=house`, keeps the given values of `cells`, and
/// no house of it holds a value twice.
pub open spec fn solves<V: BitSetInt>(g: Grid<V>, cells: Seq<Square<V>>, size: SudokuSize) -> bool {
    &&& g.size == size
    &&& g.items.len() == size.spec_total()
    &&& cells.len() == size.spec_total()
    &&& forall|i: int| 0 <= i < g.items.len() ==> 1 <= #[trigger] g.items[i].spec_nat() <= size.spec_house()
    &&& forall|i: int| 0 <= i < g.items.len() && (#[trigger] cells[i]).fixed ==> (cells[i].value matches Some(b)
        && g.items[i].spec_nat() == b@)
    &&& forall|i: int, j: int|
        0 <= i < g.items.len() && 0 <= j < g.items.len() && i != j && peers(size, i as nat, j as nat)
            ==> #[trigger] g.items[i].spec_nat() != #[trigger] g.items[j].spec_nat()
}

/// No two of the grids from place `from` on hold the same values.
pub open spec fn distinct_from<V: BitSetInt>(s: Seq<Grid<V>>, from: int) -> bool {
    forall|i: int, j: int| from <= i < j < s.len() ==> !same_entries(#[trigger] s[i], #[trigger] s[j])
}

/// At least `n` different grids solve `cells`.
pub open spec fn has_solutions<V: BitSetInt>(cells: Seq<Square<V>>, size: SudokuSize, n: nat) -> bool {
    exists|s: Seq<Grid<V>>| s.len() == n && distinct_from(s, 0)
        && forall|k: int| 0 <= k < s.len() ==> solves(#[trigger] s[k], cells, size)
}

/// Every grid a solution lists solves `cells`; several means two to five different ones.
pub open spec fn solution_solves<V: BitSetInt>(s: Solution<V>, cells: Seq<Square<V>>, size: SudokuSize) -> bool {
    match s {
        Solution::One(g) => solves(g, cells, size),
        Solution::HumanSolved(g, _) => solves(g, cells, size),
        Solution::Multi(v) => 2 <= v.len() <= MAX_SOLUTIONS && distinct_from(v@, 0)
            && forall|k: int| 0 <= k < v.len() ==> solves(#[trigger] v[k], cells, size),
        _ => true,
    }
}

/// The cells a search starts from: givens hold values of `1..=house` that do not clash, the
/// other cells are empty with their possible values as original, and no cursor has moved.
pub open spec fn start_ok<V: BitSetInt>(cells: Seq<Square<V>>, size: SudokuSize) -> bool {
    &&& cells.len() == size.spec_total()
    &&& consistent(cells, size)
    &&& forall|i: int| 0 <= i < cells.len() ==> start_cell(#[trigger] cells[i], size)
    &&& open_ok(cells, size)
    &&& size.spec_house() <= V::width()
}

/// One cell as a search starts from it.
pub open spec fn start_cell<V: BitSetInt>(sq: Square<V>, size: SudokuSize) -> bool {
    &&& sq.wf()
    &&& sq.flags.current.0.spec_nat() == 0
    &&& sq.flags.poss@.subset_of(first_values(size.spec_house()))
    &&& sq.fixed == sq.value is Some
    &&& sq.value matches Some(b) ==> 1 <= b@ <= size.spec_house()
    &&& !sq.fixed ==> sq.flags.original == Some(sq.flags.poss)
}

/// What trying the next value does to a cell.
pub open spec fn stepped<V: BitSetInt>(a: Square<V>, b: Square<V>, r: bool) -> bool {
    &&& b.wf()
    &&& b.fixed == a.fixed
    &&& b.index == a.index
    &&& b.flags.poss == a.flags.poss
    &&& b.flags.original == a.flags.original
    &&& a.fixed ==> !r && b == a
    &&& !a.fixed && a.flags.upcoming().len() > 0 ==> r && b.value == Some(b.flags.current)
        && b.flags.current@ == a.flags.upcoming()[0]
    &&& !a.fixed && a.flags.upcoming().len() == 0 ==> !r && b.value == a.value
        && b.flags.current.0.spec_nat() == 0
}

/// What emptying a cell does to it.
pub open spec fn emptied<V: BitSetInt>(a: Square<V>, b: Square<V>) -> bool {
    &&& b.wf()
    &&& a.fixed ==> b == a
    &&& !a.fixed ==> b.value is None && b.flags.poss == a.flags.original->Some_0
        && b.flags.current.0.spec_nat() == 0
    &&& b.flags.original == a.flags.original
    &&& b.fixed == a.fixed
    &&& b.index == a.index
}

/// The state of a search at `pos`: the cells before it are filled without clashes, the cells
/// from it on are as at the start, and the givens never change.
pub open spec fn search_state<V: BitSetInt>(cells: Seq<Square<V>>, init: Seq<Square<V>>, pos: nat, size: SudokuSize) -> bool {
    &&& cells.len() == init.len()
    &&& start_ok(init, size)
    &&& pos <= cells.len()
    &&& consistent(cells, size)
    &&& forall|i: int| 0 <= i < cells.len() ==> (#[trigger] cells[i]).wf()
    &&& forall|i: int| 0 <= i < cells.len() && (i >= pos || init[i].fixed) ==> #[trigger] cells[i] == init[i]
    &&& forall|i: int| 0 <= i < pos ==> ((#[trigger] cells[i]).value matches Some(b) && 1 <= b@ <= size.spec_house())
    &&& pos < cells.len() ==> !init[pos as int].fixed
}

/// The count over two lists of cells is the sum of their counts.
proof fn lemma_count_concat<V: BitSetInt>(items: Seq<Square<V>>, a: Seq<nat>, b: Seq<nat>, v: Option<Bit<V>>)
    ensures
        count_value(items, a + b, v) == count_value(items, a, v) + count_value(items, b, v),
    decreases b.len(),
{
    if b.len() == 0 {
        assert(a + b =~= a);
    } else {
        assert((a + b).drop_last() =~= a + b.drop_last());
        lemma_count_concat(items, a, b.drop_last(), v);
    }
}

/// A place holding the value counts once.
proof fn lemma_count_one<V: BitSetInt>(items: Seq<Square<V>>, idxs: Seq<nat>, v: Option<Bit<V>>, k: int)
    requires
        0 <= k < idxs.len(),
        items[idxs[k] as int].value == v,
    ensures
        count_value(items, idxs, v) >= 1,
    decreases idxs.len(),
{
    if k < idxs.len() - 1 {
        assert(idxs.drop_last()[k] == idxs[k]);
        lemma_count_one(items, idxs.drop_last(), v, k);
    }
}

/// Two places holding the value count twice.
proof fn lemma_count_two<V: BitSetInt>(items: Seq<Square<V>>, idxs: Seq<nat>, v: Option<Bit<V>>, k1: int, k2: int)
    requires
        0 <= k1 < k2 < idxs.len(),
        items[idxs[k1] as int].value == v,
        items[idxs[k2] as int].value == v,
    ensures
        count_value(items, idxs, v) >= 2,
    decreases idxs.len(),
{
    assert(idxs.drop_last()[k1] == idxs[k1]);
    if k2 == idxs.len() - 1 {
        lemma_count_one(items, idxs.drop_last(), v, k1);
    } else {
        assert(idxs.drop_last()[k2] == idxs[k2]);
        lemma_count_two(items, idxs.drop_last(), v, k1, k2);
    }
}

/// Two places of a list, in either order, holding the value count twice.
proof fn lemma_count_pair<V: BitSetInt>(items: Seq<Square<V>>, idxs: Seq<nat>, v: Option<Bit<V>>, k1: int, k2: int)
    requires
        0 <= k1 < idxs.len(),
        0 <= k2 < idxs.len(),
        k1 != k2,
        items[idxs[k1] as int].value == v,
        items[idxs[k2] as int].value == v,
    ensures
        count_value(items, idxs, v) >= 2,
{
    if k1 < k2 {
        lemma_count_two(items, idxs, v, k1, k2);
    } else {
        lemma_count_two(items, idxs, v, k2, k1);
    }
}

/// When the row, column and box of `p` hold the value of `p` three times, one for each
/// house, no other cell of them holds it.
pub proof fn lemma_valid_entry<V: BitSetInt>(items: Seq<Square<V>>, size: SudokuSize, p: nat, j: nat)
    requires
        items.len() == size.spec_total(),
        p < size.spec_total(),
        j < size.spec_total(),
        p != j,
        peers(size, p, j),
        count_value(items, single_cells(size, p), items[p as int].value) == 3,
    ensures
        items[j as int].value != items[p as int].value,
{
    let v = items[p as int].value;
    let rn = row_of(size, p);
    let cn = col_of(size, p);
    let bn = box_of(size, p);
    let rs = house_cells(size, House::Row(rn));
    let cs = house_cells(size, House::Col(cn));
    let bs = house_cells(size, House::Box(bn));
    lemma_flat(size, p);
    lemma_flat(size, j);
    lemma_box_place(size, p);
    lemma_box_place(size, j);
    lemma_count_concat(items, rs + cs, bs, v);
    lemma_count_concat(items, rs, cs, v);
    assert(single_cells(size, p) == rs + cs + bs);
    assert(rs[cn as int] == p);
    assert(cs[rn as int] == p) by {
        lemma_col_member(size, cn, p);
    }
    assert(bs[box_offset(size, p) as int] == p);
    lemma_count_one(items, rs, v, cn as int);
    lemma_count_one(items, cs, v, rn as int);
    lemma_count_one(items, bs, v, box_offset(size, p) as int);
    if items[j as int].value == v {
        if row_of(size, j) == rn {
            lemma_row_member(size, rn, j);
            assert(rs[col_of(size, j) as int] == j);
            lemma_count_pair(items, rs, v, cn as int, col_of(size, j) as int);
        } else if col_of(size, j) == cn {
            lemma_col_member(size, cn, j);
            assert(cs[row_of(size, j) as int] == j);
            lemma_count_pair(items, cs, v, rn as int, row_of(size, j) as int);
        } else {
            lemma_box_member(size, bn, j);
            assert(bs[box_offset(size, j) as int] == j);
            lemma_count_pair(items, bs, v, box_offset(size, p) as int, box_offset(size, j) as int);
        }
    }
}

/// Every other cell of the row, column and box of `p` holds a value other than that of `p`:
/// they hold it three times in all, once each for `p` itself.
pub proof fn lemma_valid_entry_back<V: BitSetInt>(items: Seq<Square<V>>, size: SudokuSize, p: nat)
    requires
        items.len() == size.spec_total(),
        p < size.spec_total(),
        forall|j: nat| j < size.spec_total() && j != p && #[trigger] peers(size, p, j)
            ==> items[j as int].value != items[p as int].value,
    ensures
        count_value(items, single_cells(size, p), items[p as int].value) == 3,
{
    let v = items[p as int].value;
    let rn = row_of(size, p);
    let cn = col_of(size, p);
    let bn = box_of(size, p);
    let rs = house_cells(size, House::Row(rn));
    let cs = house_cells(size, House::Col(cn));
    let bs = house_cells(size, House::Box(bn));
    lemma_flat(size, p);
    lemma_box_place(size, p);
    lemma_count_concat(items, rs + cs, bs, v);
    lemma_count_concat(items, rs, cs, v);
    assert(single_cells(size, p) == rs + cs + bs);
    assert(rs[cn as int] == p);
    assert(cs[rn as int] == p) by {
        lemma_col_member(size, cn, p);
    }
    assert(bs[box_offset(size, p) as int] == p);
    assert forall|q: int| 0 <= q < rs.len() && q != cn implies items[#[trigger] rs[q] as int].value != v by {
        crate::grid::gridcoord::lemma_rc(size, rn, q as nat);
        assert(peers(size, p, rs[q]));
    }
    assert forall|q: int| 0 <= q < cs.len() && q != rn implies items[#[trigger] cs[q] as int].value != v by {
        crate::grid::gridcoord::lemma_rc(size, q as nat, cn);
        assert(cs[q] == cell_row(size, q as nat, cn));
        assert(peers(size, p, cs[q]));
    }
    assert forall|q: int| 0 <= q < bs.len() && q != box_offset(size, p) implies items[#[trigger] bs[q] as int].value != v by {
        crate::grid::gridcoord::lemma_box_cell(size, bn, q as nat);
        assert(peers(size, p, bs[q]));
    }
    lemma_count_only(items, rs, v, cn as int);
    lemma_count_only(items, cs, v, rn as int);
    lemma_count_only(items, bs, v, box_offset(size, p) as int);
}

/// A list of places of which only place `k` holds the value counts it once.
proof fn lemma_count_only<V: BitSetInt>(items: Seq<Square<V>>, idxs: Seq<nat>, v: Option<Bit<V>>, k: int)
    requires
        0 <= k < idxs.len(),
        items[idxs[k] as int].value == v,
        forall|q: int| 0 <= q < idxs.len() && q != k ==> items[#[trigger] idxs[q] as int].value != v,
    ensures
        count_value(items, idxs, v) == 1,
    decreases idxs.len(),
{
    let d = idxs.drop_last();
    if k == idxs.len() - 1 {
        lemma_count_none(items, d, v);
    } else {
        assert forall|q: int| 0 <= q < d.len() && q != k implies items[#[trigger] d[q] as int].value != v by {
            assert(d[q] == idxs[q]);
        }
        assert(d[k] == idxs[k]);
        lemma_count_only(items, d, v, k);
    }
}

/// A list of places none of which holds the value counts nothing.
proof fn lemma_count_none<V: BitSetInt>(items: Seq<Square<V>>, idxs: Seq<nat>, v: Option<Bit<V>>)
    requires
        forall|q: int| 0 <= q < idxs.len() ==> items[#[trigger] idxs[q] as int].value != v,
    ensures
        count_value(items, idxs, v) == 0,
    decreases idxs.len(),
{
    if idxs.len() > 0 {
        let d = idxs.drop_last();
        assert forall|q: int| 0 <= q < d.len() implies items[#[trigger] d[q] as int].value != v by {
            assert(d[q] == idxs[q]);
        }
        lemma_count_none(items, d, v);
    }
}

/// A value among those of the places `idxs` is held at one of them.
pub proof fn lemma_values_at_member<V: BitSetInt>(cells: Seq<Square<V>>, idxs: Seq<nat>, v: nat) -> (q: int)
    requires
        values_at(cells, idxs).contains(v),
    ensures
        0 <= q < idxs.len(),
        cells[idxs[q] as int].value matches Some(b) && b@ == v,
    decreases idxs.len(),
{
    if values_at(cells, idxs.drop_last()).contains(v) {
        let q = lemma_values_at_member(cells, idxs.drop_last(), v);
        assert(idxs.drop_last()[q] == idxs[q]);
        q
    } else {
        (idxs.len() - 1) as int
    }
}

/// The possible values of each open cell are those that no given of its row, column and box
/// holds.
#[verifier::opaque]
pub open spec fn open_ok<V: BitSetInt>(cells: Seq<Square<V>>, size: SudokuSize) -> bool {
    forall|i: int| 0 <= i < cells.len() && !(#[trigger] cells[i]).fixed
        ==> cells[i].flags.poss@ == first_values(size.spec_house()).difference(values_around(cells, size, i as nat))
}

/// The two grids hold the same values.
pub open spec fn same_entries<V: BitSetInt>(a: Grid<V>, b: Grid<V>) -> bool {
    &&& a.items.len() == b.items.len()
    &&& forall|i: int| 0 <= i < a.items.len() ==> #[trigger] a.items[i].spec_nat() == b.items[i].spec_nat()
}

/// A grid with the values of `g` stands in `sols` at place `from` or after.
pub open spec fn listed<V: BitSetInt>(g: Grid<V>, sols: Seq<Grid<V>>, from: int) -> bool {
    exists|k: int| from <= k < sols.len() && #[trigger] same_entries(sols[k], g)
}

/// `g` holds the values of the first `n` cells, which are filled.
pub open spec fn agrees<V: BitSetInt>(g: Grid<V>, cells: Seq<Square<V>>, n: nat) -> bool {
    forall|i: int| 0 <= i < n ==> ((#[trigger] cells[i]).value matches Some(b) && g.items[i].spec_nat() == b@)
}

/// The solution lists every grid that solves the cells: none for no solution, the grid of
/// a unique solution, one of the grids of several.
pub open spec fn solution_complete<V: BitSetInt>(s: Solution<V>, cells: Seq<Square<V>>, size: SudokuSize) -> bool {
    match s {
        Solution::NoSolution => forall|g: Grid<V>| !#[trigger] solves(g, cells, size),
        Solution::One(h) => forall|g: Grid<V>| #[trigger] solves(g, cells, size) ==> same_entries(h, g),
        Solution::Multi(v) => forall|g: Grid<V>| #[trigger] solves(g, cells, size) ==> listed(g, v@, 0),
        _ => true,
    }
}

/// The value a solution puts in an open cell was possible there at the start.
proof fn lemma_solution_possible<V: BitSetInt>(g: Grid<V>, init: Seq<Square<V>>, size: SudokuSize, p: nat)
    requires
        start_ok(init, size),
        solves(g, init, size),
        p < init.len(),
        !init[p as int].fixed,
    ensures
        init[p as int].flags.poss@.contains(g.items[p as int].spec_nat()),
{
    reveal(open_ok);
    let v = g.items[p as int].spec_nat();
    assert(start_cell(init[p as int], size));
    lemma_flat(size, p);
    lemma_box_place(size, p);
    let rn = row_of(size, p);
    let cn = col_of(size, p);
    let bn = box_of(size, p);
    let rs = house_cells(size, House::Row(rn));
    let cs = house_cells(size, House::Col(cn));
    let bs = house_cells(size, House::Box(bn));
    if values_around(init, size, p).contains(v) {
        let j: nat;
        if values_at(init, rs).contains(v) {
            let q = lemma_values_at_member(init, rs, v);
            crate::grid::gridcoord::lemma_rc(size, rn, q as nat);
            j = rs[q];
        } else if values_at(init, cs).contains(v) {
            let q = lemma_values_at_member(init, cs, v);
            crate::grid::gridcoord::lemma_rc(size, q as nat, cn);
            assert(cs[q] == cell_row(size, q as nat, cn));
            j = cs[q];
        } else {
            let q = lemma_values_at_member(init, bs, v);
            crate::grid::gridcoord::lemma_box_cell(size, bn, q as nat);
            j = bs[q];
        }
        assert(peers(size, p, j));
        assert(start_cell(init[j as int], size));
        assert(init[j as int].fixed);
        assert(j != p);
        assert(g.items[j as int].spec_nat() != g.items[p as int].spec_nat());
    }
}

/// Every solution that holds the values of the cells before `pos`, and below `upto` at
/// `pos`, has its grid in `sols` at place `from` or after.
#[verifier::opaque]
pub open spec fn covered<V: BitSetInt>(init: Seq<Square<V>>, size: SudokuSize, cells: Seq<Square<V>>, pos: nat,
    sols: Seq<Grid<V>>, from: int, upto: nat) -> bool {
    forall|g: Grid<V>| #[trigger] solves(g, init, size) && agrees(g, cells, pos) && g.items[pos as int].spec_nat() < upto
        ==> listed(g, sols, from)
}

/// Every solution that holds the values of the cells before `pos` has its grid in `sols` at
/// place `from` or after.
#[verifier::opaque]
pub open spec fn all_covered<V: BitSetInt>(init: Seq<Square<V>>, size: SudokuSize, cells: Seq<Square<V>>, pos: nat,
    sols: Seq<Grid<V>>, from: int) -> bool {
    forall|g: Grid<V>| #[trigger] solves(g, init, size) && agrees(g, cells, pos) ==> listed(g, sols, from)
}

/// `b` holds `a` at its start.
pub open spec fn extends<V: BitSetInt>(a: Seq<Grid<V>>, b: Seq<Grid<V>>) -> bool {
    a.len() <= b.len() && b.subrange(0, a.len() as int) == a
}

/// A grid listed in `a` stays listed when `a` grows into `b`.
proof fn lemma_listed_extends<V: BitSetInt>(g: Grid<V>, a: Seq<Grid<V>>, b: Seq<Grid<V>>, from: int)
    requires
        listed(g, a, from),
        extends(a, b),
        from >= 0,
    ensures
        listed(g, b, from),
{
    let k = choose|k: int| from <= k < a.len() && #[trigger] same_entries(a[k], g);
    assert(b.subrange(0, a.len() as int)[k] == a[k]);
    assert(same_entries(b[k], g));
}

/// Growing at the end keeps what was held at the start.
proof fn lemma_extends_trans<V: BitSetInt>(a: Seq<Grid<V>>, b: Seq<Grid<V>>, c: Seq<Grid<V>>)
    requires
        extends(a, b),
        extends(b, c),
    ensures
        extends(a, c),
{
    assert forall|k: int| 0 <= k < a.len() implies c[k] == a[k] by {
        assert(c.subrange(0, b.len() as int)[k] == b[k]);
        assert(b.subrange(0, a.len() as int)[k] == a[k]);
    }
    assert(c.subrange(0, a.len() as int) =~= a);
}

/// Coverage stays when the list grows.
proof fn lemma_covered_extends<V: BitSetInt>(init: Seq<Square<V>>, size: SudokuSize, cells: Seq<Square<V>>, pos: nat,
    a: Seq<Grid<V>>, b: Seq<Grid<V>>, from: int, upto: nat)
    requires
        covered(init, size, cells, pos, a, from, upto),
        extends(a, b),
        from >= 0,
    ensures
        covered(init, size, cells, pos, b, from, upto),
{
    reveal(covered);
    assert forall|g: Grid<V>| #[trigger] solves(g, init, size) && agrees(g, cells, pos) && g.items[pos as int].spec_nat() < upto
        implies listed(g, b, from) by {
        lemma_listed_extends(g, a, b, from);
    }
}

/// No solution holds a value below one.
proof fn lemma_covered_start<V: BitSetInt>(init: Seq<Square<V>>, size: SudokuSize, cells: Seq<Square<V>>, pos: nat,
    sols: Seq<Grid<V>>, from: int)
    requires
        pos < size.spec_total(),
    ensures
        covered(init, size, cells, pos, sols, from, 1),
{
    reveal(covered);
}

/// The cell at `pos` of a search: open, its possible values those of the start.
pub open spec fn search_cell<V: BitSetInt>(init: Seq<Square<V>>, size: SudokuSize, pos: nat, a: Square<V>) -> bool {
    &&& start_ok(init, size)
    &&& pos < init.len()
    &&& !init[pos as int].fixed
    &&& a.flags.poss == init[pos as int].flags.poss
}

/// Once no possible value is left above the last one tried, every solution is covered.
proof fn lemma_covered_done<V: BitSetInt>(init: Seq<Square<V>>, size: SudokuSize, cells: Seq<Square<V>>, pos: nat,
    sols: Seq<Grid<V>>, from: int, a: Square<V>)
    requires
        search_cell(init, size, pos, a),
        covered(init, size, cells, pos, sols, from, a.flags.current@ + 1),
        a.flags.upcoming().len() == 0,
    ensures
        all_covered(init, size, cells, pos, sols, from),
{
    reveal(covered);
    reveal(all_covered);
    let x = a.flags.poss.0.spec_nat();
    assert forall|g: Grid<V>| #[trigger] solves(g, init, size) && agrees(g, cells, pos)
        implies listed(g, sols, from) by {
        let v = g.items[pos as int].spec_nat();
        lemma_solution_possible(g, init, size, pos);
        if v > a.flags.current@ {
            lemma_asc_from_contains(x, a.flags.current@ + 1, V::width(), v);
            assert(a.flags.upcoming().contains(v));
        }
    }
}

/// The value tried next is the least possible value above the one tried before, so no
/// solution holds a value between them.
proof fn lemma_covered_gap<V: BitSetInt>(init: Seq<Square<V>>, size: SudokuSize, cells: Seq<Square<V>>, pos: nat,
    sols: Seq<Grid<V>>, from: int, a: Square<V>)
    requires
        search_cell(init, size, pos, a),
        covered(init, size, cells, pos, sols, from, a.flags.current@ + 1),
        a.flags.upcoming().len() > 0,
    ensures
        covered(init, size, cells, pos, sols, from, a.flags.upcoming()[0]),
{
    reveal(covered);
    let x = a.flags.poss.0.spec_nat();
    let up = a.flags.upcoming();
    assert forall|g: Grid<V>| #[trigger] solves(g, init, size) && agrees(g, cells, pos) && g.items[pos as int].spec_nat() < up[0]
        implies listed(g, sols, from) by {
        let v = g.items[pos as int].spec_nat();
        lemma_solution_possible(g, init, size, pos);
        if v > a.flags.current@ {
            lemma_asc_from_contains(x, a.flags.current@ + 1, V::width(), v);
            assert(up.contains(v));
            let k = choose|k: int| 0 <= k < up.len() && up[k] == v;
            if k > 0 {
                lemma_asc_from_increasing(x, a.flags.current@ + 1, V::width(), 0, k);
            }
        }
    }
}

/// A value that clashes with a cell filled before, or with a given, is held by no solution.
proof fn lemma_covered_clash<V: BitSetInt>(init: Seq<Square<V>>, size: SudokuSize, entry: Seq<Square<V>>, pos: nat,
    sols: Seq<Grid<V>>, from: int, c: Seq<Square<V>>, v: nat)
    requires
        search_state(entry, init, pos, size),
        pos < entry.len(),
        c.len() == entry.len(),
        forall|i: int| 0 <= i < c.len() && i != pos ==> #[trigger] c[i] == entry[i],
        c[pos as int].value matches Some(b) && b@ == v,
        count_value(c, single_cells(size, pos), c[pos as int].value) != 3,
        covered(init, size, entry, pos, sols, from, v),
    ensures
        covered(init, size, entry, pos, sols, from, v + 1),
{
    reveal(covered);
    assert forall|g: Grid<V>| #[trigger] solves(g, init, size) && agrees(g, entry, pos) && g.items[pos as int].spec_nat() < v + 1
        implies listed(g, sols, from) by {
        if g.items[pos as int].spec_nat() == v {
            assert forall|j: nat| j < size.spec_total() && j != pos && #[trigger] peers(size, pos, j)
                implies c[j as int].value != c[pos as int].value by {
                assert(peers(size, j, pos));
                if c[j as int].value is Some {
                    let bj = c[j as int].value->Some_0;
                    assert(c[j as int] == entry[j as int]);
                    if j < pos {
                        assert(g.items[j as int].spec_nat() == bj@);
                    } else {
                        assert(entry[j as int] == init[j as int]);
                        assert(start_cell(init[j as int], size));
                    }
                    assert(g.items[j as int].spec_nat() != g.items[pos as int].spec_nat());
                }
            }
            lemma_valid_entry_back(c, size, pos);
        }
    }
}

/// The search from the next open cell with value `v` at `pos` covers the solutions that hold
/// `v` there.
proof fn lemma_covered_step<V: BitSetInt>(init: Seq<Square<V>>, size: SudokuSize, entry: Seq<Square<V>>, pos: nat,
    filled: Seq<Square<V>>, next: nat, mid: Seq<Grid<V>>, sols: Seq<Grid<V>>, from: int, v: nat)
    requires
        search_state(entry, init, pos, size),
        pos < next <= entry.len(),
        filled.len() == entry.len(),
        forall|i: int| 0 <= i < filled.len() && i != pos ==> #[trigger] filled[i] == entry[i],
        forall|i: int| pos < i < next ==> (#[trigger] entry[i]).fixed,
        filled[pos as int].value matches Some(b) && b@ == v,
        covered(init, size, entry, pos, mid, from, v),
        all_covered(init, size, filled, next, sols, mid.len() as int),
        extends(mid, sols),
        0 <= from <= mid.len(),
    ensures
        covered(init, size, entry, pos, sols, from, v + 1),
{
    reveal(covered);
    reveal(all_covered);
    assert forall|g: Grid<V>| #[trigger] solves(g, init, size) && agrees(g, entry, pos) && g.items[pos as int].spec_nat() < v + 1
        implies listed(g, sols, from) by {
        if g.items[pos as int].spec_nat() == v {
            assert forall|i: int| 0 <= i < next implies ((#[trigger] filled[i]).value matches Some(b)
                && g.items[i].spec_nat() == b@) by {
                if i > pos {
                    assert(filled[i] == entry[i]);
                    assert(entry[i] == init[i]);
                    assert(start_cell(init[i], size));
                } else if i < pos {
                    assert(filled[i] == entry[i]);
                }
            }
            assert(agrees(g, filled, next));
            let k = choose|k: int| mid.len() <= k < sols.len() && #[trigger] same_entries(sols[k], g);
            assert(same_entries(sols[k], g));
        } else {
            lemma_listed_extends(g, mid, sols, from);
        }
    }
}

/// A filled grid, added to the list, covers the solutions that hold all its values.
proof fn lemma_covered_full<V: BitSetInt>(init: Seq<Square<V>>, size: SudokuSize, cells: Seq<Square<V>>, pos: nat,
    g: Grid<V>, first: Seq<Grid<V>>)
    requires
        pos >= cells.len(),
        cells.len() == size.spec_total(),
        g.items.len() == cells.len(),
        forall|i: int| 0 <= i < g.items.len() ==> #[trigger] g.items[i].spec_nat() == match cells[i].value {
            Some(b) => b@,
            None => 0,
        },
    ensures
        all_covered(init, size, cells, pos, first.push(g), first.len() as int),
{
    reveal(all_covered);
    let sols = first.push(g);
    assert forall|h: Grid<V>| #[trigger] solves(h, init, size) && agrees(h, cells, pos)
        implies listed(h, sols, first.len() as int) by {
        assert(sols[first.len() as int] == g);
        assert forall|i: int| 0 <= i < g.items.len() implies #[trigger] g.items[i].spec_nat() == h.items[i].spec_nat() by {
            assert(cells[i].value is Some);
        }
        assert(same_entries(sols[first.len() as int], h));
    }
}

/// When the first open cell is `start`, covering the solutions that hold the cells before it
/// covers every solution.
proof fn lemma_covered_all<V: BitSetInt>(init: Seq<Square<V>>, size: SudokuSize, start: nat, sols: Seq<Grid<V>>)
    requires
        all_covered(init, size, init, start, sols, 0),
        start_ok(init, size),
        start <= init.len(),
        forall|i: int| 0 <= i < start ==> (#[trigger] init[i]).fixed,
    ensures
        forall|g: Grid<V>| #[trigger] solves(g, init, size) ==> listed(g, sols, 0),
{
    reveal(all_covered);
    assert forall|g: Grid<V>| #[trigger] solves(g, init, size) implies listed(g, sols, 0) by {
        assert forall|i: int| 0 <= i < start implies ((#[trigger] init[i]).value matches Some(b) && g.items[i].spec_nat() == b@) by {
            assert(start_cell(init[i], size));
        }
        assert(agrees(g, init, start));
    }
}

/// The solution built from the list of all solutions lists all of them.
proof fn lemma_complete<V: BitSetInt>(s: Solution<V>, sols: Seq<Grid<V>>, cells: Seq<Square<V>>, size: SudokuSize)
    requires
        forall|g: Grid<V>| #[trigger] solves(g, cells, size) ==> listed(g, sols, 0),
        sols.len() == 0 ==> s is NoSolution,
        sols.len() == 1 ==> s == Solution::One(sols[0]),
        sols.len() > 1 ==> (s matches Solution::Multi(v) && v@ == sols),
    ensures
        solution_complete(s, cells, size),
{
    if sols.len() == 1 {
        assert forall|g: Grid<V>| #[trigger] solves(g, cells, size) implies same_entries(sols[0], g) by {
            assert(listed(g, sols, 0));
        }
    }
}

/// Brute force solving.  Returns multiple solutions if they exist
pub struct BruteForce {}

impl BruteForce {
    /// Moves to the next cell after `c` that is not a given. Returns None if end of puzzle.
    pub fn move_right<V: BitSetInt>(p: &Grid<Square<V>>, c: usize) -> (r: Option<usize>)
        requires
            p.wf(),
        ensures
            r matches Some(n) ==> c < n < p.items.len() && !p.items[n as int].fixed
                && forall|k: int| c < k < n ==> (#[trigger] p.items[k]).fixed,
            r is None ==> forall|k: int| c < k < p.items.len() ==> (#[trigger] p.items[k]).fixed,
    {
        let max = p.size.total();
        let mut cur = c;
        loop
            invariant
                max == p.items.len(),
                c <= cur,
                forall|k: int| c < k <= cur && k < max ==> (#[trigger] p.items[k]).fixed,
            decreases max - cur,
        {
            if cur < max && cur + 1 < max {
                cur = cur + 1;
                if p.items[cur].is_fixed() {
                    continue;
                } else {
                    return Some(cur);
                }
            } else {
                return None;
            }
        }
    }

    /// Tries the next possible value of cell `index`; false when there is none (or the cell
    /// is a given, or lies outside the grid).
    pub fn inc<V: BitSetInt>(puz: &mut Grid<Square<V>>, index: usize) -> (r: bool)
        requires
            index < old(puz).items.len() ==> old(puz).items[index as int].wf() && (!old(puz).items[index as int].fixed
                ==> old(puz).items[index as int].flags.original is Some),
        ensures
            final(puz).size == old(puz).size,
            index >= old(puz).items.len() ==> !r && final(puz).items@ == old(puz).items@,
            index < old(puz).items.len() ==> final(puz).items@ == old(puz).items@.update(index as int, final(puz).items[index as int])
                && stepped(old(puz).items[index as int], final(puz).items[index as int], r),
    {
        if index < puz.items.len() {
            let mut sq = puz.items[index];
            let r = sq.inc();
            puz.items.set(index, sq);
            r
        } else {
            false
        }
    }

    /// Empties cell `index` if it is not a given, back to its original possible values.
    pub fn reset<V: BitSetInt>(puz: &mut Grid<Square<V>>, index: usize)
        requires
            index < old(puz).items.len() ==> old(puz).items[index as int].wf() && (!old(puz).items[index as int].fixed
                ==> old(puz).items[index as int].flags.original is Some),
        ensures
            final(puz).size == old(puz).size,
            index >= old(puz).items.len() ==> final(puz).items@ == old(puz).items@,
            index < old(puz).items.len() ==> final(puz).items@ == old(puz).items@.update(index as int, final(puz).items[index as int])
                && emptied(old(puz).items[index as int], final(puz).items[index as int]),
    {
        if index < puz.items.len() {
            let mut sq = puz.items[index];
            sq.reset();
            puz.items.set(index, sq);
        }
    }
    /// Fills the cells from `pos` on in every way that keeps the houses free of clashes, in
    /// increasing order of values, adding each filled grid to `sols`; false once a sixth
    /// grid is found.  Unless it gives up, every solution that holds the values of the cells
    /// before `pos` is added.
    #[verifier::rlimit(40)]
    fn search<V: BitSetInt>(puz: &mut Grid<Square<V>>, pos: usize, sols: &mut Vec<Grid<V>>, Ghost(init): Ghost<Seq<Square<V>>>) -> (ok: bool)
        requires
            old(puz).wf(),
            search_state(old(puz).items@, init, pos as nat, old(puz).size),
            old(sols).len() <= MAX_SOLUTIONS,
            forall|k: int| 0 <= k < old(sols).len() ==> solves(#[trigger] old(sols)[k], init, old(puz).size),
        ensures
            final(puz).size == old(puz).size,
            final(puz).items.len() == old(puz).items.len(),
            forall|k: int| 0 <= k < final(sols).len() ==> solves(#[trigger] final(sols)[k], init, old(puz).size),
            extends(old(sols)@, final(sols)@),
            ok ==> final(puz).items@ == old(puz).items@ && final(sols).len() <= MAX_SOLUTIONS,
            ok ==> all_covered(init, old(puz).size, old(puz).items@, pos as nat, final(sols)@, old(sols).len() as int),
            !ok ==> final(sols).len() == MAX_SOLUTIONS + 1,
            forall|k: int| old(sols).len() <= k < final(sols).len() ==> agrees(#[trigger] final(sols)[k], old(puz).items@, pos as nat),
            distinct_from(final(sols)@, old(sols).len() as int),
        decreases old(puz).items.len() - pos,
    {
        let ghost size = puz.size;
        let ghost first = sols@;
        let total = puz.size.total();
        proof { size.lemma_sizes(); }
        if pos >= total {
            let g = puz.to_inner();
            proof {
                assert forall|i: int, j: int|
                    0 <= i < g.items.len() && 0 <= j < g.items.len() && i != j && peers(size, i as nat, j as nat)
                    implies #[trigger] g.items[i].spec_nat() != #[trigger] g.items[j].spec_nat() by {
                    let a = puz.items[i].value->Some_0;
                    let b = puz.items[j].value->Some_0;
                    assert(puz.items[i].value is Some && puz.items[j].value is Some);
                    assert(puz.items[i].wf() && puz.items[j].wf());
                    if a@ == b@ {
                        assert(a.0.spec_nat() == b.0.spec_nat());
                        V::lemma_nat_inj(a.0, b.0);
                        assert(a == b);
                    }
                }
                assert forall|i: int| 0 <= i < g.items.len() && (#[trigger] init[i]).fixed implies (init[i].value matches Some(b)
                    && g.items[i].spec_nat() == b@) by {
                    assert(puz.items[i] == init[i]);
                    assert(start_cell(init[i], size));
                }
            }
            sols.push(g);
            proof {
                assert(sols@[first.len() as int] == g);
                assert(agrees(g, puz.items@, pos as nat));
                assert(sols@.subrange(0, first.len() as int) =~= first);
                lemma_covered_full(init, size, puz.items@, pos as nat, g, first);
            }
            return sols.len() <= MAX_SOLUTIONS;
        }
        let ghost entry = puz.items@;
        proof {
            assert(entry[pos as int] == init[pos as int]);
            assert(start_cell(init[pos as int], size));
            lemma_covered_start(init, size, entry, pos as nat, first, first.len() as int);
            assert(sols@.subrange(0, first.len() as int) =~= first);
        }
        loop
            invariant_except_break
                puz.items[pos as int].flags.current@ == 0 ==> puz.items[pos as int] == entry[pos as int],
                forall|k: int| first.len() <= k < sols.len() ==> (#[trigger] sols[k]).items[pos as int].spec_nat()
                    <= puz.items[pos as int].flags.current@,
                covered(init, size, entry, pos as nat, sols@, first.len() as int, puz.items[pos as int].flags.current@ + 1),
            invariant
                puz.size == size,
                puz.items.len() == total,
                total == size.spec_total(),
                pos < total,
                start_ok(init, size),
                search_state(entry, init, pos as nat, size),
                entry == old(puz).items@,
                old(puz).items.len() == total,
                old(puz).size == size,
                first == old(sols)@,
                forall|i: int| 0 <= i < total && i != pos ==> #[trigger] puz.items[i] == entry[i],
                puz.items[pos as int].wf(),
                puz.items[pos as int].fixed == entry[pos as int].fixed,
                puz.items[pos as int].index == entry[pos as int].index,
                puz.items[pos as int].flags.poss == entry[pos as int].flags.poss,
                puz.items[pos as int].flags.original == entry[pos as int].flags.original,
                puz.items[pos as int].flags.current@ != 0 ==> puz.items[pos as int].value == Some(puz.items[pos as int].flags.current),
                puz.items[pos as int].flags.current@ <= V::width(),
                puz.items[pos as int].flags.current@ != 0 ==> entry[pos as int].flags.poss@.contains(puz.items[pos as int].flags.current@),
                sols.len() <= MAX_SOLUTIONS,
                extends(first, sols@),
                forall|k: int| 0 <= k < sols.len() ==> solves(#[trigger] sols[k], init, size),
                forall|k: int| first.len() <= k < sols.len() ==> agrees(#[trigger] sols[k], entry, pos as nat),
                distinct_from(sols@, first.len() as int),
            ensures
                all_covered(init, size, entry, pos as nat, sols@, first.len() as int),
            decreases V::width() + 1 - puz.items[pos as int].flags.current@,
        {
            let ghost before = puz.items@;
            proof {
                assert(search_cell(init, size, pos as nat, before[pos as int]));
            }
            let stepped_ok = Self::inc(puz, pos);
            if !stepped_ok {
                proof {
                    lemma_covered_done(init, size, entry, pos as nat, sols@, first.len() as int, before[pos as int]);
                }
                break;
            }
            proof {
                let a = before[pos as int];
                let b = puz.items[pos as int];
                let x = a.flags.poss.0.spec_nat();
                lemma_asc_from_contains(x, a.flags.current@ + 1, V::width(), b.flags.current@);
                assert(a.flags.upcoming().contains(b.flags.current@));
                assert(b.flags.current@ > a.flags.current@);
                assert(entry[pos as int].flags.poss@.contains(b.flags.current@));
                assert(b.flags.current.0.spec_nat() != 0);
                lemma_covered_gap(init, size, entry, pos as nat, sols@, first.len() as int, a);
            }
            let ghost tried = puz.items[pos as int].flags.current@;
            if puz.was_valid_entry(pos) {
                let ghost filled = puz.items@;
                let ghost mid = sols@;
                let next = match Self::move_right(puz, pos) {
                    Some(n) => n,
                    None => total,
                };
                proof {
                    assert forall|i: int, j: int|
                        0 <= i < filled.len() && 0 <= j < filled.len() && i != j && peers(size, i as nat, j as nat)
                            && #[trigger] filled[i].value is Some && #[trigger] filled[j].value is Some
                        implies filled[i].value != filled[j].value by {
                        if i == pos {
                            lemma_valid_entry(filled, size, pos as nat, j as nat);
                        } else if j == pos {
                            assert(peers(size, pos as nat, i as nat));
                            lemma_valid_entry(filled, size, pos as nat, i as nat);
                        } else {
                            assert(filled[i] == entry[i]);
                            assert(filled[j] == entry[j]);
                        }
                    }
                    assert(first_values(size.spec_house()).contains(filled[pos as int].flags.current@));
                    assert forall|i: int| 0 <= i < filled.len() && (i >= next || init[i].fixed) implies #[trigger] filled[i] == init[i] by {
                        if i != pos {
                            assert(filled[i] == entry[i]);
                        }
                    }
                    assert forall|i: int| 0 <= i < next implies ((#[trigger] filled[i]).value matches Some(b) && 1 <= b@ <= size.spec_house()) by {
                        if i > pos {
                            assert(filled[i].fixed);
                            assert(filled[i] == entry[i]);
                            assert(start_cell(init[i], size));
                        } else if i < pos {
                            assert(filled[i] == entry[i]);
                        }
                    }
                }
                let ok = Self::search(puz, next, sols, Ghost(init));
                proof {
                    lemma_extends_trans(first, mid, sols@);
                    assert(filled[pos as int].value == Some(filled[pos as int].flags.current));
                    assert forall|k: int| mid.len() <= k < sols.len() implies agrees(#[trigger] sols[k], entry, pos as nat)
                        && sols[k].items[pos as int].spec_nat() == tried by {
                        assert(agrees(sols[k], filled, next as nat));
                        assert forall|i: int| 0 <= i < pos implies ((#[trigger] entry[i]).value matches Some(b)
                            && sols[k].items[i].spec_nat() == b@) by {
                            assert(filled[i] == entry[i]);
                        }
                    }
                    assert forall|k: int| first.len() <= k < mid.len() implies #[trigger] sols[k] == mid[k] by {
                        assert(sols@.subrange(0, mid.len() as int) == mid);
                    }
                    assert forall|i: int, j: int| first.len() <= i < j < sols.len() implies !same_entries(#[trigger] sols[i], #[trigger] sols[j]) by {
                        if j >= mid.len() && i < mid.len() {
                            assert(sols[i].items[pos as int].spec_nat() < tried);
                            assert(sols[j].items[pos as int].spec_nat() == tried);
                        } else if j < mid.len() {
                            assert(sols[i] == mid[i] && sols[j] == mid[j]);
                        }
                    }
                }
                if !ok {
                    return false;
                }
                proof {
                    assert forall|i: int| pos < i < next implies (#[trigger] entry[i]).fixed by {
                        assert(filled[i] == entry[i]);
                    }
                    lemma_covered_step(init, size, entry, pos as nat, filled, next as nat, mid, sols@, first.len() as int, tried);
                }
            } else {
                proof {
                    lemma_covered_clash(init, size, entry, pos as nat, sols@, first.len() as int, puz.items@, tried);
                }
            }
        }
        Self::reset(puz, pos);
        proof {
            let a = puz.items[pos as int];
            let e = entry[pos as int];
            assert(start_cell(init[pos as int], size));
            V::lemma_nat_inj(a.flags.current.0, e.flags.current.0);
            lemma_same_square(a, e);
            assert(puz.items@ =~= entry);
        }
        true
    }

    /// Finds the solutions of the puzzle by trying every value in every cell that is not a
    /// given: none, one, or up to five of them; more is an error.
    #[verifier::rlimit(40)]
    pub fn solve<V: BitSetInt>(grid: &Grid<Square<V>>) -> (r: Result<Solution<V>, SudError>)
        requires
            grid.wf(),
            start_ok(grid.items@, grid.size),
        ensures
            r matches Ok(s) ==> (s is NoSolution || s is One || s is Multi) && solution_solves(s, grid.items@, grid.size),
            r matches Ok(s) ==> solution_complete(s, grid.items@, grid.size),
            r matches Err(e) ==> e == SudError::ExcessiveSolutions(MAX_SOLUTIONS),
            r is Err ==> has_solutions(grid.items@, grid.size, (MAX_SOLUTIONS + 1) as nat),
    {
        let mut to_return: Vec<Grid<V>> = Vec::new();
        let mut puz: Grid<Square<V>> = grid.clone_grid();
        let ghost init = grid.items@;
        proof { grid.size.lemma_sizes(); }
        let start = if puz.items[0].is_fixed() {
            match Self::move_right(&puz, 0) {
                Some(v) => v,
                None => puz.num_squares(),
            }
        } else {
            0
        };
        proof {
            assert(puz.items@ == init);
            assert forall|i: int| 0 <= i < start implies ((#[trigger] puz.items[i]).value matches Some(b) && 1 <= b@ <= grid.size.spec_house()) by {
                assert(puz.items[i].fixed);
                assert(start_cell(init[i], grid.size));
            }
        }
        let ok = Self::search(&mut puz, start, &mut to_return, Ghost(init));
        if !ok {
            proof {
                assert(to_return@.len() == MAX_SOLUTIONS + 1 && distinct_from(to_return@, 0)
                    && forall|k: int| 0 <= k < to_return@.len() ==> solves(#[trigger] to_return@[k], grid.items@, grid.size));
            }
            return Err(SudError::ExcessiveSolutions(MAX_SOLUTIONS));
        }
        let ghost all = to_return@;
        proof {
            assert forall|i: int| 0 <= i < start implies (#[trigger] init[i]).fixed by {
                assert(puz.items[i].fixed);
            }
            lemma_covered_all(init, grid.size, start as nat, all);
        }
        let n = to_return.len();
        let r = if n == 0 {
            Solution::NoSolution
        } else if n == 1 {
            let g = to_return.pop();
            match g {
                Some(g) => Solution::One(g),
                None => Solution::NoSolution,
            }
        } else {
            Solution::Multi(to_return)
        };
        proof {
            lemma_complete(r, all, init, grid.size);
        }
        Ok(r)
    }
}

/// The solutions of a puzzle stay solutions of any puzzle with the same givens.
pub proof fn lemma_solution_givens<V: BitSetInt>(sol: Solution<V>, a: Seq<Square<V>>, b: Seq<Square<V>>, size: SudokuSize)
    requires
        solution_solves(sol, a, size),
        givens_same(a, b),
    ensures
        solution_solves(sol, b, size),
{
    match sol {
        Solution::One(g) => { lemma_solves_givens(g, a, b, size); },
        Solution::HumanSolved(g, _) => { lemma_solves_givens(g, a, b, size); },
        Solution::Multi(v) => {
            assert forall|k: int| 0 <= k < v.len() implies solves(#[trigger] v[k], b, size) by {
                lemma_solves_givens(v[k], a, b, size);
            }
        },
        _ => {},
    }
}

/// A solution that lists every solution of a puzzle lists every solution of any puzzle with
/// the same givens.
pub proof fn lemma_complete_givens<V: BitSetInt>(sol: Solution<V>, a: Seq<Square<V>>, b: Seq<Square<V>>, size: SudokuSize)
    requires
        solution_complete(sol, a, size),
        givens_same(a, b),
    ensures
        solution_complete(sol, b, size),
{
    assert forall|g: Grid<V>| #[trigger] solves(g, b, size) implies solves(g, a, size) by {
        assert forall|i: int| 0 <= i < g.items.len() && (#[trigger] a[i]).fixed implies (a[i].value matches Some(x)
            && g.items[i].spec_nat() == x@) by {
            assert(b[i].fixed);
        }
    }
}

/// Solutions that hold the same grids list the same solutions.
pub proof fn lemma_same_solution_complete<V: BitSetInt>(a: Solution<V>, b: Solution<V>, cells: Seq<Square<V>>, size: SudokuSize)
    requires
        same_solution(a, b),
        solution_complete(b, cells, size),
    ensures
        solution_complete(a, cells, size),
{
    match (a, b) {
        (Solution::Multi(v), Solution::Multi(w)) => {
            assert forall|g: Grid<V>| #[trigger] solves(g, cells, size) implies listed(g, v@, 0) by {
                assert(listed(g, w@, 0));
                let k = choose|k: int| 0 <= k < w@.len() && #[trigger] same_entries(w@[k], g);
                assert(same_grid(v[k], w[k]));
                assert(same_entries(v@[k], g));
            }
        },
        _ => {},
    }
}

/// The cells a search starts from are free of clashes: the givens do not clash, and each open
/// cell keeps as possible only values that no given around it holds.
pub proof fn lemma_start_no_clash<V: BitSetInt>(cells: Seq<Square<V>>, size: SudokuSize)
    requires
        start_ok(cells, size),
        forall|i: int| 0 <= i < cells.len() ==> #[trigger] cell_ok(cells[i], i, size),
    ensures
        no_clash(cells, size),
{
    reveal(no_clash);
    reveal(open_ok);
    assert forall|i: int, j: int|
        0 <= i < cells.len() && 0 <= j < cells.len() && i != j && peers(size, i as nat, j as nat)
            && (#[trigger] cells[j]).value is Some
        implies (#[trigger] cells[i]).value != cells[j].value && !cells[i].flags.poss@.contains(cells[j].value->Some_0@) by {
        assert(cell_ok(cells[i], i, size));
        assert(start_cell(cells[i], size));
        if cells[i].value is None {
            lemma_values_around_has(cells, size, i as nat, j as nat);
        }
    }
}

/// A solution of a puzzle solves any puzzle with the same givens.
pub proof fn lemma_solves_givens<V: BitSetInt>(g: Grid<V>, a: Seq<Square<V>>, b: Seq<Square<V>>, size: SudokuSize)
    requires
        solves(g, a, size),
        givens_same(a, b),
    ensures
        solves(g, b, size),
{
    assert forall|i: int| 0 <= i < g.items.len() && (#[trigger] b[i]).fixed implies (b[i].value matches Some(x)
        && g.items[i].spec_nat() == x@) by {
        assert(a[i].fixed);
    }
}

/// Solutions that hold the same grids solve the same cells.
pub proof fn lemma_same_solution_solves<V: BitSetInt>(a: Solution<V>, b: Solution<V>, cells: Seq<Square<V>>, size: SudokuSize)
    requires
        same_solution(a, b),
        solution_solves(b, cells, size),
    ensures
        solution_solves(a, cells, size),
{
    match (a, b) {
        (Solution::Multi(v), Solution::Multi(w)) => {
            assert forall|k: int| 0 <= k < v.len() implies solves(#[trigger] v[k], cells, size) by {
                assert(same_grid(v[k], w[k]));
                assert(solves(w[k], cells, size));
            }
        },
        _ => {},
    }
}

} // verus!
