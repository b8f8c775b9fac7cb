use vstd::prelude::*;
use crate::bitset::traits::BitSetInt;
use crate::bitset::bitset::BitSet;
use crate::grid::grid::house_cells;
use crate::grid::house::House;
use crate::grid::types::{Index, box_of};
use crate::grid::gridcoord::GridCoord;
use crate::sudoku::sudoku::Sudoku;
use crate::sudokusize::SudokuSize;

verus! {

/// The values of a line (row or column) and a box that it crosses: those possible in the
/// cells of the line inside the box, in the cells of the box outside the line, and in the
/// cells of the line outside the box.
#[derive(Debug)]
pub struct Candidates<V: BitSetInt, Extra> {
    pub box_both: BitSet<V>,
    pub box_outside: BitSet<V>,
    pub outside: BitSet<V>,
    pub extra: Extra,
}

/// The row or column as a house of numbers.
pub open spec fn line_house(line: House<usize>) -> House<nat> {
    match line {
        House::Row(n) => House::Row(n as nat),
        House::Col(n) => House::Col(n as nat),
        House::Box(n) => House::Box(n as nat),
    }
}

/// The number of a row, column or box.
pub open spec fn line_index(line: House<usize>) -> nat {
    match line {
        House::Row(n) => n as nat,
        House::Col(n) => n as nat,
        House::Box(n) => n as nat,
    }
}

/// A row or a column of the puzzle.
pub open spec fn is_line(line: House<usize>, size: SudokuSize) -> bool {
    match line {
        House::Row(n) => n < size.spec_house(),
        House::Col(n) => n < size.spec_house(),
        House::Box(_) => false,
    }
}

/// Value `x` is possible in a cell of the line inside box `b`.
pub open spec fn in_line_in_box<V: BitSetInt>(puz: Sudoku<V>, line: House<usize>, b: nat, x: nat) -> bool {
    let l = house_cells(puz.grid.size, line_house(line));
    exists|k: int| 0 <= k < l.len() && box_of(puz.grid.size, l[k]) == b && #[trigger] puz.cells()[l[k] as int].flags.poss@.contains(x)
}

/// Value `x` is possible in a cell of the line outside box `b`.
pub open spec fn in_line_out_box<V: BitSetInt>(puz: Sudoku<V>, line: House<usize>, b: nat, x: nat) -> bool {
    let l = house_cells(puz.grid.size, line_house(line));
    exists|k: int| 0 <= k < l.len() && box_of(puz.grid.size, l[k]) != b && #[trigger] puz.cells()[l[k] as int].flags.poss@.contains(x)
}

/// Value `x` is possible in a cell of box `b` outside the line.
pub open spec fn in_box_out_line<V: BitSetInt>(puz: Sudoku<V>, line: House<usize>, b: nat, x: nat) -> bool {
    let l = house_cells(puz.grid.size, line_house(line));
    let bx = house_cells(puz.grid.size, House::Box(b));
    exists|k: int| 0 <= k < bx.len() && !l.contains(bx[k]) && #[trigger] puz.cells()[bx[k] as int].flags.poss@.contains(x)
}

/// The cells of a line come in runs of `w` (the box width), each run inside one box: cell `k`
/// of the line shares its box with the first cell of its run.
pub proof fn lemma_line_box(size: SudokuSize, line: House<usize>, k: int)
    requires
        is_line(line, size),
        0 <= k < size.spec_house(),
    ensures
        (k / size.spec_size() as int) * size.spec_size() < size.spec_house(),
        box_of(size, house_cells(size, line_house(line))[k])
            == box_of(size, house_cells(size, line_house(line))[(k / size.spec_size() as int) * size.spec_size()]),
{
    size.lemma_sizes();
    let w = size.spec_size() as int;
    let h = size.spec_house() as int;
    let s = k / w;
    assert(0 <= s * w <= k) by (nonlinear_arith)
        requires w > 0, 0 <= k, s == k / w;
    assert((s * w) / w == s) by (nonlinear_arith)
        requires w > 0, s >= 0;
    assert(k < h);
    let f = (s * w) as nat;
    match line {
        House::Row(n) => {
            crate::grid::gridcoord::lemma_rc(size, n as nat, k as nat);
            crate::grid::gridcoord::lemma_rc(size, n as nat, f);
        },
        House::Col(n) => {
            crate::grid::gridcoord::lemma_rc(size, k as nat, n as nat);
            crate::grid::gridcoord::lemma_rc(size, f, n as nat);
            assert(house_cells(size, line_house(line))[k] == crate::grid::types::cell_row(size, k as nat, n as nat));
            assert(house_cells(size, line_house(line))[f as int] == crate::grid::types::cell_row(size, f, n as nat));
        },
        House::Box(_) => {},
    }
}

/// The cells of run `s` of a line, `s * w` up to `(s + 1) * w`, lie in run `s`.
pub proof fn lemma_run(w: int, s: int, k: int)
    requires
        w > 0,
        s >= 0,
        s * w <= k < s * w + w,
    ensures
        k / w == s,
{
    assert(k / w == s) by (nonlinear_arith)
        requires w > 0, s >= 0, s * w <= k, k < s * w + w;
}

/// Whether the list holds `x`.
pub fn vec_contains(v: &Vec<usize>, x: usize) -> (r: bool)
    ensures
        r == v@.contains(x),
{
    for i in 0..v.len()
        invariant
            forall|j: int| 0 <= j < i ==> v[j] != x,
    {
        if v[i] == x {
            proof { assert(v@[i as int] == x); }
            return true;
        }
    }
    false
}

/// Gathers the values of the line and box `b`, and the cells of the line.
pub fn find_candidates<V: BitSetInt>(puz: &Sudoku<V>, line: House<usize>, b: usize) -> (r: Candidates<V, Vec<usize>>)
    requires
        puz.wf(),
        is_line(line, puz.grid.size),
        b < puz.grid.size.spec_house(),
    ensures
        r.extra@ == house_cells(puz.grid.size, line_house(line)).map_values(|x: nat| x as usize),
        forall|x: nat| #[trigger] r.box_both@.contains(x) <==> in_line_in_box(*puz, line, b as nat, x),
        forall|x: nat| #[trigger] r.outside@.contains(x) <==> in_line_out_box(*puz, line, b as nat, x),
        forall|x: nat| #[trigger] r.box_outside@.contains(x) <==> in_box_out_line(*puz, line, b as nat, x),
{
    let size = puz.grid.size;
    let ghost l = house_cells(size, line_house(line));
    let ghost bx = house_cells(size, House::Box(b as nat));
    let indices = puz.house_iter(line);
    let box_cells = puz.house_iter(House::Box(b));
    proof {
        size.lemma_sizes();
        assert forall|j: int| 0 <= j < l.len() implies #[trigger] l[j] < size.spec_total() by {
            crate::grid::grid::lemma_house_cells(size, line_house(line), j);
        }
        assert forall|j: int| 0 <= j < bx.len() implies #[trigger] bx[j] < size.spec_total() by {
            crate::grid::grid::lemma_house_cells(size, House::Box(b as nat), j);
        }
    }
    let mut box_both: BitSet<V> = BitSet::empty();
    let mut outside: BitSet<V> = BitSet::empty();
    for q in 0..indices.len()
        invariant
            puz.wf(),
            size == puz.grid.size,
            size.spec_total() <= 10000,
            indices@ == l.map_values(|x: nat| x as usize),
            l == house_cells(size, line_house(line)),
            forall|j: int| 0 <= j < l.len() ==> #[trigger] l[j] < size.spec_total(),
            forall|x: nat| #[trigger] box_both@.contains(x) <==> exists|k: int| 0 <= k < q && box_of(size, l[k]) == b
                && #[trigger] puz.cells()[l[k] as int].flags.poss@.contains(x),
            forall|x: nat| #[trigger] outside@.contains(x) <==> exists|k: int| 0 <= k < q && box_of(size, l[k]) != b
                && #[trigger] puz.cells()[l[k] as int].flags.poss@.contains(x),
    {
        let idx = indices[q];
        proof { assert(idx == l[q as int]); }
        let which = Index::new(idx, size).to_box();
        let p = *puz.grid.items[idx].poss();
        let ghost ob = box_both;
        let ghost oo = outside;
        if which.box_num == b {
            box_both = box_both.union(p);
        } else {
            outside = outside.union(p);
        }
        proof {
            assert forall|x: nat| #[trigger] box_both@.contains(x) <==> exists|k: int| 0 <= k < q + 1 && box_of(size, l[k]) == b
                && #[trigger] puz.cells()[l[k] as int].flags.poss@.contains(x) by {
                if exists|k: int| 0 <= k < q + 1 && box_of(size, l[k]) == b && #[trigger] puz.cells()[l[k] as int].flags.poss@.contains(x) {
                    let k = choose|k: int| 0 <= k < q + 1 && box_of(size, l[k]) == b && #[trigger] puz.cells()[l[k] as int].flags.poss@.contains(x);
                    if k < q {
                        assert(ob@.contains(x));
                    }
                }
            }
            assert forall|x: nat| #[trigger] outside@.contains(x) <==> exists|k: int| 0 <= k < q + 1 && box_of(size, l[k]) != b
                && #[trigger] puz.cells()[l[k] as int].flags.poss@.contains(x) by {
                if exists|k: int| 0 <= k < q + 1 && box_of(size, l[k]) != b && #[trigger] puz.cells()[l[k] as int].flags.poss@.contains(x) {
                    let k = choose|k: int| 0 <= k < q + 1 && box_of(size, l[k]) != b && #[trigger] puz.cells()[l[k] as int].flags.poss@.contains(x);
                    if k < q {
                        assert(oo@.contains(x));
                    }
                }
            }
        }
    }
    let mut box_outside: BitSet<V> = BitSet::empty();
    for q in 0..box_cells.len()
        invariant
            puz.wf(),
            size == puz.grid.size,
            size.spec_total() <= 10000,
            indices@ == l.map_values(|x: nat| x as usize),
            box_cells@ == bx.map_values(|x: nat| x as usize),
            bx == house_cells(size, House::Box(b as nat)),
            forall|j: int| 0 <= j < l.len() ==> #[trigger] l[j] < size.spec_total(),
            forall|j: int| 0 <= j < bx.len() ==> #[trigger] bx[j] < size.spec_total(),
            forall|x: nat| #[trigger] box_outside@.contains(x) <==> exists|k: int| 0 <= k < q && !l.contains(bx[k])
                && #[trigger] puz.cells()[bx[k] as int].flags.poss@.contains(x),
    {
        let idx = box_cells[q];
        proof { assert(idx == bx[q as int]); }
        let inside = vec_contains(&indices, idx);
        proof {
            if indices@.contains(idx) {
                let k = choose|k: int| 0 <= k < indices@.len() && indices@[k] == idx;
                assert(l[k] == bx[q as int]);
                assert(l.contains(bx[q as int]));
            }
            if l.contains(bx[q as int]) {
                let k = choose|k: int| 0 <= k < l.len() && l[k] == bx[q as int];
                assert(indices@[k] == idx);
            }
        }
        let ghost oo = box_outside;
        if !inside {
            let p = *puz.grid.items[idx].poss();
            box_outside = box_outside.union(p);
        }
        proof {
            assert forall|x: nat| #[trigger] box_outside@.contains(x) <==> exists|k: int| 0 <= k < q + 1 && !l.contains(bx[k])
                && #[trigger] puz.cells()[bx[k] as int].flags.poss@.contains(x) by {
                if exists|k: int| 0 <= k < q + 1 && !l.contains(bx[k]) && #[trigger] puz.cells()[bx[k] as int].flags.poss@.contains(x) {
                    let k = choose|k: int| 0 <= k < q + 1 && !l.contains(bx[k]) && #[trigger] puz.cells()[bx[k] as int].flags.poss@.contains(x);
                    if k < q {
                        assert(oo@.contains(x));
                    }
                }
            }
        }
    }
    Candidates { box_both, box_outside, outside, extra: indices }
}

} // verus!
