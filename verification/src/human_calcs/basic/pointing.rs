use vstd::prelude::*;
use crate::human_calcs::TechStruct;
use core::marker::PhantomData;
use crate::bitset::traits::BitSetInt;
use crate::bitset::bitset::BitSet;
use crate::grid::grid::house_cells;
use crate::grid::house::House;
use crate::grid::types::{Index, Row, Col, box_of};
use crate::grid::gridcoord::GridCoord;
use crate::human_calcs::basic::candidates::{Candidates, find_candidates, line_house, is_line, in_line_in_box, in_line_out_box, in_box_out_line, lemma_line_box, lemma_run, line_index};
use crate::human_calcs::hints::sound_hint;
use crate::human_calcs::technique::Technique;
use crate::move_change::Move;
use crate::sudoku::sudoku::Sudoku;
use crate::sudoku::access::unique_grid;
use crate::human_calcs::kept::{keeps_solution, sol_sound, gval, house_ok, lemma_house_peers, lemma_sol_possible, lemma_sol_differs};

verus! {

/// Every value the move takes out is possible in the line only inside box `b` (there it
/// is possible) and nowhere else in the box, and is taken out of cells of the line outside
/// the box; no record names a cell twice.  Each cell of the line outside the box that may
/// hold a value pointing from the box has one record, with all such values it may hold; the
/// move names each cell of the line inside the box that may hold one, with those values.
pub open spec fn pointing_removals<V: BitSetInt>(puz: Sudoku<V>, m: Move<V>, line: House<usize>, b: nat) -> bool {
    let l = house_cells(puz.grid.size, line_house(line));
    let ps = pointing_set(puz, line, b);
    &&& forall|k: int| 0 <= k < m.removed_potentials@.len() ==> {
        let p = #[trigger] m.removed_potentials@[k];
        &&& l.contains(p.index.inner_index as nat)
        &&& box_of(puz.grid.size, p.index.inner_index as nat) != b
        &&& forall|x: nat| #[trigger] p.value@.contains(x) ==> in_line_in_box(puz, line, b, x) && !in_box_out_line(puz, line, b, x)
        &&& p.value@ == puz.cells()[p.index.inner_index as int].flags.poss@.intersect(ps)
    }
    &&& forall|k1: int, k2: int| 0 <= k1 < k2 < m.removed_potentials@.len()
        ==> (#[trigger] m.removed_potentials@[k1]).index.inner_index != (#[trigger] m.removed_potentials@[k2]).index.inner_index
    &&& forall|j: int| 0 <= j < l.len() && box_of(puz.grid.size, l[j]) != b
        && !(#[trigger] puz.cells()[l[j] as int]).flags.poss@.disjoint(ps)
        ==> exists|k: int| 0 <= k < m.removed_potentials@.len() && (#[trigger] m.removed_potentials@[k]).index.inner_index == l[j]
    &&& forall|k: int| 0 <= k < m.used_to_solve@.len() ==> {
        let p = #[trigger] m.used_to_solve@[k];
        &&& l.contains(p.index.inner_index as nat)
        &&& box_of(puz.grid.size, p.index.inner_index as nat) == b
        &&& p.value@ == puz.cells()[p.index.inner_index as int].flags.poss@.intersect(ps)
        &&& p.value@ != Set::<nat>::empty()
    }
    &&& forall|j: int| 0 <= j < l.len() && box_of(puz.grid.size, l[j]) == b
        && !(#[trigger] puz.cells()[l[j] as int]).flags.poss@.disjoint(ps)
        ==> exists|k: int| 0 <= k < m.used_to_solve@.len() && (#[trigger] m.used_to_solve@[k]).index.inner_index == l[j]
}

/// The values that point from box `b` along the line.
pub open spec fn pointing_set<V: BitSetInt>(puz: Sudoku<V>, line: House<usize>, b: nat) -> Set<nat> {
    Set::new(|x: nat| points(puz, line, b, x))
}

/// Value `x` points from box `b` along the line: the line can hold it inside the box and
/// outside it, and the box can hold it only in the line.
pub open spec fn points<V: BitSetInt>(puz: Sudoku<V>, line: House<usize>, b: nat, x: nat) -> bool {
    &&& in_line_in_box(puz, line, b, x)
    &&& !in_box_out_line(puz, line, b, x)
    &&& in_line_out_box(puz, line, b, x)
}

/// Pointing candidates: a value that a box holds only in one line lets that line lose the
/// value outside the box.
pub struct PointingCandidate<V: BitSetInt>(pub PhantomData<V>);

impl<V: BitSetInt> PointingCandidate<V> {
    pub fn new() -> (r: Self) {
        PointingCandidate(PhantomData)
    }

    /// The move for the values pointing from box `b` along the line, if any.
    #[verifier::rlimit(60)]
    fn pointing(puz: &Sudoku<V>, candidates: &Candidates<V, Vec<usize>>, b: usize, line: House<usize>) -> (r: Option<Move<V>>)
        requires
            puz.wf(),
            is_line(line, puz.grid.size),
            b < puz.grid.size.spec_house(),
            candidates.extra@ == house_cells(puz.grid.size, line_house(line)).map_values(|x: nat| x as usize),
            forall|x: nat| #[trigger] candidates.box_both@.contains(x) <==> in_line_in_box(*puz, line, b as nat, x),
            forall|x: nat| #[trigger] candidates.outside@.contains(x) <==> in_line_out_box(*puz, line, b as nat, x),
            forall|x: nat| #[trigger] candidates.box_outside@.contains(x) <==> in_box_out_line(*puz, line, b as nat, x),
        ensures
            r matches Some(m) ==> sound_hint(*puz, m, Technique::Pointing) && m.value_set is None
                && pointing_removals(*puz, m, line, b as nat),
            r is None <==> forall|x: nat| !#[trigger] points(*puz, line, b as nat, x),
    {
        let size = puz.grid.size;
        let ghost l = house_cells(size, line_house(line));
        let pointingv = candidates.box_both.difference(candidates.box_outside);
        let pointing = pointingv.intersect(candidates.outside);
        proof {
            assert forall|x: nat| #[trigger] pointing@.contains(x) <==> points(*puz, line, b as nat, x) by {}
            assert(pointing@ =~= pointing_set(*puz, line, b as nat));
        }
        if pointing.eq_set(BitSet::empty()) {
            proof {
                assert forall|x: nat| !#[trigger] points(*puz, line, b as nat, x) by {
                    assert(!pointing@.contains(x));
                }
            }
            return None;
        }
        proof {
            size.lemma_sizes();
            assert forall|j: int| 0 <= j < l.len() implies #[trigger] l[j] < size.spec_total() by {
                crate::grid::grid::lemma_house_cells(size, line_house(line), j);
            }
        }
        let mut themove: Move<V> = Move::new();
        themove.method = Some(Technique::Pointing);
        let indices = &candidates.extra;
        for q in 0..indices.len()
            invariant
                puz.wf(),
                size == puz.grid.size,
                size.spec_total() <= 10000,
                indices@ == l.map_values(|x: nat| x as usize),
                l == house_cells(size, line_house(line)),
                is_line(line, size),
                b < size.spec_house(),
                forall|j: int| 0 <= j < l.len() ==> #[trigger] l[j] < size.spec_total(),
                forall|x: nat| #[trigger] pointing@.contains(x) ==> in_line_in_box(*puz, line, b as nat, x) && !in_box_out_line(*puz, line, b as nat, x),
                themove.method == Some(Technique::Pointing),
                !themove.manual,
                themove.value_set is None,
                forall|k: int| 0 <= k < themove.removed_potentials@.len() ==> {
                    let p = #[trigger] themove.removed_potentials@[k];
                    &&& p.index.inner_index < size.spec_total()
                    &&& p.value@.subset_of(puz.cells()[p.index.inner_index as int].flags.poss@)
                    &&& p.value@ != Set::<nat>::empty()
                    &&& exists|j: int| 0 <= j < q && l[j] == p.index.inner_index
                    &&& box_of(size, p.index.inner_index as nat) != b
                    &&& forall|x: nat| #[trigger] p.value@.contains(x) ==> pointing@.contains(x)
                    &&& p.value@ == puz.cells()[p.index.inner_index as int].flags.poss@.intersect(pointing@)
                },
                pointing@ == pointing_set(*puz, line, b as nat),
                forall|k: int| 0 <= k < themove.used_to_solve@.len() ==> {
                    let p = #[trigger] themove.used_to_solve@[k];
                    &&& exists|j: int| 0 <= j < q && l[j] == p.index.inner_index
                    &&& box_of(size, p.index.inner_index as nat) == b
                    &&& p.value@ == puz.cells()[p.index.inner_index as int].flags.poss@.intersect(pointing@)
                    &&& p.value@ != Set::<nat>::empty()
                },
                forall|j: int| 0 <= j < q && box_of(size, l[j]) != b
                    && !(#[trigger] puz.cells()[l[j] as int]).flags.poss@.disjoint(pointing@)
                    ==> exists|k: int| 0 <= k < themove.removed_potentials@.len() && (#[trigger] themove.removed_potentials@[k]).index.inner_index == l[j],
                forall|j: int| 0 <= j < q && box_of(size, l[j]) == b
                    && !(#[trigger] puz.cells()[l[j] as int]).flags.poss@.disjoint(pointing@)
                    ==> exists|k: int| 0 <= k < themove.used_to_solve@.len() && (#[trigger] themove.used_to_solve@[k]).index.inner_index == l[j],
                forall|k1: int, k2: int| 0 <= k1 < k2 < themove.removed_potentials@.len()
                    ==> (#[trigger] themove.removed_potentials@[k1]).index.inner_index != (#[trigger] themove.removed_potentials@[k2]).index.inner_index,
                (exists|j: int, x: nat| 0 <= j < q && box_of(size, l[j]) != b && pointing@.contains(x)
                    && #[trigger] puz.cells()[l[j] as int].flags.poss@.contains(x))
                    ==> exists|k: int| 0 <= k < themove.removed_potentials@.len() && (#[trigger] themove.removed_potentials@[k]).value@ != Set::<nat>::empty(),
        {
            let idx = indices[q];
            proof { assert(idx == l[q as int]); }
            let values = puz.grid.items[idx].poss().intersect(pointing);
            let ghost ubefore = themove.used_to_solve@;
            let ghost rbefore = themove.removed_potentials@;
            proof {
                if values@ == Set::<nat>::empty() {
                    assert(puz.cells()[l[q as int] as int].flags.poss@.disjoint(pointing@)) by {
                        assert forall|x: nat| puz.cells()[l[q as int] as int].flags.poss@.contains(x) implies !pointing@.contains(x) by {
                            if pointing@.contains(x) {
                                assert(values@.contains(x));
                            }
                        }
                    }
                } else {
                    assert(!puz.cells()[l[q as int] as int].flags.poss@.disjoint(pointing@)) by {
                        let x = values@.choose();
                        if !values@.contains(x) {
                            assert(values@ =~= Set::<nat>::empty());
                        }
                        assert(puz.cells()[l[q as int] as int].flags.poss@.contains(x) && pointing@.contains(x));
                    }
                }
            }
            if !values.eq_set(BitSet::empty()) {
                let this_box = Index::new(idx, size).to_box();
                if this_box.box_num == b {
                    themove.add_used_to_solve(Index::new(idx, size), values);
                    proof {
                        let n = ubefore.len() as int;
                        assert(themove.used_to_solve@[n].index.inner_index == l[q as int]);
                        assert forall|k: int| 0 <= k < n implies #[trigger] themove.used_to_solve@[k] == ubefore[k] by {}
                    }
                } else {
                    let ghost before = themove.removed_potentials@;
                    themove.add_removed_potential(Index::new(idx, size), values);
                    proof {
                        let n = before.len();
                        assert(themove.removed_potentials@[n as int].value@ != Set::<nat>::empty());
                        assert(themove.removed_potentials@[n as int].index.inner_index == l[q as int]);
                        assert forall|k: int| 0 <= k < n implies #[trigger] themove.removed_potentials@[k] == before[k] by {}
                        assert forall|k1: int, k2: int| 0 <= k1 < k2 < themove.removed_potentials@.len()
                            implies (#[trigger] themove.removed_potentials@[k1]).index.inner_index != (#[trigger] themove.removed_potentials@[k2]).index.inner_index by {
                            if k2 == n {
                                let p = themove.removed_potentials@[k1];
                                assert(p == before[k1]);
                                let j = choose|j: int| 0 <= j < q && l[j] == p.index.inner_index;
                                assert(l[j] != l[q as int]) by {
                                    lemma_cells_distinct(size, line_house(line), j, q as int);
                                }
                            } else {
                                assert(themove.removed_potentials@[k1] == before[k1]);
                                assert(themove.removed_potentials@[k2] == before[k2]);
                            }
                        }
                    }
                }
            } else {
                proof {
                    assert forall|x: nat| pointing@.contains(x) implies !puz.cells()[l[q as int] as int].flags.poss@.contains(x) by {
                        if puz.cells()[l[q as int] as int].flags.poss@.contains(x) {
                            assert(values@.contains(x));
                        }
                    }
                }
            }
            proof {
                assert forall|k: int| 0 <= k < ubefore.len() implies #[trigger] themove.used_to_solve@[k] == ubefore[k] by {}
                assert forall|k: int| 0 <= k < rbefore.len() implies #[trigger] themove.removed_potentials@[k] == rbefore[k] by {}
                assert forall|j: int| 0 <= j < q + 1 && box_of(size, l[j]) != b
                    && !(#[trigger] puz.cells()[l[j] as int]).flags.poss@.disjoint(pointing@)
                    implies exists|k: int| 0 <= k < themove.removed_potentials@.len() && (#[trigger] themove.removed_potentials@[k]).index.inner_index == l[j] by {
                    if j == q {
                        assert(themove.removed_potentials@[rbefore.len() as int].index.inner_index == l[j]);
                    } else {
                        let k = choose|k: int| 0 <= k < rbefore.len() && (#[trigger] rbefore[k]).index.inner_index == l[j];
                        assert(themove.removed_potentials@[k] == rbefore[k]);
                    }
                }
                assert forall|j: int| 0 <= j < q + 1 && box_of(size, l[j]) == b
                    && !(#[trigger] puz.cells()[l[j] as int]).flags.poss@.disjoint(pointing@)
                    implies exists|k: int| 0 <= k < themove.used_to_solve@.len() && (#[trigger] themove.used_to_solve@[k]).index.inner_index == l[j] by {
                    if j == q {
                        assert(themove.used_to_solve@[ubefore.len() as int].index.inner_index == l[j]);
                    } else {
                        let k = choose|k: int| 0 <= k < ubefore.len() && (#[trigger] ubefore[k]).index.inner_index == l[j];
                        assert(themove.used_to_solve@[k] == ubefore[k]);
                    }
                }
            }
        }
        proof {
            let x = pointing@.choose();
            assert(pointing@.contains(x)) by {
                assert(pointing@ != Set::<nat>::empty());
                if !pointing@.contains(x) {
                    assert(pointing@ =~= Set::<nat>::empty());
                }
            }
            assert(candidates.outside@.contains(x));
            assert(in_line_out_box(*puz, line, b as nat, x));
            let j = choose|j: int| 0 <= j < l.len() && box_of(size, l[j]) != b && #[trigger] puz.cells()[l[j] as int].flags.poss@.contains(x);
            assert(0 <= j < indices.len() && box_of(size, l[j]) != b && pointing@.contains(x) && puz.cells()[l[j] as int].flags.poss@.contains(x));
            assert forall|k: int| 0 <= k < themove.used_to_solve@.len() implies
                l.contains((#[trigger] themove.used_to_solve@[k]).index.inner_index as nat) by {
                let j2 = choose|j2: int| 0 <= j2 < l.len() && l[j2] == themove.used_to_solve@[k].index.inner_index;
                assert(l[j2] == themove.used_to_solve@[k].index.inner_index as nat);
            }
        }
        Some(themove)
    }

    /// The first pointing move along the line (a row or a column), trying its boxes in
    /// order; `None` when there is none.
    pub fn pointing_candidate(puz: &Sudoku<V>, dir: &House<usize>) -> (r: Option<Move<V>>)
        requires
            puz.wf(),
            is_line(*dir, puz.grid.size),
        ensures
            r matches Some(m) ==> sound_hint(*puz, m, Technique::Pointing) && m.value_set is None
                && exists|b: nat| b < puz.grid.size.spec_house() && #[trigger] pointing_removals(*puz, m, *dir, b),
            r is None ==> forall|b: nat, x: nat| !#[trigger] points(*puz, *dir, b, x),
    {
        let size = puz.grid.size;
        let w = puz.box_dimension();
        let ghost l = house_cells(size, line_house(*dir));
        proof { size.lemma_sizes(); }
        for step in 0..w
            invariant
                puz.wf(),
                size == puz.grid.size,
                w == size.spec_size(),
                is_line(*dir, size),
                l == house_cells(size, line_house(*dir)),
                forall|k: int, x: nat| 0 <= k < step * w ==> !#[trigger] points(*puz, *dir, box_of(size, l[k]), x),
        {
            proof {
                assert(step * w < w * w) by (nonlinear_arith)
                    requires step < w;
            }
            let amove = match dir {
                House::Row(n) => {
                    let row = Row::new(*n, step * w, size);
                    let base_box = row.to_box();
                    let cands = find_candidates(puz, House::Row(*n), base_box.box_num);
                    Self::pointing(puz, &cands, base_box.box_num, House::Row(*n))
                },
                House::Col(n) => {
                    let col = Col::new(*n, step * w, size);
                    let base_box = col.to_box();
                    let cands = find_candidates(puz, House::Col(*n), base_box.box_num);
                    Self::pointing(puz, &cands, base_box.box_num, House::Col(*n))
                },
                House::Box(_) => None,
            };
            if amove.is_some() {
                return amove;
            }
            proof {
                let bs = box_of(size, l[(step * w) as int]);
                assert(bs == box_of(size, l[(step * w) as int]));
                assert forall|k: int, x: nat| 0 <= k < (step + 1) * w implies !#[trigger] points(*puz, *dir, box_of(size, l[k]), x) by {
                    if k >= step * w {
                        assert((step + 1) * w == step * w + w) by (nonlinear_arith);
                        assert((step + 1) * w <= w * w) by (nonlinear_arith)
                            requires step < w;
                        lemma_run(w as int, step as int, k);
                        lemma_line_box(size, *dir, k);
                    }
                }
            }
        }
        proof {
            assert forall|b: nat, x: nat| !#[trigger] points(*puz, *dir, b, x) by {
                if points(*puz, *dir, b, x) {
                    let k = choose|k: int| 0 <= k < l.len() && box_of(size, l[k]) == b && #[trigger] puz.cells()[l[k] as int].flags.poss@.contains(x);
                    assert(w * w == size.spec_house());
                    assert(!points(*puz, *dir, box_of(size, l[k]), x));
                }
            }
        }
        None
    }

    /// Every pointing move found along rows and columns 0, 1, ...; `None` when there is none.
    pub fn _hint(&self, puz: &Sudoku<V>) -> (r: Option<Vec<Move<V>>>)
        requires
            puz.wf(),
        ensures
            r matches Some(v) ==> v.len() > 0 && forall|k: int| 0 <= k < v.len() ==> sound_hint(*puz, #[trigger] v[k], Technique::Pointing)
                && v[k].value_set is None
                && exists|l: House<usize>, b: nat| is_line(l, puz.grid.size) && b < puz.grid.size.spec_house()
                    && #[trigger] pointing_removals(*puz, v[k], l, b),
            r is None ==> forall|l: House<usize>, b: nat, x: nat| is_line(l, puz.grid.size) ==> !#[trigger] points(*puz, l, b, x),
    {
        let mut found: Vec<Move<V>> = Vec::new();
        let house = puz.house_size();
        for step in 0..house
            invariant
                puz.wf(),
                house == puz.grid.size.spec_house(),
                found.len() == 0 ==> forall|l: House<usize>, b: nat, x: nat| is_line(l, puz.grid.size)
                    && line_index(l) < step ==> !#[trigger] points(*puz, l, b, x),
                forall|k: int| 0 <= k < found.len() ==> sound_hint(*puz, #[trigger] found[k], Technique::Pointing)
                    && found[k].value_set is None
                    && exists|l: House<usize>, b: nat| is_line(l, puz.grid.size) && b < puz.grid.size.spec_house()
                        && #[trigger] pointing_removals(*puz, found[k], l, b),
        {
            let row = House::Row(step);
            if let Some(h) = Self::pointing_candidate(puz, &row) {
                found.push(h);
            }
            let col = House::Col(step);
            if let Some(h) = Self::pointing_candidate(puz, &col) {
                found.push(h);
            }
        }
        proof {
            if found.len() == 0 {
                assert forall|l: House<usize>, b: nat, x: nat| is_line(l, puz.grid.size) implies !#[trigger] points(*puz, l, b, x) by {
                    assert(line_index(l) < house);
                }
            }
        }
        if found.len() == 0 {
            None
        } else {
            Some(found)
        }
    }
}


/// Two places of a house hold two different cells.
pub proof fn lemma_cells_distinct(size: crate::sudokusize::SudokuSize, h: House<nat>, a: int, b: int)
    requires
        0 <= a < size.spec_house(),
        0 <= b < size.spec_house(),
        a != b,
        match h {
            House::Row(n) => n < size.spec_house(),
            House::Col(n) => n < size.spec_house(),
            House::Box(n) => n < size.spec_house(),
        },
    ensures
        house_cells(size, h)[a] != house_cells(size, h)[b],
{
    match h {
        House::Row(n) => {
            crate::grid::gridcoord::lemma_rc(size, n, a as nat);
            crate::grid::gridcoord::lemma_rc(size, n, b as nat);
        },
        House::Col(n) => {
            crate::grid::gridcoord::lemma_rc(size, a as nat, n);
            crate::grid::gridcoord::lemma_rc(size, b as nat, n);
        },
        House::Box(n) => {
            crate::grid::gridcoord::lemma_box_cell(size, n, a as nat);
            crate::grid::gridcoord::lemma_box_cell(size, n, b as nat);
        },
    }
}

/// A pointing move takes out of a cell no value that the unique solution puts there.
pub proof fn lemma_pointing_sound<V: BitSetInt>(puz: Sudoku<V>, m: Move<V>, line: House<usize>, b: nat)
    requires
        puz.wf(),
        keeps_solution(puz),
        is_line(line, puz.grid.size),
        b < puz.grid.size.spec_house(),
        m.value_set is None,
        pointing_removals(puz, m, line, b),
    ensures
        sol_sound(puz, m),
{
    let g = unique_grid(puz.solution)->Some_0;
    let size = puz.grid.size;
    let lh = line_house(line);
    let l = house_cells(size, lh);
    let bx = house_cells(size, House::Box(b));
    assert(house_ok(size, lh));
    assert forall|k: int, x: nat| 0 <= k < m.removed_potentials@.len() && #[trigger] m.removed_potentials@[k].value@.contains(x)
        implies x != gval(g, m.removed_potentials@[k].index.inner_index as int) by {
        let p = m.removed_potentials@[k];
        let c = p.index.inner_index as int;
        assert(in_line_in_box(puz, line, b, x) && !in_box_out_line(puz, line, b, x));
        let ke = choose|ke: int| 0 <= ke < l.len() && box_of(size, l[ke]) == b && #[trigger] puz.cells()[l[ke] as int].flags.poss@.contains(x);
        let e = l[ke];
        lemma_house_peers(size, lh, ke, ke);
        crate::sudoku::state::lemma_box_place(size, e);
        let k0 = crate::grid::types::box_offset(size, e) as int;
        assert(bx[k0] == e);
        let q = lemma_sol_possible(puz, House::Box(b), k0, x);
        let d = bx[q];
        assert(l.contains(d)) by {
            if !l.contains(d) {
                assert(in_box_out_line(puz, line, b, x));
            }
        }
        let kd = choose|kd: int| 0 <= kd < l.len() && l[kd] == d;
        assert(l.contains(c as nat));
        let kc = choose|kc: int| 0 <= kc < l.len() && l[kc] == c as nat;
        crate::grid::gridcoord::lemma_box_cell(size, b, q as nat);
        lemma_house_peers(size, lh, kc, kd);
        lemma_sol_differs(puz, c, d as int);
    }
}

impl<V: BitSetInt> TechStruct<V> for PointingCandidate<V> {
    open spec fn spec_technique(&self) -> Technique {
        Technique::Pointing
    }

    /// No hint of the technique: no value of a box lies in one line only, with the line holding it outside the box.
    open spec fn spec_finds_nothing(&self, puz: Sudoku<V>) -> bool {
        forall|l: House<usize>, b: nat, x: nat| is_line(l, puz.grid.size) ==> !#[trigger] points(puz, l, b, x)
    }

    /// The first pointing move found, as the human solver asks for it.
    fn tech_hint(&self, puz: &Sudoku<V>) -> (r: Option<Move<V>>)
        ensures
            r matches Some(m) ==> sound_hint(*puz, m, Technique::Pointing),
            r is None ==> forall|l: House<usize>, b: nat, x: nat| is_line(l, puz.grid.size) ==> !#[trigger] points(*puz, l, b, x),
    {
        match self._hint(puz) {
            Some(v) => {
                let first = v[0].clone_move();
                proof {
                    assert(sound_hint(*puz, v[0], Technique::Pointing));
                    if keeps_solution(*puz) {
                        let m = v[0];
                        assert(exists|l: House<usize>, b: nat| is_line(l, puz.grid.size) && b < puz.grid.size.spec_house()
                            && #[trigger] pointing_removals(*puz, m, l, b));
                        let (l, b) = choose|l: House<usize>, b: nat| is_line(l, puz.grid.size) && b < puz.grid.size.spec_house()
                            && #[trigger] pointing_removals(*puz, m, l, b);
                        lemma_pointing_sound(*puz, m, l, b);
                    }
                }
                Some(first)
            },
            None => None,
        }
    }
}

} // verus!
