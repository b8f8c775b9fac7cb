use vstd::prelude::*;
use crate::human_calcs::TechStruct;
use core::marker::PhantomData;
use crate::bitset::traits::BitSetInt;
use crate::bitset::bitset::BitSet;
use crate::grid::grid::house_cells;
use crate::grid::house::House;
use crate::grid::types::{Index, Row, Col, box_of};
use crate::grid::gridcoord::GridCoord;
use crate::human_calcs::basic::candidates::{Candidates, find_candidates, vec_contains, line_house, is_line, in_line_in_box, in_line_out_box, in_box_out_line, lemma_line_box, lemma_run, line_index};
use crate::human_calcs::basic::pointing::lemma_cells_distinct;
use crate::human_calcs::hints::sound_hint;
use crate::human_calcs::technique::Technique;
use crate::move_change::Move;
use crate::sudoku::sudoku::Sudoku;
use crate::sudoku::access::unique_grid;
use crate::human_calcs::kept::{keeps_solution, sol_sound, gval, house_ok, lemma_house_peers, lemma_sol_possible, lemma_sol_differs};

verus! {

/// Every value the move takes out is possible in the line only inside box `b` (there it
/// is possible), and is taken out of cells of the box outside the line; no record names a
/// cell twice.  Each cell of the box outside the line that may hold a value the line claims
/// has one record, with all such values it may hold; the move names each cell of the box in
/// the line that may hold one, with those values.
pub open spec fn claiming_removals<V: BitSetInt>(puz: Sudoku<V>, m: Move<V>, line: House<usize>, b: nat) -> bool {
    let l = house_cells(puz.grid.size, line_house(line));
    let bx = house_cells(puz.grid.size, House::Box(b));
    let cs = claiming_set(puz, line, b);
    &&& forall|k: int| 0 <= k < m.removed_potentials@.len() ==> {
        let p = #[trigger] m.removed_potentials@[k];
        &&& bx.contains(p.index.inner_index as nat)
        &&& !l.contains(p.index.inner_index as nat)
        &&& forall|x: nat| #[trigger] p.value@.contains(x) ==> in_line_in_box(puz, line, b, x) && !in_line_out_box(puz, line, b, x)
        &&& p.value@ == puz.cells()[p.index.inner_index as int].flags.poss@.intersect(cs)
    }
    &&& forall|k1: int, k2: int| 0 <= k1 < k2 < m.removed_potentials@.len()
        ==> (#[trigger] m.removed_potentials@[k1]).index.inner_index != (#[trigger] m.removed_potentials@[k2]).index.inner_index
    &&& forall|j: int| 0 <= j < bx.len() && !l.contains(bx[j])
        && !(#[trigger] puz.cells()[bx[j] as int]).flags.poss@.disjoint(cs)
        ==> exists|k: int| 0 <= k < m.removed_potentials@.len() && (#[trigger] m.removed_potentials@[k]).index.inner_index == bx[j]
    &&& forall|k: int| 0 <= k < m.used_to_solve@.len() ==> {
        let p = #[trigger] m.used_to_solve@[k];
        &&& bx.contains(p.index.inner_index as nat)
        &&& l.contains(p.index.inner_index as nat)
        &&& p.value@ == puz.cells()[p.index.inner_index as int].flags.poss@.intersect(cs)
        &&& p.value@ != Set::<nat>::empty()
    }
    &&& forall|j: int| 0 <= j < bx.len() && l.contains(bx[j])
        && !(#[trigger] puz.cells()[bx[j] as int]).flags.poss@.disjoint(cs)
        ==> exists|k: int| 0 <= k < m.used_to_solve@.len() && (#[trigger] m.used_to_solve@[k]).index.inner_index == bx[j]
}

/// The values that the line claims for box `b`.
pub open spec fn claiming_set<V: BitSetInt>(puz: Sudoku<V>, line: House<usize>, b: nat) -> Set<nat> {
    Set::new(|x: nat| claims(puz, line, b, x))
}

/// The line claims value `x` for box `b`: the line can hold it only inside the box, and the
/// box can hold it outside the line too.
pub open spec fn claims<V: BitSetInt>(puz: Sudoku<V>, line: House<usize>, b: nat, x: nat) -> bool {
    &&& in_line_in_box(puz, line, b, x)
    &&& !in_line_out_box(puz, line, b, x)
    &&& in_box_out_line(puz, line, b, x)
}

/// Claiming candidates: a value that a line holds only inside one box lets the rest of the
/// box lose the value.
pub struct ClaimingCandidate<V: BitSetInt>(pub PhantomData<V>);

impl<V: BitSetInt> ClaimingCandidate<V> {
    pub fn new() -> (r: Self) {
        ClaimingCandidate(PhantomData)
    }

    /// The move for the values the line claims for box `b`, if any.
    #[verifier::rlimit(60)]
    fn claiming(puz: &Sudoku<V>, candidates: &Candidates<V, Vec<usize>>, b: usize, line: House<usize>) -> (r: Option<Move<V>>)
        requires
            puz.wf(),
            is_line(line, puz.grid.size),
            b < puz.grid.size.spec_house(),
            candidates.extra@ == house_cells(puz.grid.size, line_house(line)).map_values(|x: nat| x as usize),
            forall|x: nat| #[trigger] candidates.box_both@.contains(x) <==> in_line_in_box(*puz, line, b as nat, x),
            forall|x: nat| #[trigger] candidates.outside@.contains(x) <==> in_line_out_box(*puz, line, b as nat, x),
            forall|x: nat| #[trigger] candidates.box_outside@.contains(x) <==> in_box_out_line(*puz, line, b as nat, x),
        ensures
            r matches Some(m) ==> sound_hint(*puz, m, Technique::Claiming) && m.value_set is None
                && claiming_removals(*puz, m, line, b as nat),
            r is None <==> forall|x: nat| !#[trigger] claims(*puz, line, b as nat, x),
    {
        let size = puz.grid.size;
        let ghost l = house_cells(size, line_house(line));
        let ghost bx = house_cells(size, House::Box(b as nat));
        let poss_claiming = candidates.box_both.difference(candidates.outside);
        let claiming = poss_claiming.intersect(candidates.box_outside);
        proof {
            assert forall|x: nat| #[trigger] claiming@.contains(x) <==> claims(*puz, line, b as nat, x) by {}
            assert(claiming@ =~= claiming_set(*puz, line, b as nat));
        }
        if claiming.eq_set(BitSet::empty()) {
            proof {
                assert forall|x: nat| !#[trigger] claims(*puz, line, b as nat, x) by {
                    assert(!claiming@.contains(x));
                }
            }
            return None;
        }
        proof {
            size.lemma_sizes();
            assert forall|j: int| 0 <= j < bx.len() implies #[trigger] bx[j] < size.spec_total() by {
                crate::grid::grid::lemma_house_cells(size, House::Box(b as nat), j);
            }
            assert forall|j: int| 0 <= j < l.len() implies #[trigger] l[j] < size.spec_total() by {
                crate::grid::grid::lemma_house_cells(size, line_house(line), j);
            }
        }
        let mut themove: Move<V> = Move::new();
        themove.method = Some(Technique::Claiming);
        let box_cells = puz.house_iter(House::Box(b));
        for q in 0..box_cells.len()
            invariant
                puz.wf(),
                size == puz.grid.size,
                size.spec_total() <= 10000,
                box_cells@ == bx.map_values(|x: nat| x as usize),
                candidates.extra@ == l.map_values(|x: nat| x as usize),
                bx == house_cells(size, House::Box(b as nat)),
                l == house_cells(size, line_house(line)),
                is_line(line, size),
                b < size.spec_house(),
                forall|j: int| 0 <= j < bx.len() ==> #[trigger] bx[j] < size.spec_total(),
                forall|j: int| 0 <= j < l.len() ==> #[trigger] l[j] < size.spec_total(),
                forall|x: nat| #[trigger] claiming@.contains(x) ==> in_line_in_box(*puz, line, b as nat, x) && !in_line_out_box(*puz, line, b as nat, x)
                    && in_box_out_line(*puz, line, b as nat, x),
                themove.method == Some(Technique::Claiming),
                !themove.manual,
                themove.value_set is None,
                forall|k: int| 0 <= k < themove.removed_potentials@.len() ==> {
                    let p = #[trigger] themove.removed_potentials@[k];
                    &&& p.index.inner_index < size.spec_total()
                    &&& p.value@.subset_of(puz.cells()[p.index.inner_index as int].flags.poss@)
                    &&& p.value@ != Set::<nat>::empty()
                    &&& exists|j: int| 0 <= j < q && bx[j] == p.index.inner_index
                    &&& !l.contains(p.index.inner_index as nat)
                    &&& forall|x: nat| #[trigger] p.value@.contains(x) ==> claiming@.contains(x)
                    &&& p.value@ == puz.cells()[p.index.inner_index as int].flags.poss@.intersect(claiming@)
                },
                claiming@ == claiming_set(*puz, line, b as nat),
                forall|k: int| 0 <= k < themove.used_to_solve@.len() ==> {
                    let p = #[trigger] themove.used_to_solve@[k];
                    &&& exists|j: int| 0 <= j < q && bx[j] == p.index.inner_index
                    &&& l.contains(p.index.inner_index as nat)
                    &&& p.value@ == puz.cells()[p.index.inner_index as int].flags.poss@.intersect(claiming@)
                    &&& p.value@ != Set::<nat>::empty()
                },
                forall|j: int| 0 <= j < q && !l.contains(bx[j])
                    && !(#[trigger] puz.cells()[bx[j] as int]).flags.poss@.disjoint(claiming@)
                    ==> exists|k: int| 0 <= k < themove.removed_potentials@.len() && (#[trigger] themove.removed_potentials@[k]).index.inner_index == bx[j],
                forall|j: int| 0 <= j < q && l.contains(bx[j])
                    && !(#[trigger] puz.cells()[bx[j] as int]).flags.poss@.disjoint(claiming@)
                    ==> exists|k: int| 0 <= k < themove.used_to_solve@.len() && (#[trigger] themove.used_to_solve@[k]).index.inner_index == bx[j],
                forall|k1: int, k2: int| 0 <= k1 < k2 < themove.removed_potentials@.len()
                    ==> (#[trigger] themove.removed_potentials@[k1]).index.inner_index != (#[trigger] themove.removed_potentials@[k2]).index.inner_index,
                (exists|j: int, x: nat| 0 <= j < q && !l.contains(bx[j]) && claiming@.contains(x)
                    && #[trigger] puz.cells()[bx[j] as int].flags.poss@.contains(x))
                    ==> exists|k: int| 0 <= k < themove.removed_potentials@.len() && (#[trigger] themove.removed_potentials@[k]).value@ != Set::<nat>::empty(),
        {
            let idx = box_cells[q];
            proof { assert(idx == bx[q as int]); }
            let values = puz.grid.items[idx].poss().intersect(claiming);
            let inside = vec_contains(&candidates.extra, idx);
            proof {
                if candidates.extra@.contains(idx) {
                    let k = choose|k: int| 0 <= k < candidates.extra@.len() && candidates.extra@[k] == idx;
                    assert(l[k] == bx[q as int]);
                    assert(l.contains(bx[q as int]));
                }
                if l.contains(bx[q as int]) {
                    let k = choose|k: int| 0 <= k < l.len() && l[k] == bx[q as int];
                    assert(candidates.extra@[k] == idx);
                }
            }
            let ghost ubefore = themove.used_to_solve@;
            let ghost rbefore = themove.removed_potentials@;
            proof {
                if values@ == Set::<nat>::empty() {
                    assert(puz.cells()[bx[q as int] as int].flags.poss@.disjoint(claiming@)) by {
                        assert forall|x: nat| puz.cells()[bx[q as int] as int].flags.poss@.contains(x) implies !claiming@.contains(x) by {
                            if claiming@.contains(x) {
                                assert(values@.contains(x));
                            }
                        }
                    }
                } else {
                    assert(!puz.cells()[bx[q as int] as int].flags.poss@.disjoint(claiming@)) by {
                        let x = values@.choose();
                        if !values@.contains(x) {
                            assert(values@ =~= Set::<nat>::empty());
                        }
                        assert(puz.cells()[bx[q as int] as int].flags.poss@.contains(x) && claiming@.contains(x));
                    }
                }
            }
            if !values.eq_set(BitSet::empty()) {
                if inside {
                    themove.add_used_to_solve(Index::new(idx, size), values);
                    proof {
                        let n = ubefore.len() as int;
                        assert(themove.used_to_solve@[n].index.inner_index == bx[q as int]);
                        assert forall|k: int| 0 <= k < n implies #[trigger] themove.used_to_solve@[k] == ubefore[k] by {}
                    }
                } else {
                    let ghost before = themove.removed_potentials@;
                    themove.add_removed_potential(Index::new(idx, size), values);
                    proof {
                        let n = before.len();
                        assert(themove.removed_potentials@[n as int].value@ != Set::<nat>::empty());
                        assert(themove.removed_potentials@[n as int].index.inner_index == bx[q as int]);
                        assert forall|k: int| 0 <= k < n implies #[trigger] themove.removed_potentials@[k] == before[k] by {}
                        assert forall|k1: int, k2: int| 0 <= k1 < k2 < themove.removed_potentials@.len()
                            implies (#[trigger] themove.removed_potentials@[k1]).index.inner_index != (#[trigger] themove.removed_potentials@[k2]).index.inner_index by {
                            if k2 == n {
                                let p = themove.removed_potentials@[k1];
                                assert(p == before[k1]);
                                let j = choose|j: int| 0 <= j < q && bx[j] == p.index.inner_index;
                                assert(bx[j] != bx[q as int]) by {
                                    lemma_cells_distinct(size, House::Box(b as nat), j, q as int);
                                }
                            } else {
                                assert(themove.removed_potentials@[k1] == before[k1]);
                                assert(themove.removed_potentials@[k2] == before[k2]);
                            }
                        }
                    }
                }
            } else {
                proof {
                    assert forall|x: nat| claiming@.contains(x) implies !puz.cells()[bx[q as int] as int].flags.poss@.contains(x) by {
                        if puz.cells()[bx[q as int] as int].flags.poss@.contains(x) {
                            assert(values@.contains(x));
                        }
                    }
                }
            }
            proof {
                assert forall|k: int| 0 <= k < ubefore.len() implies #[trigger] themove.used_to_solve@[k] == ubefore[k] by {}
                assert forall|k: int| 0 <= k < rbefore.len() implies #[trigger] themove.removed_potentials@[k] == rbefore[k] by {}
                assert forall|j: int| 0 <= j < q + 1 && !l.contains(bx[j])
                    && !(#[trigger] puz.cells()[bx[j] as int]).flags.poss@.disjoint(claiming@)
                    implies exists|k: int| 0 <= k < themove.removed_potentials@.len() && (#[trigger] themove.removed_potentials@[k]).index.inner_index == bx[j] by {
                    if j == q {
                        assert(themove.removed_potentials@[rbefore.len() as int].index.inner_index == bx[j]);
                    } else {
                        let k = choose|k: int| 0 <= k < rbefore.len() && (#[trigger] rbefore[k]).index.inner_index == bx[j];
                        assert(themove.removed_potentials@[k] == rbefore[k]);
                    }
                }
                assert forall|j: int| 0 <= j < q + 1 && l.contains(bx[j])
                    && !(#[trigger] puz.cells()[bx[j] as int]).flags.poss@.disjoint(claiming@)
                    implies exists|k: int| 0 <= k < themove.used_to_solve@.len() && (#[trigger] themove.used_to_solve@[k]).index.inner_index == bx[j] by {
                    if j == q {
                        assert(themove.used_to_solve@[ubefore.len() as int].index.inner_index == bx[j]);
                    } else {
                        let k = choose|k: int| 0 <= k < ubefore.len() && (#[trigger] ubefore[k]).index.inner_index == bx[j];
                        assert(themove.used_to_solve@[k] == ubefore[k]);
                    }
                }
            }
        }
        proof {
            let x = claiming@.choose();
            assert(claiming@.contains(x)) by {
                assert(claiming@ != Set::<nat>::empty());
                if !claiming@.contains(x) {
                    assert(claiming@ =~= Set::<nat>::empty());
                }
            }
            assert(in_box_out_line(*puz, line, b as nat, x));
            let j = choose|j: int| 0 <= j < bx.len() && !l.contains(bx[j]) && #[trigger] puz.cells()[bx[j] as int].flags.poss@.contains(x);
            assert(0 <= j < box_cells.len() && !l.contains(bx[j]) && claiming@.contains(x) && puz.cells()[bx[j] as int].flags.poss@.contains(x));
            assert forall|k: int| 0 <= k < themove.used_to_solve@.len() implies
                bx.contains((#[trigger] themove.used_to_solve@[k]).index.inner_index as nat) by {
                let j2 = choose|j2: int| 0 <= j2 < bx.len() && bx[j2] == themove.used_to_solve@[k].index.inner_index;
                assert(bx[j2] == themove.used_to_solve@[k].index.inner_index as nat);
            }
            assert forall|k: int| 0 <= k < themove.removed_potentials@.len() implies
                bx.contains((#[trigger] themove.removed_potentials@[k]).index.inner_index as nat) by {
                let j2 = choose|j2: int| 0 <= j2 < bx.len() && bx[j2] == themove.removed_potentials@[k].index.inner_index;
                assert(bx[j2] == themove.removed_potentials@[k].index.inner_index as nat);
            }
        }
        Some(themove)
    }

    /// The first claiming move along the line (a row or a column), trying its boxes in
    /// order; `None` when there is none.
    pub fn claiming_candidate(puz: &Sudoku<V>, dir: &House<usize>) -> (r: Option<Move<V>>)
        requires
            puz.wf(),
            is_line(*dir, puz.grid.size),
        ensures
            r matches Some(m) ==> sound_hint(*puz, m, Technique::Claiming) && m.value_set is None
                && exists|b: nat| b < puz.grid.size.spec_house() && #[trigger] claiming_removals(*puz, m, *dir, b),
            r is None ==> forall|b: nat, x: nat| !#[trigger] claims(*puz, *dir, b, x),
    {
        let size = puz.grid.size;
        let w = puz.box_dimension();
        let ghost l = house_cells(size, line_house(*dir));
        proof { size.lemma_sizes(); }
        for step in 0..w
            invariant
                puz.wf(),
                size == puz.grid.size,
                w == size.spec_size(),
                is_line(*dir, size),
                l == house_cells(size, line_house(*dir)),
                forall|k: int, x: nat| 0 <= k < step * w ==> !#[trigger] claims(*puz, *dir, box_of(size, l[k]), x),
        {
            proof {
                assert(step * w < w * w) by (nonlinear_arith)
                    requires step < w;
            }
            let amove = match dir {
                House::Row(n) => {
                    let row = Row::new(*n, step * w, size);
                    let base_box = row.to_box();
                    let cands = find_candidates(puz, House::Row(*n), base_box.box_num);
                    Self::claiming(puz, &cands, base_box.box_num, House::Row(*n))
                },
                House::Col(n) => {
                    let col = Col::new(*n, step * w, size);
                    let base_box = col.to_box();
                    let cands = find_candidates(puz, House::Col(*n), base_box.box_num);
                    Self::claiming(puz, &cands, base_box.box_num, House::Col(*n))
                },
                House::Box(_) => None,
            };
            if amove.is_some() {
                return amove;
            }
            proof {
                assert forall|k: int, x: nat| 0 <= k < (step + 1) * w implies !#[trigger] claims(*puz, *dir, box_of(size, l[k]), x) by {
                    if k >= step * w {
                        assert((step + 1) * w == step * w + w) by (nonlinear_arith);
                        assert((step + 1) * w <= w * w) by (nonlinear_arith)
                            requires step < w;
                        lemma_run(w as int, step as int, k);
                        lemma_line_box(size, *dir, k);
                    }
                }
            }
        }
        proof {
            assert forall|b: nat, x: nat| !#[trigger] claims(*puz, *dir, b, x) by {
                if claims(*puz, *dir, b, x) {
                    let k = choose|k: int| 0 <= k < l.len() && box_of(size, l[k]) == b && #[trigger] puz.cells()[l[k] as int].flags.poss@.contains(x);
                    assert(w * w == size.spec_house());
                    assert(!claims(*puz, *dir, box_of(size, l[k]), x));
                }
            }
        }
        None
    }

    /// Every claiming move found along rows and columns 0, 1, ...; `None` when there is none.
    pub fn _hint(&self, puz: &Sudoku<V>) -> (r: Option<Vec<Move<V>>>)
        requires
            puz.wf(),
        ensures
            r matches Some(v) ==> v.len() > 0 && forall|k: int| 0 <= k < v.len() ==> sound_hint(*puz, #[trigger] v[k], Technique::Claiming)
                && v[k].value_set is None
                && exists|l: House<usize>, b: nat| is_line(l, puz.grid.size) && b < puz.grid.size.spec_house()
                    && #[trigger] claiming_removals(*puz, v[k], l, b),
            r is None ==> forall|l: House<usize>, b: nat, x: nat| is_line(l, puz.grid.size) ==> !#[trigger] claims(*puz, l, b, x),
    {
        let mut found: Vec<Move<V>> = Vec::new();
        let house = puz.house_size();
        for step in 0..house
            invariant
                puz.wf(),
                house == puz.grid.size.spec_house(),
                found.len() == 0 ==> forall|l: House<usize>, b: nat, x: nat| is_line(l, puz.grid.size)
                    && line_index(l) < step ==> !#[trigger] claims(*puz, l, b, x),
                forall|k: int| 0 <= k < found.len() ==> sound_hint(*puz, #[trigger] found[k], Technique::Claiming)
                    && found[k].value_set is None
                    && exists|l: House<usize>, b: nat| is_line(l, puz.grid.size) && b < puz.grid.size.spec_house()
                        && #[trigger] claiming_removals(*puz, found[k], l, b),
        {
            let row = House::Row(step);
            if let Some(h) = Self::claiming_candidate(puz, &row) {
                found.push(h);
            }
            let col = House::Col(step);
            if let Some(h) = Self::claiming_candidate(puz, &col) {
                found.push(h);
            }
        }
        proof {
            if found.len() == 0 {
                assert forall|l: House<usize>, b: nat, x: nat| is_line(l, puz.grid.size) implies !#[trigger] claims(*puz, l, b, x) by {
                    assert(line_index(l) < house);
                }
            }
        }
        if found.len() == 0 {
            None
        } else {
            Some(found)
        }
    }

}

/// A claiming move takes out of a cell no value that the unique solution puts there.
pub proof fn lemma_claiming_sound<V: BitSetInt>(puz: Sudoku<V>, m: Move<V>, line: House<usize>, b: nat)
    requires
        puz.wf(),
        keeps_solution(puz),
        is_line(line, puz.grid.size),
        b < puz.grid.size.spec_house(),
        m.value_set is None,
        claiming_removals(puz, m, line, b),
    ensures
        sol_sound(puz, m),
{
    let g = unique_grid(puz.solution)->Some_0;
    let size = puz.grid.size;
    let lh = line_house(line);
    let l = house_cells(size, lh);
    let bx = house_cells(size, House::Box(b));
    assert(house_ok(size, lh));
    assert(house_ok(size, House::Box(b)));
    assert forall|k: int, x: nat| 0 <= k < m.removed_potentials@.len() && #[trigger] m.removed_potentials@[k].value@.contains(x)
        implies x != gval(g, m.removed_potentials@[k].index.inner_index as int) by {
        let p = m.removed_potentials@[k];
        let c = p.index.inner_index as int;
        assert(in_line_in_box(puz, line, b, x) && !in_line_out_box(puz, line, b, x));
        let ke = choose|ke: int| 0 <= ke < l.len() && box_of(size, l[ke]) == b && #[trigger] puz.cells()[l[ke] as int].flags.poss@.contains(x);
        let q = lemma_sol_possible(puz, lh, ke, x);
        let d = l[q];
        assert(box_of(size, d) == b) by {
            if box_of(size, d) != b {
                assert(in_line_out_box(puz, line, b, x));
            }
        }
        lemma_house_peers(size, lh, q, q);
        crate::sudoku::state::lemma_box_place(size, d);
        let kd = crate::grid::types::box_offset(size, d) as int;
        assert(bx[kd] == d);
        assert(bx.contains(c as nat));
        let kc = choose|kc: int| 0 <= kc < bx.len() && bx[kc] == c as nat;
        assert(c != d as int) by {
            assert(l.contains(d));
        }
        lemma_house_peers(size, House::Box(b), kc, kd);
        lemma_sol_differs(puz, c, d as int);
    }
}

impl<V: BitSetInt> TechStruct<V> for ClaimingCandidate<V> {
    open spec fn spec_technique(&self) -> Technique {
        Technique::Claiming
    }

    /// No hint of the technique: no value of a line lies in one box only, with the box holding it outside the line.
    open spec fn spec_finds_nothing(&self, puz: Sudoku<V>) -> bool {
        forall|l: House<usize>, b: nat, x: nat| is_line(l, puz.grid.size) ==> !#[trigger] claims(puz, l, b, x)
    }

    /// The first claiming move found, as the human solver asks for it.
    fn tech_hint(&self, puz: &Sudoku<V>) -> (r: Option<Move<V>>)
        ensures
            r matches Some(m) ==> sound_hint(*puz, m, Technique::Claiming),
            r is None ==> forall|l: House<usize>, b: nat, x: nat| is_line(l, puz.grid.size) ==> !#[trigger] claims(*puz, l, b, x),
    {
        match self._hint(puz) {
            Some(v) => {
                let first = v[0].clone_move();
                proof {
                    assert(sound_hint(*puz, v[0], Technique::Claiming));
                    if keeps_solution(*puz) {
                        let m = v[0];
                        assert(exists|l: House<usize>, b: nat| is_line(l, puz.grid.size) && b < puz.grid.size.spec_house()
                            && #[trigger] claiming_removals(*puz, m, l, b));
                        let (l, b) = choose|l: House<usize>, b: nat| is_line(l, puz.grid.size) && b < puz.grid.size.spec_house()
                            && #[trigger] claiming_removals(*puz, m, l, b);
                        lemma_claiming_sound(*puz, m, l, b);
                    }
                }
                Some(first)
            },
            None => None,
        }
    }
}

} // verus!
