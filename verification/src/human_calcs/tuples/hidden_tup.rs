use vstd::prelude::*;
use crate::human_calcs::TechStruct;
use core::marker::PhantomData;
use crate::bitset::traits::{BitSetInt, popcnt};
use crate::bitset::bitset::BitSet;
use crate::grid::grid::house_cells;
use crate::grid::house::House;
use crate::grid::types::{Index, Row, Col, GridBox};
use crate::grid::gridcoord::HouseCoord;
use crate::human_calcs::basic::candidates::vec_contains;
use crate::human_calcs::hints::sound_hint;
use crate::human_calcs::technique::Technique;
use crate::human_calcs::tuple_ctr::{tuple_seen, Ctr, TupleCtr, hidden_in_house, house_tuple, house_tuple_places, chosen, lemma_tuple_bound, house_rank};
use crate::human_calcs::tuples::naked_tup::{house_nat, is_house, lemma_found_tuple};
use crate::move_change::Move;
use crate::sudoku::access::unique_grid;
use crate::human_calcs::kept::{keeps_solution, sol_sound, gval, house_ok, lemma_house_peers, lemma_sol_possible, lemma_sol_differs, lemma_onto};
use crate::sudoku::sudoku::{Sudoku, cells_of};
use crate::sudoku::state::cell_ok;

verus! {

/// The move takes values out of the cells of a hidden tuple of the house: as many values as
/// cells, the only cells of the house where those values are possible; those cells lose
/// their other values.  It has one record for each cell of the tuple that loses a value, with
/// all the values it loses, and names each cell of the tuple with the tuple's values it holds.
pub open spec fn hidden_move<V: BitSetInt>(puz: Sudoku<V>, house: House<usize>, m: Move<V>) -> bool {
    let cells = house_cells(puz.grid.size, house_nat(house));
    exists|c: Ctr<V>| #![trigger hidden_in_house(puz, cells, c)] hidden_move_for(puz, house, c, m)
}

/// The move of the hidden tuple `c` of the house, as `hidden_move` describes it.
pub open spec fn hidden_move_for<V: BitSetInt>(puz: Sudoku<V>, house: House<usize>, c: Ctr<V>, m: Move<V>) -> bool {
    let cells = house_cells(puz.grid.size, house_nat(house));
        hidden_in_house(puz, cells, c) && tuple_seen(puz, cells, c)
        && popcnt(c.values.0.spec_nat()) == c.ind_count && c.ind_count != 0
        && forall|k: int| 0 <= k < m.removed_potentials@.len() ==> {
            let p = #[trigger] m.removed_potentials@[k];
            &&& exists|q: int| 0 <= q < cells.len() && cells[q] == p.index.inner_index && c.indices@.contains((q + 1) as nat)
            &&& p.value@.disjoint(c.values@)
            &&& p.value@ == puz.cells()[p.index.inner_index as int].flags.poss@.difference(c.values@)
        }
        && m.removed_potentials@.len() == losing_upto(puz, cells, c, cells.len() as int)
        && (forall|k: int| 0 <= k < m.used_to_solve@.len() ==> {
            let p = #[trigger] m.used_to_solve@[k];
            &&& exists|q: int| 0 <= q < cells.len() && cells[q] == p.index.inner_index && c.indices@.contains((q + 1) as nat)
            &&& p.value@ == puz.cells()[p.index.inner_index as int].flags.poss@.intersect(c.values@)
        })
        && (forall|k1: int, k2: int| 0 <= k1 < k2 < m.used_to_solve@.len()
            ==> (#[trigger] m.used_to_solve@[k1]).index.inner_index != (#[trigger] m.used_to_solve@[k2]).index.inner_index)
        && m.used_to_solve@.len() == places_upto(c, cells.len() as int)
}

/// The number of places of tuple `c` among the first `i` places of a house.
pub open spec fn places_upto<V: BitSetInt>(c: Ctr<V>, i: int) -> nat
    decreases i,
{
    if i <= 0 {
        0
    } else {
        places_upto(c, i - 1) + if c.indices@.contains(i as nat) { 1nat } else { 0nat }
    }
}

/// The number of places of hidden tuple `c` among the first `i` places of the house whose
/// cells are `cells` where the cell may hold a value outside the tuple.
pub open spec fn losing_upto<V: BitSetInt>(puz: Sudoku<V>, cells: Seq<nat>, c: Ctr<V>, i: int) -> nat
    decreases i,
{
    if i <= 0 {
        0
    } else {
        losing_upto(puz, cells, c, i - 1) + if c.indices@.contains(i as nat)
            && !puz.cells()[cells[i - 1] as int].flags.poss@.subset_of(c.values@) { 1nat } else { 0nat }
    }
}

/// The hidden tuple of values `v + 1` for the positions `v` of `s` takes nothing out: its cells
/// can hold no other value.
pub open spec fn hidden_removes_nothing<V: BitSetInt>(puz: Sudoku<V>, cells: Seq<nat>, s: Set<int>) -> bool {
    forall|q: int, x: nat| 0 <= q < cells.len() && house_tuple_places(puz, cells, s, false).contains((q + 1) as nat)
        && #[trigger] puz.cells()[cells[q] as int].flags.poss@.contains(x) ==> s.contains(x - 1)
}

/// The cells at the places of the counter hold only its values.
pub open spec fn ctr_keeps_all<V: BitSetInt>(puz: Sudoku<V>, cells: Seq<nat>, c: Ctr<V>) -> bool {
    forall|q: int| 0 <= q < cells.len() && c.indices@.contains((q + 1) as nat)
        ==> (#[trigger] puz.cells()[cells[q] as int]).flags.poss@.subset_of(c.values@)
}

/// Hidden tuples: `size` values that a house can hold only in `size` cells.
pub struct HiddenTuple<V: BitSetInt> {
    pub size: usize,
    pub phantom: PhantomData<V>,
}

impl<V: BitSetInt> HiddenTuple<V> {
    pub fn new(size: usize) -> (r: Self)
        ensures
            r.size == size,
    {
        HiddenTuple { size, phantom: PhantomData }
    }

    /// The moves of the hidden tuples of `tuple_size` values of the house that take out at
    /// least one value; `None` when there is none.
    #[verifier::rlimit(100)]
    pub fn findtuples(puz: &Sudoku<V>, house: House<usize>, tuple_size: usize, tech: Technique) -> (r: Option<Vec<Move<V>>>)
        requires
            puz.wf(),
            is_house(house, puz.grid.size),
            tuple_size <= V::width(),
        ensures
            r matches Some(v) ==> v.len() > 0 && forall|k: int| 0 <= k < v.len() ==> sound_hint(*puz, #[trigger] v[k], tech)
                && v[k].value_set is None && crate::hint::distinct_records(v[k]) && hidden_move(*puz, house, v[k]),
            r is None && tuple_size > 0 ==> forall|s: Set<int>|
                #[trigger] house_tuple(*puz, house_cells(puz.grid.size, house_nat(house)), s, tuple_size as nat, false)
                ==> hidden_removes_nothing(*puz, house_cells(puz.grid.size, house_nat(house)), s),
            tuple_size > 0 ==> forall|s: Set<int>|
                #[trigger] house_tuple(*puz, house_cells(puz.grid.size, house_nat(house)), s, tuple_size as nat, false)
                && !hidden_removes_nothing(*puz, house_cells(puz.grid.size, house_nat(house)), s)
                ==> r is Some && exists|f: int, c: Ctr<V>| 0 <= f < r->Some_0.len() && chosen(c, puz.grid.size.spec_house() as int) == s
                    && #[trigger] hidden_move_for(*puz, house, c, r->Some_0[f]),
    {
        let size = puz.grid.size;
        let ghost cells = house_cells(size, house_nat(house));
        let tups = match house {
            House::Row(n) => TupleCtr::find_tuples(puz, Row::new(n, 0, size), false, tuple_size),
            House::Col(n) => TupleCtr::find_tuples(puz, Col::new(n, 0, size), false, tuple_size),
            House::Box(n) => TupleCtr::find_tuples(puz, GridBox::new(n, 0, size), false, tuple_size),
        };
        proof {
            match house {
                House::Row(n) => { assert(cells_of::<Row>(size, n as nat) =~= cells); },
                House::Col(n) => { assert(cells_of::<Col>(size, n as nat) =~= cells); },
                House::Box(n) => { assert(cells_of::<GridBox>(size, n as nat) =~= cells); },
            }
            assert forall|s: Set<int>| #[trigger] house_tuple(*puz, cells, s, tuple_size as nat, false)
                implies exists|k: int| 0 <= k < tups.len() && #[trigger] chosen(tups[k], size.spec_house() as int) == s by {
                match house {
                    House::Row(n) => {
                        let h = Row { row: n, inner_index: 0, size };
                        assert(cells_of::<Row>(size, h.spec_number()) == cells);
                        assert(house_tuple(*puz, cells_of::<Row>(size, h.spec_number()), s, tuple_size as nat, false));
                    },
                    House::Col(n) => {
                        let h = Col { col: n, inner_index: 0, size };
                        assert(cells_of::<Col>(size, h.spec_number()) == cells);
                        assert(house_tuple(*puz, cells_of::<Col>(size, h.spec_number()), s, tuple_size as nat, false));
                    },
                    House::Box(n) => {
                        let h = GridBox { box_num: n, inner_index: 0, size };
                        assert(cells_of::<GridBox>(size, h.spec_number()) == cells);
                        assert(house_tuple(*puz, cells_of::<GridBox>(size, h.spec_number()), s, tuple_size as nat, false));
                    },
                }
            }
            size.lemma_sizes();
            assert forall|j: int| 0 <= j < cells.len() implies #[trigger] cells[j] < size.spec_total() by {
                crate::grid::grid::lemma_house_cells(size, house_nat(house), j);
            }
        }
        let puziter = puz.house_iter(house);
        let mut found: Vec<Move<V>> = Vec::new();
        for t in 0..tups.len()
            invariant
                puz.wf(),
                size == puz.grid.size,
                size.spec_total() <= 10000,
                size.spec_house() <= V::width(),
                cells == house_cells(size, house_nat(house)),
                puziter@ == cells.map_values(|x: nat| x as usize),
                forall|j: int| 0 <= j < cells.len() ==> #[trigger] cells[j] < size.spec_total(),
                forall|k: int| 0 <= k < tups.len() ==> hidden_in_house(*puz, cells, #[trigger] tups[k])
                    && tuple_seen(*puz, cells, tups[k]),
                is_house(house, size),
                forall|k: int| 0 <= k < found.len() ==> sound_hint(*puz, #[trigger] found[k], tech)
                    && found[k].value_set is None && crate::hint::distinct_records(found[k]) && hidden_move(*puz, house, found[k]),
                found.len() == 0 ==> forall|k: int| 0 <= k < t && popcnt(tups[k].values.0.spec_nat()) == tups[k].ind_count
                    && tups[k].ind_count != 0 ==> ctr_keeps_all(*puz, cells, #[trigger] tups[k]),
                forall|k: int| 0 <= k < t && popcnt(tups[k].values.0.spec_nat()) == tups[k].ind_count
                    && tups[k].ind_count != 0 && !ctr_keeps_all(*puz, cells, #[trigger] tups[k])
                    ==> exists|f: int| 0 <= f < found.len() && #[trigger] hidden_move_for(*puz, house, tups[k], found[f]),
                forall|k: int| 0 <= k < tups.len() ==> (#[trigger] tups[k]).ind_count == tuple_size,
                forall|s: Set<int>| #[trigger] house_tuple(*puz, cells, s, tuple_size as nat, false)
                    ==> exists|k: int| 0 <= k < tups.len() && #[trigger] chosen(tups[k], size.spec_house() as int) == s,
        {
            let res = tups[t];
            if res.values.count_u32() == res.ind_count && res.ind_count != 0 {
                let mut themove: Move<V> = Move::new();
                themove.method = Some(tech);
                for i in 0..puziter.len()
                    invariant
                        puz.wf(),
                        size == puz.grid.size,
                        size.spec_total() <= 10000,
                        size.spec_house() <= V::width(),
                        cells == house_cells(size, house_nat(house)),
                        puziter@ == cells.map_values(|x: nat| x as usize),
                        forall|j: int| 0 <= j < cells.len() ==> #[trigger] cells[j] < size.spec_total(),
                        hidden_in_house(*puz, cells, res),
                        tuple_seen(*puz, cells, res),
                        is_house(house, size),
                        themove.method == Some(tech),
                        !themove.manual,
                        themove.value_set is None,
                        forall|k: int| 0 <= k < themove.removed_potentials@.len() ==> {
                            let p = #[trigger] themove.removed_potentials@[k];
                            &&& p.index.inner_index < size.spec_total()
                            &&& p.value@.subset_of(puz.cells()[p.index.inner_index as int].flags.poss@)
                            &&& p.value@ != Set::<nat>::empty()
                            &&& p.value@.disjoint(res.values@)
                            &&& p.value@ == puz.cells()[p.index.inner_index as int].flags.poss@.difference(res.values@)
                            &&& exists|q: int| 0 <= q < i && cells[q] == p.index.inner_index && res.indices@.contains((q + 1) as nat)
                        },
                        themove.removed_potentials@.len() == losing_upto(*puz, cells, res, i as int),
                        forall|k: int| 0 <= k < themove.used_to_solve@.len() ==> {
                            let p = #[trigger] themove.used_to_solve@[k];
                            &&& exists|q: int| 0 <= q < i && cells[q] == p.index.inner_index && res.indices@.contains((q + 1) as nat)
                            &&& p.value@ == puz.cells()[p.index.inner_index as int].flags.poss@.intersect(res.values@)
                        },
                        forall|k1: int, k2: int| 0 <= k1 < k2 < themove.used_to_solve@.len()
                            ==> (#[trigger] themove.used_to_solve@[k1]).index.inner_index != (#[trigger] themove.used_to_solve@[k2]).index.inner_index,
                        themove.used_to_solve@.len() == places_upto(res, i as int),
                        forall|k1: int, k2: int| 0 <= k1 < k2 < themove.removed_potentials@.len()
                            ==> (#[trigger] themove.removed_potentials@[k1]).index.inner_index != (#[trigger] themove.removed_potentials@[k2]).index.inner_index,
                        themove.removed_potentials@.len() == 0 ==> forall|q: int| 0 <= q < i && res.indices@.contains((q + 1) as nat)
                            ==> (#[trigger] puz.cells()[cells[q] as int]).flags.poss@.subset_of(res.values@),
                {
                    let idx = puziter[i];
                    proof { assert(idx == cells[i as int]); }
                    let sq = &puz.grid.items[idx];
                    proof { assert(cell_ok(puz.cells()[idx as int], idx as int, size)); }
                    if res.contains_index(i) {
                        let ghost ubefore = themove.used_to_solve@;
                        themove.add_used_to_solve(puz.upgrade_index(sq.index()), res.values.intersect(*sq.poss()));
                        let rm = sq.poss().difference(res.values);
                        proof {
                            let n = ubefore.len() as int;
                            assert(themove.used_to_solve@[n].index.inner_index == cells[i as int]);
                            assert(themove.used_to_solve@[n].value@ =~= puz.cells()[cells[i as int] as int].flags.poss@.intersect(res.values@));
                            assert forall|k: int| 0 <= k < n implies #[trigger] themove.used_to_solve@[k] == ubefore[k] by {}
                            assert forall|k1: int, k2: int| 0 <= k1 < k2 < themove.used_to_solve@.len()
                                implies (#[trigger] themove.used_to_solve@[k1]).index.inner_index != (#[trigger] themove.used_to_solve@[k2]).index.inner_index by {
                                if k2 == n {
                                    let p = themove.used_to_solve@[k1];
                                    assert(p == ubefore[k1]);
                                    let q = choose|q: int| 0 <= q < i && cells[q] == p.index.inner_index && res.indices@.contains((q + 1) as nat);
                                    crate::human_calcs::basic::pointing::lemma_cells_distinct(size, house_nat(house), q, i as int);
                                } else {
                                    assert(themove.used_to_solve@[k2] == ubefore[k2]);
                                }
                            }
                            if rm@ == Set::<nat>::empty() {
                                assert(puz.cells()[cells[i as int] as int].flags.poss@.subset_of(res.values@)) by {
                                    assert forall|x: nat| puz.cells()[cells[i as int] as int].flags.poss@.contains(x) implies res.values@.contains(x) by {
                                        if !res.values@.contains(x) {
                                            assert(rm@.contains(x));
                                        }
                                    }
                                }
                            }
                        }
                        if !rm.eq_set(BitSet::empty()) {
                            proof { assert(cell_ok(puz.cells()[idx as int], idx as int, size)); }
                            let ghost before = themove.removed_potentials@;
                            themove.add_removed_potential(puz.upgrade_index(sq.index()), rm);
                            proof {
                                let n = before.len();
                                assert forall|k1: int, k2: int| 0 <= k1 < k2 < themove.removed_potentials@.len()
                                    implies (#[trigger] themove.removed_potentials@[k1]).index.inner_index != (#[trigger] themove.removed_potentials@[k2]).index.inner_index by {
                                    if k2 == n {
                                        let p = themove.removed_potentials@[k1];
                                        assert(p == before[k1]);
                                        let q = choose|q: int| 0 <= q < i && cells[q] == p.index.inner_index && res.indices@.contains((q + 1) as nat);
                                        crate::human_calcs::basic::pointing::lemma_cells_distinct(size, house_nat(house), q, i as int);
                                    } else {
                                        assert(themove.removed_potentials@[k1] == before[k1]);
                                        assert(themove.removed_potentials@[k2] == before[k2]);
                                    }
                                }
                                assert(themove.removed_potentials@[n as int].index.inner_index == cells[i as int]);
                                assert(themove.removed_potentials@[n as int].value@ =~= puz.cells()[cells[i as int] as int].flags.poss@.difference(res.values@));
                                assert forall|k: int| 0 <= k < n implies #[trigger] themove.removed_potentials@[k] == before[k] by {}
                                assert(!puz.cells()[cells[i as int] as int].flags.poss@.subset_of(res.values@)) by {
                                    if puz.cells()[cells[i as int] as int].flags.poss@.subset_of(res.values@) {
                                        assert(rm@ =~= Set::<nat>::empty());
                                    }
                                }
                            }
                        }
                    }
                    proof {
                        let poss = puz.cells()[cells[i as int] as int].flags.poss@;
                        assert(losing_upto(*puz, cells, res, i + 1) == losing_upto(*puz, cells, res, i as int)
                            + if res.indices@.contains((i + 1) as nat) && !poss.subset_of(res.values@) { 1nat } else { 0nat });
                        assert(places_upto(res, i + 1) == places_upto(res, i as int)
                            + if res.indices@.contains((i + 1) as nat) { 1nat } else { 0nat });
                    }
                }
                if themove.removed_potentials_vec().len() != 0 {
                    proof {
                        assert(themove.removed_potentials@[0].value@ != Set::<nat>::empty());
                        assert(hidden_in_house(*puz, cells, res));
                        assert(hidden_move_for(*puz, house, res, themove));
                    }
                    let ghost fbefore = found@;
                    found.push(themove);
                    proof {
                        assert(found[found.len() - 1] == themove);
                        assert forall|k: int| 0 <= k < t && popcnt(tups[k].values.0.spec_nat()) == tups[k].ind_count
                            && tups[k].ind_count != 0 && !ctr_keeps_all(*puz, cells, #[trigger] tups[k])
                            implies exists|f: int| 0 <= f < found.len() && #[trigger] hidden_move_for(*puz, house, tups[k], found[f]) by {
                            let f = choose|f: int| 0 <= f < fbefore.len() && #[trigger] hidden_move_for(*puz, house, tups[k], fbefore[f]);
                            assert(found[f] == fbefore[f]);
                        }
                    }
                } else {
                    proof {
                        assert(ctr_keeps_all(*puz, cells, res));
                    }
                }
            }
        }
        proof {
            if tuple_size > 0 {
                assert forall|s: Set<int>| #[trigger] house_tuple(*puz, cells, s, tuple_size as nat, false)
                    && !hidden_removes_nothing(*puz, cells, s)
                    implies found.len() > 0 && exists|f: int, c: Ctr<V>| 0 <= f < found.len() && chosen(c, size.spec_house() as int) == s
                        && #[trigger] hidden_move_for(*puz, house, c, found[f]) by {
                    let k = choose|k: int| 0 <= k < tups.len() && #[trigger] chosen(tups[k], size.spec_house() as int) == s;
                    let c = tups[k];
                    lemma_found_tuple(*puz, cells, s, c, false);
                    if ctr_keeps_all(*puz, cells, c) {
                        assert forall|q: int, x: nat| 0 <= q < cells.len() && house_tuple_places(*puz, cells, s, false).contains((q + 1) as nat)
                            && #[trigger] puz.cells()[cells[q] as int].flags.poss@.contains(x) implies s.contains(x - 1) by {
                            assert(c.indices@.contains((q + 1) as nat));
                            assert(c.values@.contains(x));
                        }
                        assert(false);
                    }
                    let f = choose|f: int| 0 <= f < found.len() && #[trigger] hidden_move_for(*puz, house, tups[k], found[f]);
                }
            }
            if found.len() == 0 && tuple_size > 0 {
                assert forall|s: Set<int>| #[trigger] house_tuple(*puz, cells, s, tuple_size as nat, false)
                    implies hidden_removes_nothing(*puz, cells, s) by {
                    let k = choose|k: int| 0 <= k < tups.len() && #[trigger] chosen(tups[k], size.spec_house() as int) == s;
                    let c = tups[k];
                    lemma_found_tuple(*puz, cells, s, c, false);
                    assert(ctr_keeps_all(*puz, cells, c));
                    assert forall|q: int, x: nat| 0 <= q < cells.len() && house_tuple_places(*puz, cells, s, false).contains((q + 1) as nat)
                        && #[trigger] puz.cells()[cells[q] as int].flags.poss@.contains(x) implies s.contains(x - 1) by {
                        assert(c.indices@.contains((q + 1) as nat));
                        assert(c.values@.contains(x));
                    }
                }
            }
        }
        if found.len() == 0 {
            None
        } else {
            Some(found)
        }
    }
}

/// The technique of a hidden tuple of `size` values.
pub open spec fn hidden_technique(size: usize) -> Technique {
    if size == 4 {
        Technique::HiddenQuad
    } else if size == 3 {
        Technique::HiddenTriple
    } else if size == 2 {
        Technique::HiddenDouble
    } else {
        Technique::HiddenTuple(size)
    }
}

impl<V: BitSetInt> HiddenTuple<V> {
    /// Every naked tuple move of the solver's size, house by house (row, column and box 0,
    /// then 1, and so on); `None` when there is none.
    pub fn _hint(&self, puz: &Sudoku<V>) -> (r: Option<Vec<Move<V>>>)
        requires
            puz.wf(),
        ensures
            r matches Some(v) ==> v.len() > 0 && forall|k: int| 0 <= k < v.len() ==> sound_hint(*puz, #[trigger] v[k], hidden_technique(self.size))
                && v[k].value_set is None && crate::hint::distinct_records(v[k])
                && exists|h: House<usize>| is_house(h, puz.grid.size) && #[trigger] hidden_move(*puz, h, v[k]),
            r is None && 2 <= self.size <= puz.grid.size.spec_house() / 2 ==> forall|h: House<usize>, s: Set<int>| is_house(h, puz.grid.size)
                && #[trigger] house_tuple(*puz, house_cells(puz.grid.size, house_nat(h)), s, self.size as nat, false)
                ==> hidden_removes_nothing(*puz, house_cells(puz.grid.size, house_nat(h)), s),
    {
        let size = self.size;
        let max = puz.house_size();
        let solvet = if size == 4 {
            Technique::HiddenQuad
        } else if size == 3 {
            Technique::HiddenTriple
        } else if size == 2 {
            Technique::HiddenDouble
        } else {
            Technique::HiddenTuple(size)
        };
        if size < 2 || size > max / 2 || size > V::bits() as usize {
            return None;
        }
        for rcb in 0..max
            invariant
                puz.wf(),
                max == puz.grid.size.spec_house(),
                size == self.size,
                size <= V::width(),
                size >= 2,
                solvet == hidden_technique(size),
                forall|h: House<usize>, s: Set<int>| is_house(h, puz.grid.size) && house_rank(h) < 3 * rcb
                    && #[trigger] house_tuple(*puz, house_cells(puz.grid.size, house_nat(h)), s, size as nat, false)
                    ==> hidden_removes_nothing(*puz, house_cells(puz.grid.size, house_nat(h)), s),
        {
            let mut d: usize = 0;
            while d < 3
                invariant
                    puz.wf(),
                    max == puz.grid.size.spec_house(),
                    rcb < max,
                    size == self.size,
                    size <= V::width(),
                    size >= 2,
                    solvet == hidden_technique(size),
                    d <= 3,
                    forall|h: House<usize>, s: Set<int>| is_house(h, puz.grid.size) && house_rank(h) < 3 * rcb + d
                        && #[trigger] house_tuple(*puz, house_cells(puz.grid.size, house_nat(h)), s, size as nat, false)
                        ==> hidden_removes_nothing(*puz, house_cells(puz.grid.size, house_nat(h)), s),
                decreases 3 - d,
            {
                let house = if d == 0 {
                    House::Row(rcb)
                } else if d == 1 {
                    House::Col(rcb)
                } else {
                    House::Box(rcb)
                };
                proof {
                    assert(house_rank(house) == 3 * rcb + d);
                }
                let found = Self::findtuples(puz, house, size, solvet);
                proof {
                    if found is None {
                        assert forall|h: House<usize>, s: Set<int>| is_house(h, puz.grid.size) && house_rank(h) < 3 * rcb + d + 1
                            && #[trigger] house_tuple(*puz, house_cells(puz.grid.size, house_nat(h)), s, size as nat, false)
                            implies hidden_removes_nothing(*puz, house_cells(puz.grid.size, house_nat(h)), s) by {
                            if house_rank(h) == 3 * rcb + d {
                                assert(h == house);
                            }
                        }
                    }
                }
                if let Some(m) = found {
                    proof {
                        assert forall|k: int| 0 <= k < m.len() implies sound_hint(*puz, #[trigger] m[k], hidden_technique(self.size))
                            && m[k].value_set is None && crate::hint::distinct_records(m[k])
                            && exists|h: House<usize>| is_house(h, puz.grid.size) && #[trigger] hidden_move(*puz, h, m[k]) by {
                            assert(hidden_move(*puz, house, m[k]));
                        }
                    }
                    return Some(m);
                }
                d = d + 1;
            }
        }
        None
    }

}

/// A hidden tuple move takes out of a cell no value that the unique solution puts there: the
/// solution puts the tuple's values in the cells of the tuple.
pub proof fn lemma_hidden_sound<V: BitSetInt>(puz: Sudoku<V>, house: House<usize>, c: Ctr<V>, m: Move<V>)
    requires
        puz.wf(),
        keeps_solution(puz),
        is_house(house, puz.grid.size),
        m.value_set is None,
        hidden_move_for(puz, house, c, m),
    ensures
        sol_sound(puz, m),
{
    let h = house_nat(house);
    let cells = house_cells(puz.grid.size, h);
    assert(house_ok(puz.grid.size, h));
    assert(forall|k: int| 0 <= k < m.removed_potentials@.len() ==> {
        let p = #[trigger] m.removed_potentials@[k];
        &&& exists|q: int| 0 <= q < cells.len() && cells[q] == p.index.inner_index && c.indices@.contains((q + 1) as nat)
        &&& p.value@.disjoint(c.values@)
    });
    lemma_hidden_cells(puz, h, c, m);
}

/// The solution puts the values of a hidden tuple in the cells of the tuple, so a move that
/// takes other values out of those cells takes out no value of the solution.
proof fn lemma_hidden_cells<V: BitSetInt>(puz: Sudoku<V>, h: House<nat>, c: Ctr<V>, m: Move<V>)
    requires
        puz.wf(),
        keeps_solution(puz),
        house_ok(puz.grid.size, h),
        m.value_set is None,
        hidden_in_house(puz, house_cells(puz.grid.size, h), c),
        tuple_seen(puz, house_cells(puz.grid.size, h), c),
        popcnt(c.values.0.spec_nat()) == c.ind_count,
        forall|k: int| 0 <= k < m.removed_potentials@.len() ==> {
            let p = #[trigger] m.removed_potentials@[k];
            &&& exists|q: int| 0 <= q < house_cells(puz.grid.size, h).len() && house_cells(puz.grid.size, h)[q] == p.index.inner_index
                && c.indices@.contains((q + 1) as nat)
            &&& p.value@.disjoint(c.values@)
        },
    ensures
        sol_sound(puz, m),
{
    let g = unique_grid(puz.solution)->Some_0;
    let cells = house_cells(puz.grid.size, h);
    let pl = c.indices@;
    let vs = c.values@;
    crate::bitset::bitset::lemma_values_len(c.indices);
    crate::bitset::bitset::lemma_values_len(c.values);
    assert forall|v: nat| #[trigger] vs.contains(v) implies exists|p: nat| pl.contains(p) && gval(g, cells[p - 1] as int) == v by {
        let p = lemma_hidden_place(puz, h, c, v);
    }
    lemma_places_take_values(g, cells, pl, vs);
    assert forall|k: int, x: nat| 0 <= k < m.removed_potentials@.len() && #[trigger] m.removed_potentials@[k].value@.contains(x)
        implies x != gval(g, m.removed_potentials@[k].index.inner_index as int) by {
        let p = m.removed_potentials@[k];
        let q = choose|q: int| 0 <= q < cells.len() && cells[q] == p.index.inner_index && c.indices@.contains((q + 1) as nat);
        assert(pl.contains((q + 1) as nat));
        assert(vs.contains(gval(g, cells[((q + 1) as nat) - 1] as int)));
        assert(!vs.contains(x));
    }
}

/// The solution puts each value of a hidden tuple in a cell of the tuple.
proof fn lemma_hidden_place<V: BitSetInt>(puz: Sudoku<V>, h: House<nat>, c: Ctr<V>, v: nat) -> (p: nat)
    requires
        puz.wf(),
        keeps_solution(puz),
        house_ok(puz.grid.size, h),
        hidden_in_house(puz, house_cells(puz.grid.size, h), c),
        tuple_seen(puz, house_cells(puz.grid.size, h), c),
        c.values@.contains(v),
    ensures
        c.indices@.contains(p),
        gval(unique_grid(puz.solution)->Some_0, house_cells(puz.grid.size, h)[p - 1] as int) == v,
{
    let cells = house_cells(puz.grid.size, h);
    let q0 = choose|q: int| 0 <= q < cells.len() && #[trigger] puz.cells()[cells[q] as int].flags.poss@.contains(v);
    let q = lemma_sol_possible(puz, h, q0, v);
    assert(!puz.cells()[cells[q] as int].flags.poss@.disjoint(c.values@));
    let p = (q + 1) as nat;
    assert(p - 1 == q);
    assert(c.indices@.contains(p));
    p
}

/// Where each value of `vs` lies at a place of `pl`, and there are as many places as values,
/// the value at each place of `pl` is one of `vs`.
proof fn lemma_places_take_values<V: BitSetInt>(g: crate::grid::grid::Grid<V>, cells: Seq<nat>, pl: Set<nat>, vs: Set<nat>)
    requires
        pl.finite(),
        vs.finite(),
        pl.len() == vs.len(),
        forall|v: nat| #[trigger] vs.contains(v) ==> exists|p: nat| pl.contains(p) && gval(g, cells[p - 1] as int) == v,
    ensures
        forall|p: nat| #[trigger] pl.contains(p) ==> vs.contains(gval(g, cells[p - 1] as int)),
{
    let f = |v: nat| choose|p: nat| pl.contains(p) && gval(g, cells[p - 1] as int) == v;
    assert forall|v: nat| #[trigger] vs.contains(v) implies pl.contains(f(v)) && gval(g, cells[f(v) - 1] as int) == v by {}
    assert(vstd::relations::injective_on(f, vs)) by {
        assert forall|v1: nat, v2: nat| vs.contains(v1) && vs.contains(v2) && #[trigger] f(v1) == #[trigger] f(v2) implies v1 == v2 by {
            assert(gval(g, cells[f(v1) - 1] as int) == v1);
            assert(gval(g, cells[f(v2) - 1] as int) == v2);
        }
    }
    lemma_onto(vs, pl, f);
    assert forall|p: nat| #[trigger] pl.contains(p) implies vs.contains(gval(g, cells[p - 1] as int)) by {
        let v = choose|v: nat| vs.contains(v) && f(v) == p;
        assert(gval(g, cells[f(v) - 1] as int) == v);
    }
}

impl<V: BitSetInt> TechStruct<V> for HiddenTuple<V> {
    open spec fn spec_technique(&self) -> Technique {
        hidden_technique(self.size)
    }

    /// No hint of the technique: every hidden tuple of its size takes nothing out.
    open spec fn spec_finds_nothing(&self, puz: Sudoku<V>) -> bool {
        2 <= self.size <= puz.grid.size.spec_house() / 2 ==> forall|h: House<usize>, s: Set<int>| is_house(h, puz.grid.size)
            && #[trigger] house_tuple(puz, house_cells(puz.grid.size, house_nat(h)), s, self.size as nat, false)
            ==> hidden_removes_nothing(puz, house_cells(puz.grid.size, house_nat(h)), s)
    }

    /// The first hidden tuple move, as the human solver asks for it.
    fn tech_hint(&self, puz: &Sudoku<V>) -> (r: Option<Move<V>>)
        ensures
            r matches Some(m) ==> sound_hint(*puz, m, hidden_technique(self.size)) && m.value_set is None
                && crate::hint::distinct_records(m),
            r is None && 2 <= self.size <= puz.grid.size.spec_house() / 2 ==> forall|h: House<usize>, s: Set<int>| is_house(h, puz.grid.size)
                && #[trigger] house_tuple(*puz, house_cells(puz.grid.size, house_nat(h)), s, self.size as nat, false)
                ==> hidden_removes_nothing(*puz, house_cells(puz.grid.size, house_nat(h)), s),
    {
        match self._hint(puz) {
            Some(v) => {
                let first = v[0].clone_move();
                proof {
                    assert(sound_hint(*puz, v[0], hidden_technique(self.size)));
                    assert(crate::hint::distinct_records(v[0]));
                    if keeps_solution(*puz) {
                        let m = v[0];
                        let h = choose|h: House<usize>| is_house(h, puz.grid.size) && #[trigger] hidden_move(*puz, h, m);
                        let cells = house_cells(puz.grid.size, house_nat(h));
                        let c = choose|c: Ctr<V>| #![trigger hidden_in_house(*puz, cells, c)] hidden_move_for(*puz, h, c, m);
                        lemma_hidden_sound(*puz, h, c, m);
                    }
                }
                Some(first)
            },
            None => None,
        }
    }
}

} // verus!
