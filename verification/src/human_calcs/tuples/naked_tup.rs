use vstd::prelude::*;
use crate::human_calcs::TechStruct;
use core::marker::PhantomData;
use crate::bitset::traits::{BitSetInt, popcnt};
use crate::bitset::bitset::BitSet;
use crate::grid::grid::house_cells;
use crate::grid::house::House;
use crate::grid::types::{Index, Row, Col, GridBox};
use crate::grid::gridcoord::HouseCoord;
use crate::human_calcs::basic::candidates::vec_contains;
use crate::human_calcs::hints::sound_hint;
use crate::human_calcs::technique::Technique;
use crate::human_calcs::tuple_ctr::{tuple_seen, Ctr, TupleCtr, naked_in_house, house_tuple, house_tuple_places, chosen, lemma_tuple_bound, house_rank};
use crate::human_calcs::tuples::hidden_tup::places_upto;
use crate::move_change::Move;
use crate::sudoku::access::unique_grid;
use crate::human_calcs::kept::{keeps_solution, sol_sound, gval, house_ok, lemma_house_peers, lemma_sol_possible, lemma_sol_differs, lemma_onto};
use crate::sudoku::sudoku::{Sudoku, cells_of};
use crate::sudoku::state::cell_ok;

verus! {

/// The house of a `House<usize>`, in spec form.
pub open spec fn house_nat(h: House<usize>) -> House<nat> {
    match h {
        House::Row(n) => House::Row(n as nat),
        House::Col(n) => House::Col(n as nat),
        House::Box(n) => House::Box(n as nat),
    }
}

/// A house of the puzzle.
pub open spec fn is_house(h: House<usize>, size: crate::sudokusize::SudokuSize) -> bool {
    match h {
        House::Row(n) => n < size.spec_house(),
        House::Col(n) => n < size.spec_house(),
        House::Box(n) => n < size.spec_house(),
    }
}

/// The move takes out of cells of the house values of a naked tuple of it: as many cells as
/// values, each cell holding only values of the tuple; the other cells lose those values.  It
/// has one record for each other cell that loses a value, with all the tuple's values it
/// holds, and names each cell of the tuple with its values.
pub open spec fn naked_move<V: BitSetInt>(puz: Sudoku<V>, house: House<usize>, m: Move<V>) -> bool {
    let cells = house_cells(puz.grid.size, house_nat(house));
    exists|c: Ctr<V>| #![trigger naked_in_house(puz, cells, c)] naked_move_for(puz, house, c, m)
}

/// The move of the naked tuple `c` of the house, as `naked_move` describes it.
pub open spec fn naked_move_for<V: BitSetInt>(puz: Sudoku<V>, house: House<usize>, c: Ctr<V>, m: Move<V>) -> bool {
    let cells = house_cells(puz.grid.size, house_nat(house));
        naked_in_house(puz, cells, c) && tuple_seen(puz, cells, c)
        && popcnt(c.values.0.spec_nat()) == c.ind_count && c.ind_count != 0
        && forall|k: int| 0 <= k < m.removed_potentials@.len() ==> {
            let p = #[trigger] m.removed_potentials@[k];
            &&& exists|q: int| 0 <= q < cells.len() && cells[q] == p.index.inner_index && !c.indices@.contains((q + 1) as nat)
            &&& p.value@.subset_of(c.values@)
            &&& p.value@ == puz.cells()[p.index.inner_index as int].flags.poss@.intersect(c.values@)
        }
        && m.removed_potentials@.len() == naked_losing_upto(puz, cells, c, cells.len() as int)
        && (forall|k: int| 0 <= k < m.used_to_solve@.len() ==> {
            let p = #[trigger] m.used_to_solve@[k];
            &&& exists|q: int| 0 <= q < cells.len() && cells[q] == p.index.inner_index && c.indices@.contains((q + 1) as nat)
            &&& p.value@ == puz.cells()[p.index.inner_index as int].flags.poss@.intersect(c.values@)
        })
        && (forall|k1: int, k2: int| 0 <= k1 < k2 < m.used_to_solve@.len()
            ==> (#[trigger] m.used_to_solve@[k1]).index.inner_index != (#[trigger] m.used_to_solve@[k2]).index.inner_index)
        && m.used_to_solve@.len() == places_upto(c, cells.len() as int)
}

/// The number of places outside naked tuple `c` among the first `i` places of the house whose
/// cells are `cells` where the cell may hold a value of the tuple.
pub open spec fn naked_losing_upto<V: BitSetInt>(puz: Sudoku<V>, cells: Seq<nat>, c: Ctr<V>, i: int) -> nat
    decreases i,
{
    if i <= 0 {
        0
    } else {
        naked_losing_upto(puz, cells, c, i - 1) + if !c.indices@.contains(i as nat)
            && !puz.cells()[cells[i - 1] as int].flags.poss@.disjoint(c.values@) { 1nat } else { 0nat }
    }
}

/// The naked tuple of values `v + 1` for the positions `v` of `s` takes nothing out: no cell
/// of the house outside its places can hold one of its values.
pub open spec fn naked_removes_nothing<V: BitSetInt>(puz: Sudoku<V>, cells: Seq<nat>, s: Set<int>) -> bool {
    forall|q: int, v: int| 0 <= q < cells.len() && !house_tuple_places(puz, cells, s, true).contains((q + 1) as nat) && s.contains(v)
        ==> !#[trigger] puz.cells()[cells[q] as int].flags.poss@.contains((v + 1) as nat)
}

/// No cell of the house outside the places of the counter holds one of its values.
pub open spec fn ctr_removes_nothing<V: BitSetInt>(puz: Sudoku<V>, cells: Seq<nat>, c: Ctr<V>) -> bool {
    forall|q: int| 0 <= q < cells.len() && !c.indices@.contains((q + 1) as nat)
        ==> (#[trigger] puz.cells()[cells[q] as int]).flags.poss@.disjoint(c.values@)
}

/// A counter of a tuple of the house found for the values of `s` holds those values, as many
/// as its places, and its places are those of the tuple.
pub proof fn lemma_found_tuple<V: BitSetInt>(puz: Sudoku<V>, cells: Seq<nat>, s: Set<int>, c: Ctr<V>, naked: bool)
    requires
        house_tuple(puz, cells, s, c.ind_count as nat, naked),
        naked ==> naked_in_house(puz, cells, c),
        !naked ==> crate::human_calcs::tuple_ctr::hidden_in_house(puz, cells, c),
        chosen(c, cells.len() as int) == s,
    ensures
        popcnt(c.values.0.spec_nat()) == c.ind_count,
        forall|x: nat| #[trigger] c.values@.contains(x) <==> x >= 1 && s.contains(x - 1),
        forall|p: nat| #[trigger] c.indices@.contains(p) <==> house_tuple_places(puz, cells, s, naked).contains(p),
{
    let f = |v: int| (v + 1) as nat;
    assert forall|x: nat| #[trigger] c.values@.contains(x) <==> x >= 1 && s.contains(x - 1) by {
        if x >= 1 && s.contains(x - 1) {
            assert(chosen(c, cells.len() as int).contains(x - 1));
        }
        if c.values@.contains(x) {
            assert(chosen(c, cells.len() as int).contains(x - 1));
        }
    }
    assert(s.map(f) =~= c.values@) by {
        assert forall|x: nat| c.values@.contains(x) implies s.map(f).contains(x) by {
            assert(s.contains(x - 1) && f(x - 1) == x);
        }
    }
    assert(vstd::relations::injective_on(f, s)) by {
        assert forall|a: int, b: int| s.contains(a) && s.contains(b) && #[trigger] f(a) == #[trigger] f(b) implies a == b by {}
    }
    vstd::set_lib::lemma_map_size(s, c.values@, f);
    crate::bitset::bitset::lemma_values_len(c.values);
    assert forall|p: nat| #[trigger] c.indices@.contains(p) <==> house_tuple_places(puz, cells, s, naked).contains(p) by {
        if 1 <= p <= cells.len() {
            let cell = puz.cells()[cells[p - 1] as int];
            if !cell.flags.poss@.disjoint(c.values@) {
                let x = choose|x: nat| cell.flags.poss@.contains(x) && c.values@.contains(x);
                assert(cell.flags.poss@.contains(((x - 1) + 1) as nat));
            }
            if exists|v: int| s.contains(v) && #[trigger] cell.flags.poss@.contains((v + 1) as nat) {
                let v = choose|v: int| s.contains(v) && #[trigger] cell.flags.poss@.contains((v + 1) as nat);
                assert(c.values@.contains((v + 1) as nat));
            }
        }
    }
}

/// Naked tuples: `size` cells of a house that together hold only `size` values.
pub struct NakedTuple<V: BitSetInt> {
    pub size: usize,
    pub phantom: PhantomData<V>,
}

impl<V: BitSetInt> NakedTuple<V> {
    pub fn new(size: usize) -> (r: Self)
        ensures
            r.size == size,
    {
        NakedTuple { size, phantom: PhantomData }
    }

    /// The moves of the naked tuples of `tuple_size` values of the house that take out at
    /// least one value; `None` when there is none.
    #[verifier::rlimit(100)]
    pub fn findtuples(puz: &Sudoku<V>, house: House<usize>, tuple_size: usize, tech: Technique) -> (r: Option<Vec<Move<V>>>)
        requires
            puz.wf(),
            is_house(house, puz.grid.size),
            tuple_size <= V::width(),
        ensures
            r matches Some(v) ==> v.len() > 0 && forall|k: int| 0 <= k < v.len() ==> sound_hint(*puz, #[trigger] v[k], tech)
                && v[k].value_set is None && crate::hint::distinct_records(v[k]) && naked_move(*puz, house, v[k]),
            r is None && tuple_size > 0 ==> forall|s: Set<int>|
                #[trigger] house_tuple(*puz, house_cells(puz.grid.size, house_nat(house)), s, tuple_size as nat, true)
                ==> naked_removes_nothing(*puz, house_cells(puz.grid.size, house_nat(house)), s),
            tuple_size > 0 ==> forall|s: Set<int>|
                #[trigger] house_tuple(*puz, house_cells(puz.grid.size, house_nat(house)), s, tuple_size as nat, true)
                && !naked_removes_nothing(*puz, house_cells(puz.grid.size, house_nat(house)), s)
                ==> r is Some && exists|f: int, c: Ctr<V>| 0 <= f < r->Some_0.len() && chosen(c, puz.grid.size.spec_house() as int) == s
                    && #[trigger] naked_move_for(*puz, house, c, r->Some_0[f]),
    {
        let size = puz.grid.size;
        let ghost cells = house_cells(size, house_nat(house));
        let tups = match house {
            House::Row(n) => TupleCtr::find_tuples(puz, Row::new(n, 0, size), true, tuple_size),
            House::Col(n) => TupleCtr::find_tuples(puz, Col::new(n, 0, size), true, tuple_size),
            House::Box(n) => TupleCtr::find_tuples(puz, GridBox::new(n, 0, size), true, tuple_size),
        };
        proof {
            match house {
                House::Row(n) => { assert(cells_of::<Row>(size, n as nat) =~= cells); },
                House::Col(n) => { assert(cells_of::<Col>(size, n as nat) =~= cells); },
                House::Box(n) => { assert(cells_of::<GridBox>(size, n as nat) =~= cells); },
            }
            assert forall|s: Set<int>| #[trigger] house_tuple(*puz, cells, s, tuple_size as nat, true)
                implies exists|k: int| 0 <= k < tups.len() && #[trigger] chosen(tups[k], size.spec_house() as int) == s by {
                match house {
                    House::Row(n) => {
                        let h = Row { row: n, inner_index: 0, size };
                        assert(cells_of::<Row>(size, h.spec_number()) == cells);
                        assert(house_tuple(*puz, cells_of::<Row>(size, h.spec_number()), s, tuple_size as nat, true));
                    },
                    House::Col(n) => {
                        let h = Col { col: n, inner_index: 0, size };
                        assert(cells_of::<Col>(size, h.spec_number()) == cells);
                        assert(house_tuple(*puz, cells_of::<Col>(size, h.spec_number()), s, tuple_size as nat, true));
                    },
                    House::Box(n) => {
                        let h = GridBox { box_num: n, inner_index: 0, size };
                        assert(cells_of::<GridBox>(size, h.spec_number()) == cells);
                        assert(house_tuple(*puz, cells_of::<GridBox>(size, h.spec_number()), s, tuple_size as nat, true));
                    },
                }
            }
            size.lemma_sizes();
            assert forall|j: int| 0 <= j < cells.len() implies #[trigger] cells[j] < size.spec_total() by {
                crate::grid::grid::lemma_house_cells(size, house_nat(house), j);
            }
        }
        let puziter = puz.house_iter(house);
        let mut found: Vec<Move<V>> = Vec::new();
        for t in 0..tups.len()
            invariant
                puz.wf(),
                size == puz.grid.size,
                size.spec_total() <= 10000,
                size.spec_house() <= V::width(),
                cells == house_cells(size, house_nat(house)),
                puziter@ == cells.map_values(|x: nat| x as usize),
                forall|j: int| 0 <= j < cells.len() ==> #[trigger] cells[j] < size.spec_total(),
                forall|k: int| 0 <= k < tups.len() ==> naked_in_house(*puz, cells, #[trigger] tups[k])
                    && tuple_seen(*puz, cells, tups[k]),
                is_house(house, size),
                forall|k: int| 0 <= k < found.len() ==> sound_hint(*puz, #[trigger] found[k], tech)
                    && found[k].value_set is None && crate::hint::distinct_records(found[k]) && naked_move(*puz, house, found[k]),
                found.len() == 0 ==> forall|k: int| 0 <= k < t && popcnt(tups[k].values.0.spec_nat()) == tups[k].ind_count
                    && tups[k].ind_count != 0 ==> ctr_removes_nothing(*puz, cells, #[trigger] tups[k]),
                forall|k: int| 0 <= k < t && popcnt(tups[k].values.0.spec_nat()) == tups[k].ind_count
                    && tups[k].ind_count != 0 && !ctr_removes_nothing(*puz, cells, #[trigger] tups[k])
                    ==> exists|f: int| 0 <= f < found.len() && #[trigger] naked_move_for(*puz, house, tups[k], found[f]),
                forall|k: int| 0 <= k < tups.len() ==> (#[trigger] tups[k]).ind_count == tuple_size,
                forall|s: Set<int>| #[trigger] house_tuple(*puz, cells, s, tuple_size as nat, true)
                    ==> exists|k: int| 0 <= k < tups.len() && #[trigger] chosen(tups[k], size.spec_house() as int) == s,
        {
            let res = tups[t];
            if res.values.count_u32() == res.ind_count && res.ind_count != 0 {
                let mut themove: Move<V> = Move::new();
                themove.method = Some(tech);
                for i in 0..puziter.len()
                    invariant
                        puz.wf(),
                        size == puz.grid.size,
                        size.spec_total() <= 10000,
                        size.spec_house() <= V::width(),
                        cells == house_cells(size, house_nat(house)),
                        puziter@ == cells.map_values(|x: nat| x as usize),
                        forall|j: int| 0 <= j < cells.len() ==> #[trigger] cells[j] < size.spec_total(),
                        naked_in_house(*puz, cells, res),
                        tuple_seen(*puz, cells, res),
                        is_house(house, size),
                        themove.method == Some(tech),
                        !themove.manual,
                        themove.value_set is None,
                        forall|k: int| 0 <= k < themove.removed_potentials@.len() ==> {
                            let p = #[trigger] themove.removed_potentials@[k];
                            &&& p.index.inner_index < size.spec_total()
                            &&& p.value@.subset_of(puz.cells()[p.index.inner_index as int].flags.poss@)
                            &&& p.value@ != Set::<nat>::empty()
                            &&& p.value@.subset_of(res.values@)
                            &&& p.value@ == puz.cells()[p.index.inner_index as int].flags.poss@.intersect(res.values@)
                            &&& exists|q: int| 0 <= q < i && cells[q] == p.index.inner_index && !res.indices@.contains((q + 1) as nat)
                        },
                        themove.removed_potentials@.len() == naked_losing_upto(*puz, cells, res, i as int),
                        forall|k: int| 0 <= k < themove.used_to_solve@.len() ==> {
                            let p = #[trigger] themove.used_to_solve@[k];
                            &&& exists|q: int| 0 <= q < i && cells[q] == p.index.inner_index && res.indices@.contains((q + 1) as nat)
                            &&& p.value@ == puz.cells()[p.index.inner_index as int].flags.poss@.intersect(res.values@)
                        },
                        forall|k1: int, k2: int| 0 <= k1 < k2 < themove.used_to_solve@.len()
                            ==> (#[trigger] themove.used_to_solve@[k1]).index.inner_index != (#[trigger] themove.used_to_solve@[k2]).index.inner_index,
                        themove.used_to_solve@.len() == places_upto(res, i as int),
                        forall|k1: int, k2: int| 0 <= k1 < k2 < themove.removed_potentials@.len()
                            ==> (#[trigger] themove.removed_potentials@[k1]).index.inner_index != (#[trigger] themove.removed_potentials@[k2]).index.inner_index,
                        themove.removed_potentials@.len() == 0 ==> forall|q: int| 0 <= q < i && !res.indices@.contains((q + 1) as nat)
                            ==> (#[trigger] puz.cells()[cells[q] as int]).flags.poss@.disjoint(res.values@),
                {
                    let idx = puziter[i];
                    proof { assert(idx == cells[i as int]); }
                    let sq = &puz.grid.items[idx];
                    proof { assert(cell_ok(puz.cells()[idx as int], idx as int, size)); }
                    if res.contains_index(i) {
                        let ghost ubefore = themove.used_to_solve@;
                        themove.add_used_to_solve(puz.upgrade_index(sq.index()), res.values.intersect(*sq.poss()));
                        proof {
                            let n = ubefore.len() as int;
                            assert(themove.used_to_solve@[n].index.inner_index == cells[i as int]);
                            assert(themove.used_to_solve@[n].value@ =~= puz.cells()[cells[i as int] as int].flags.poss@.intersect(res.values@));
                            assert forall|k: int| 0 <= k < n implies #[trigger] themove.used_to_solve@[k] == ubefore[k] by {}
                            assert forall|k1: int, k2: int| 0 <= k1 < k2 < themove.used_to_solve@.len()
                                implies (#[trigger] themove.used_to_solve@[k1]).index.inner_index != (#[trigger] themove.used_to_solve@[k2]).index.inner_index by {
                                if k2 == n {
                                    let p = themove.used_to_solve@[k1];
                                    assert(p == ubefore[k1]);
                                    let q = choose|q: int| 0 <= q < i && cells[q] == p.index.inner_index && res.indices@.contains((q + 1) as nat);
                                    crate::human_calcs::basic::pointing::lemma_cells_distinct(size, house_nat(house), q, i as int);
                                } else {
                                    assert(themove.used_to_solve@[k2] == ubefore[k2]);
                                }
                            }
                        }
                    } else {
                        let rm = sq.poss().intersect(res.values);
                        proof {
                            if rm@ == Set::<nat>::empty() {
                                assert(puz.cells()[cells[i as int] as int].flags.poss@.disjoint(res.values@)) by {
                                    assert forall|x: nat| puz.cells()[cells[i as int] as int].flags.poss@.contains(x) implies !res.values@.contains(x) by {
                                        if res.values@.contains(x) {
                                            assert(rm@.contains(x));
                                        }
                                    }
                                }
                            }
                        }
                        if !rm.eq_set(BitSet::empty()) {
                            proof { assert(cell_ok(puz.cells()[idx as int], idx as int, size)); }
                            let ghost before = themove.removed_potentials@;
                            themove.add_removed_potential(puz.upgrade_index(sq.index()), rm);
                            proof {
                                let n = before.len();
                                assert forall|k1: int, k2: int| 0 <= k1 < k2 < themove.removed_potentials@.len()
                                    implies (#[trigger] themove.removed_potentials@[k1]).index.inner_index != (#[trigger] themove.removed_potentials@[k2]).index.inner_index by {
                                    if k2 == n {
                                        let p = themove.removed_potentials@[k1];
                                        assert(p == before[k1]);
                                        let q = choose|q: int| 0 <= q < i && cells[q] == p.index.inner_index && !res.indices@.contains((q + 1) as nat);
                                        crate::human_calcs::basic::pointing::lemma_cells_distinct(size, house_nat(house), q, i as int);
                                    } else {
                                        assert(themove.removed_potentials@[k1] == before[k1]);
                                        assert(themove.removed_potentials@[k2] == before[k2]);
                                    }
                                }
                                assert(themove.removed_potentials@[n as int].index.inner_index == cells[i as int]);
                                assert(themove.removed_potentials@[n as int].value@ =~= puz.cells()[cells[i as int] as int].flags.poss@.intersect(res.values@));
                                assert forall|k: int| 0 <= k < n implies #[trigger] themove.removed_potentials@[k] == before[k] by {}
                                assert(!puz.cells()[cells[i as int] as int].flags.poss@.disjoint(res.values@)) by {
                                    if puz.cells()[cells[i as int] as int].flags.poss@.disjoint(res.values@) {
                                        assert(rm@ =~= Set::<nat>::empty());
                                    }
                                }
                            }
                        }
                    }
                    proof {
                        let poss = puz.cells()[cells[i as int] as int].flags.poss@;
                        assert(naked_losing_upto(*puz, cells, res, i + 1) == naked_losing_upto(*puz, cells, res, i as int)
                            + if !res.indices@.contains((i + 1) as nat) && !poss.disjoint(res.values@) { 1nat } else { 0nat });
                        assert(places_upto(res, i + 1) == places_upto(res, i as int)
                            + if res.indices@.contains((i + 1) as nat) { 1nat } else { 0nat });
                    }
                }
                if themove.removed_potentials_vec().len() != 0 {
                    proof {
                        assert(themove.removed_potentials@[0].value@ != Set::<nat>::empty());
                        assert(naked_in_house(*puz, cells, res));
                        assert(naked_move_for(*puz, house, res, themove));
                    }
                    let ghost fbefore = found@;
                    found.push(themove);
                    proof {
                        assert(found[found.len() - 1] == themove);
                        assert forall|k: int| 0 <= k < t && popcnt(tups[k].values.0.spec_nat()) == tups[k].ind_count
                            && tups[k].ind_count != 0 && !ctr_removes_nothing(*puz, cells, #[trigger] tups[k])
                            implies exists|f: int| 0 <= f < found.len() && #[trigger] naked_move_for(*puz, house, tups[k], found[f]) by {
                            let f = choose|f: int| 0 <= f < fbefore.len() && #[trigger] naked_move_for(*puz, house, tups[k], fbefore[f]);
                            assert(found[f] == fbefore[f]);
                        }
                    }
                } else {
                    proof {
                        assert(ctr_removes_nothing(*puz, cells, res));
                    }
                }
            }
        }
        proof {
            if tuple_size > 0 {
                assert forall|s: Set<int>| #[trigger] house_tuple(*puz, cells, s, tuple_size as nat, true)
                    && !naked_removes_nothing(*puz, cells, s)
                    implies found.len() > 0 && exists|f: int, c: Ctr<V>| 0 <= f < found.len() && chosen(c, size.spec_house() as int) == s
                        && #[trigger] naked_move_for(*puz, house, c, found[f]) by {
                    let k = choose|k: int| 0 <= k < tups.len() && #[trigger] chosen(tups[k], size.spec_house() as int) == s;
                    let c = tups[k];
                    assert(c.ind_count == tuple_size);
                    lemma_found_tuple(*puz, cells, s, c, true);
                    if ctr_removes_nothing(*puz, cells, c) {
                        assert forall|q: int, v: int| 0 <= q < cells.len() && !house_tuple_places(*puz, cells, s, true).contains((q + 1) as nat) && s.contains(v)
                            implies !#[trigger] puz.cells()[cells[q] as int].flags.poss@.contains((v + 1) as nat) by {
                            assert(c.values@.contains((v + 1) as nat));
                            assert(!c.indices@.contains((q + 1) as nat));
                        }
                        assert(false);
                    }
                    let f = choose|f: int| 0 <= f < found.len() && #[trigger] naked_move_for(*puz, house, tups[k], found[f]);
                }
            }
            if found.len() == 0 && tuple_size > 0 {
                assert forall|s: Set<int>| #[trigger] house_tuple(*puz, cells, s, tuple_size as nat, true)
                    implies naked_removes_nothing(*puz, cells, s) by {
                    let k = choose|k: int| 0 <= k < tups.len() && #[trigger] chosen(tups[k], size.spec_house() as int) == s;
                    let c = tups[k];
                    assert(chosen(c, size.spec_house() as int) == s);
                    assert(c.ind_count == tuple_size);
                    lemma_found_tuple(*puz, cells, s, c, true);
                    assert(ctr_removes_nothing(*puz, cells, c));
                    assert forall|q: int, v: int| 0 <= q < cells.len() && !house_tuple_places(*puz, cells, s, true).contains((q + 1) as nat) && s.contains(v)
                        implies !#[trigger] puz.cells()[cells[q] as int].flags.poss@.contains((v + 1) as nat) by {
                        assert(c.values@.contains((v + 1) as nat));
                        assert(!c.indices@.contains((q + 1) as nat));
                    }
                }
            }
        }
        if found.len() == 0 {
            None
        } else {
            Some(found)
        }
    }
}

/// The technique of a naked tuple of `size` values.
pub open spec fn naked_technique(size: usize) -> Technique {
    if size == 4 {
        Technique::NakedQuad
    } else if size == 3 {
        Technique::NakedTriple
    } else if size == 2 {
        Technique::NakedDouble
    } else {
        Technique::NakedTuple(size)
    }
}

impl<V: BitSetInt> NakedTuple<V> {
    /// Every naked tuple move of the solver's size, house by house (row, column and box 0,
    /// then 1, and so on); `None` when there is none.
    pub fn _hint(&self, puz: &Sudoku<V>) -> (r: Option<Vec<Move<V>>>)
        requires
            puz.wf(),
        ensures
            r matches Some(v) ==> v.len() > 0 && forall|k: int| 0 <= k < v.len() ==> sound_hint(*puz, #[trigger] v[k], naked_technique(self.size))
                && v[k].value_set is None && crate::hint::distinct_records(v[k])
                && exists|h: House<usize>| is_house(h, puz.grid.size) && #[trigger] naked_move(*puz, h, v[k]),
            r is None && self.size > 0 ==> forall|h: House<usize>, s: Set<int>| is_house(h, puz.grid.size)
                && #[trigger] house_tuple(*puz, house_cells(puz.grid.size, house_nat(h)), s, self.size as nat, true)
                ==> naked_removes_nothing(*puz, house_cells(puz.grid.size, house_nat(h)), s),
    {
        let size = self.size;
        let max = puz.house_size();
        let solvet = if size == 4 {
            Technique::NakedQuad
        } else if size == 3 {
            Technique::NakedTriple
        } else if size == 2 {
            Technique::NakedDouble
        } else {
            Technique::NakedTuple(size)
        };
        if size > V::bits() as usize {
            proof {
                assert forall|h: House<usize>, s: Set<int>| is_house(h, puz.grid.size)
                    && #[trigger] house_tuple(*puz, house_cells(puz.grid.size, house_nat(h)), s, self.size as nat, true)
                    implies naked_removes_nothing(*puz, house_cells(puz.grid.size, house_nat(h)), s) by {
                    lemma_tuple_bound(*puz, house_cells(puz.grid.size, house_nat(h)), s, self.size as nat, true);
                }
            }
            return None;
        }
        let mut vec: Vec<Move<V>> = Vec::new();
        for rcb in 0..max
            invariant
                puz.wf(),
                max == puz.grid.size.spec_house(),
                size == self.size,
                size <= V::width(),
                solvet == naked_technique(size),
                forall|k: int| 0 <= k < vec.len() ==> sound_hint(*puz, #[trigger] vec[k], solvet)
                    && vec[k].value_set is None && crate::hint::distinct_records(vec[k])
                    && exists|h: House<usize>| is_house(h, puz.grid.size) && #[trigger] naked_move(*puz, h, vec[k]),
                vec.len() == 0 && size > 0 ==> forall|h: House<usize>, s: Set<int>| is_house(h, puz.grid.size) && house_rank(h) < 3 * rcb
                    && #[trigger] house_tuple(*puz, house_cells(puz.grid.size, house_nat(h)), s, size as nat, true)
                    ==> naked_removes_nothing(*puz, house_cells(puz.grid.size, house_nat(h)), s),
        {
            let mut d: usize = 0;
            while d < 3
                invariant
                    puz.wf(),
                    max == puz.grid.size.spec_house(),
                    rcb < max,
                    size <= V::width(),
                    solvet == naked_technique(size),
                    forall|k: int| 0 <= k < vec.len() ==> sound_hint(*puz, #[trigger] vec[k], solvet)
                        && vec[k].value_set is None && crate::hint::distinct_records(vec[k])
                        && exists|h: House<usize>| is_house(h, puz.grid.size) && #[trigger] naked_move(*puz, h, vec[k]),
                    d <= 3,
                    vec.len() == 0 && size > 0 ==> forall|h: House<usize>, s: Set<int>| is_house(h, puz.grid.size) && house_rank(h) < 3 * rcb + d
                        && #[trigger] house_tuple(*puz, house_cells(puz.grid.size, house_nat(h)), s, size as nat, true)
                        ==> naked_removes_nothing(*puz, house_cells(puz.grid.size, house_nat(h)), s),
                decreases 3 - d,
            {
                let house = if d == 0 {
                    House::Row(rcb)
                } else if d == 1 {
                    House::Col(rcb)
                } else {
                    House::Box(rcb)
                };
                proof {
                    assert(house_rank(house) == 3 * rcb + d);
                }
                let found = Self::findtuples(puz, house, size, solvet);
                proof {
                    if found is None && vec.len() == 0 && size > 0 {
                        assert forall|h: House<usize>, s: Set<int>| is_house(h, puz.grid.size) && house_rank(h) < 3 * rcb + d + 1
                            && #[trigger] house_tuple(*puz, house_cells(puz.grid.size, house_nat(h)), s, size as nat, true)
                            implies naked_removes_nothing(*puz, house_cells(puz.grid.size, house_nat(h)), s) by {
                            if house_rank(h) == 3 * rcb + d {
                                assert(h == house);
                            }
                        }
                    }
                }
                if let Some(m) = found {
                    let ghost before = vec@;
                    for k in 0..m.len()
                        invariant
                            vec.len() == before.len() + k,
                            forall|q: int| 0 <= q < m.len() ==> sound_hint(*puz, #[trigger] m[q], solvet)
                                && m[q].value_set is None && crate::hint::distinct_records(m[q]) && naked_move(*puz, house, m[q]),
                            is_house(house, puz.grid.size),
                            forall|q: int| 0 <= q < vec.len() ==> sound_hint(*puz, #[trigger] vec[q], solvet)
                                && vec[q].value_set is None && crate::hint::distinct_records(vec[q])
                                && exists|h: House<usize>| is_house(h, puz.grid.size) && #[trigger] naked_move(*puz, h, vec[q]),
                    {
                        let mv = m[k].clone_move();
                        proof {
                            assert(sound_hint(*puz, m[k as int], solvet));
                            assert(naked_move(*puz, house, m[k as int]));
                            assert(crate::hint::distinct_records(m[k as int]));
                        }
                        vec.push(mv);
                        proof {
                            let n = vec.len() - 1;
                            assert(naked_move(*puz, house, vec[n as int]));
                        }
                    }
                }
                d = d + 1;
            }
        }
        if vec.len() == 0 {
            None
        } else {
            Some(vec)
        }
    }

}

/// A naked tuple move takes out of a cell no value that the unique solution puts there: the
/// cells of the tuple take all of its values.
pub proof fn lemma_naked_sound<V: BitSetInt>(puz: Sudoku<V>, house: House<usize>, c: Ctr<V>, m: Move<V>)
    requires
        puz.wf(),
        keeps_solution(puz),
        is_house(house, puz.grid.size),
        m.value_set is None,
        naked_move_for(puz, house, c, m),
    ensures
        sol_sound(puz, m),
{
    let h = house_nat(house);
    let cells = house_cells(puz.grid.size, h);
    assert(house_ok(puz.grid.size, h));
    assert(forall|k: int| 0 <= k < m.removed_potentials@.len() ==> {
        let p = #[trigger] m.removed_potentials@[k];
        &&& exists|q: int| 0 <= q < cells.len() && cells[q] == p.index.inner_index && !c.indices@.contains((q + 1) as nat)
        &&& p.value@.subset_of(c.values@)
    });
    lemma_naked_cells(puz, h, c, m);
}

/// The solution puts the values of a naked tuple in the cells of the tuple, so a move that
/// takes them out of other cells of the house takes out no value of the solution.
proof fn lemma_naked_cells<V: BitSetInt>(puz: Sudoku<V>, h: House<nat>, c: Ctr<V>, m: Move<V>)
    requires
        puz.wf(),
        keeps_solution(puz),
        house_ok(puz.grid.size, h),
        m.value_set is None,
        naked_in_house(puz, house_cells(puz.grid.size, h), c),
        c.wf(),
        popcnt(c.values.0.spec_nat()) == c.ind_count,
        forall|k: int| 0 <= k < m.removed_potentials@.len() ==> {
            let p = #[trigger] m.removed_potentials@[k];
            &&& exists|q: int| 0 <= q < house_cells(puz.grid.size, h).len() && house_cells(puz.grid.size, h)[q] == p.index.inner_index
                && !c.indices@.contains((q + 1) as nat)
            &&& p.value@.subset_of(c.values@)
        },
    ensures
        sol_sound(puz, m),
{
    let g = unique_grid(puz.solution)->Some_0;
    let size = puz.grid.size;
    let cells = house_cells(size, h);
    let pl = c.indices@;
    let vs = c.values@;
    crate::bitset::bitset::lemma_values_len(c.indices);
    crate::bitset::bitset::lemma_values_len(c.values);
    let f = |p: nat| gval(g, cells[p - 1] as int);
    assert forall|p: nat| #[trigger] pl.contains(p) implies vs.contains(f(p)) by {
        let q = p - 1;
        lemma_house_peers(size, h, q, q);
        let j = cells[q] as int;
        assert(cell_ok(puz.cells()[j], j, size));
        assert(puz.cells()[j].value is None) by {
            if puz.cells()[j].value is Some {
                assert(puz.cells()[j].flags.poss@.disjoint(vs));
            }
        }
        assert(puz.cells()[j] == puz.cells()[j]);
        assert(puz.cells()[j].flags.poss@.contains(gval(g, j)));
    }
    assert(vstd::relations::injective_on(f, pl)) by {
        assert forall|p1: nat, p2: nat| pl.contains(p1) && pl.contains(p2) && #[trigger] f(p1) == #[trigger] f(p2) implies p1 == p2 by {
            if p1 != p2 {
                lemma_house_peers(size, h, p1 - 1, p2 - 1);
                lemma_house_peers(size, h, p2 - 1, p1 - 1);
                lemma_sol_differs(puz, cells[p1 - 1] as int, cells[p2 - 1] as int);
            }
        }
    }
    lemma_onto(pl, vs, f);
    assert forall|k: int, x: nat| 0 <= k < m.removed_potentials@.len() && #[trigger] m.removed_potentials@[k].value@.contains(x)
        implies x != gval(g, m.removed_potentials@[k].index.inner_index as int) by {
        let p = m.removed_potentials@[k];
        let q = choose|q: int| 0 <= q < cells.len() && cells[q] == p.index.inner_index && !c.indices@.contains((q + 1) as nat);
        assert(vs.contains(x));
        let pp = choose|pp: nat| pl.contains(pp) && f(pp) == x;
        lemma_house_peers(size, h, q, pp - 1);
        lemma_house_peers(size, h, pp - 1, q);
        lemma_sol_differs(puz, cells[q] as int, cells[pp - 1] as int);
    }
}

impl<V: BitSetInt> TechStruct<V> for NakedTuple<V> {
    open spec fn spec_technique(&self) -> Technique {
        naked_technique(self.size)
    }

    /// No hint of the technique: every naked tuple of its size takes nothing out.
    open spec fn spec_finds_nothing(&self, puz: Sudoku<V>) -> bool {
        self.size > 0 ==> forall|h: House<usize>, s: Set<int>| is_house(h, puz.grid.size)
            && #[trigger] house_tuple(puz, house_cells(puz.grid.size, house_nat(h)), s, self.size as nat, true)
            ==> naked_removes_nothing(puz, house_cells(puz.grid.size, house_nat(h)), s)
    }

    /// The first naked tuple move, as the human solver asks for it.
    fn tech_hint(&self, puz: &Sudoku<V>) -> (r: Option<Move<V>>)
        ensures
            r matches Some(m) ==> sound_hint(*puz, m, naked_technique(self.size)) && m.value_set is None
                && crate::hint::distinct_records(m),
            r is None && self.size > 0 ==> forall|h: House<usize>, s: Set<int>| is_house(h, puz.grid.size)
                && #[trigger] house_tuple(*puz, house_cells(puz.grid.size, house_nat(h)), s, self.size as nat, true)
                ==> naked_removes_nothing(*puz, house_cells(puz.grid.size, house_nat(h)), s),
    {
        match self._hint(puz) {
            Some(v) => {
                let first = v[0].clone_move();
                proof {
                    assert(sound_hint(*puz, v[0], naked_technique(self.size)));
                    assert(crate::hint::distinct_records(v[0]));
                    if keeps_solution(*puz) {
                        let m = v[0];
                        let h = choose|h: House<usize>| is_house(h, puz.grid.size) && #[trigger] naked_move(*puz, h, m);
                        let cells = house_cells(puz.grid.size, house_nat(h));
                        let c = choose|c: Ctr<V>| #![trigger naked_in_house(*puz, cells, c)] naked_move_for(*puz, h, c, m);
                        lemma_naked_sound(*puz, h, c, m);
                    }
                }
                Some(first)
            },
            None => None,
        }
    }
}

} // verus!
