use vstd::prelude::*;
use crate::human_calcs::TechStruct;
use core::marker::PhantomData;
use crate::bitset::traits::BitSetInt;
use crate::bitset::bitset::{BitSet, values_of};
use crate::bitset::traits::{popcnt, bit_of, lemma_zero_bits, lemma_popcnt_add_bit};
use crate::bitset::bitsetiter::lemma_asc_from_contains;
use crate::grid::grid::house_cells;
use crate::grid::house::House;
use crate::human_calcs::hints::{sound_hint, lemma_nonzero_values};
use crate::human_calcs::technique::Technique;
use crate::move_change::Move;
use crate::sudoku::state::cell_ok;
use crate::sudoku::sudoku::Sudoku;
use crate::sudokusize::SudokuSize;
use crate::human_calcs::kept::{keeps_solution, lemma_only_place_sol};

verus! {

/// Value `v` is possible in the cell at place `k` of the list `idxs` and in no other cell of
/// the list.
pub open spec fn only_place<V: BitSetInt>(puz: Sudoku<V>, idxs: Seq<nat>, k: int, v: nat) -> bool {
    &&& 0 <= k < idxs.len()
    &&& puz.cells()[idxs[k] as int].flags.poss@.contains(v)
    &&& forall|k2: int| 0 <= k2 < idxs.len() && k2 != k ==> !puz.cells()[(#[trigger] idxs[k2]) as int].flags.poss@.contains(v)
}

/// Value `v` is possible in cell `i` of the house and in no other cell of it.
pub open spec fn only_place_in<V: BitSetInt>(puz: Sudoku<V>, house: House<nat>, i: nat, v: nat) -> bool {
    exists|k: int| #![trigger house_cells(puz.grid.size, house)[k]]
        only_place(puz, house_cells(puz.grid.size, house), k, v) && house_cells(puz.grid.size, house)[k] == i
}

/// Some row, column or box holds cell `i`, and value `v` is possible in that cell and in no
/// other cell of it.
pub open spec fn single_possibility<V: BitSetInt>(puz: Sudoku<V>, i: nat, v: nat) -> bool {
    exists|d: int, n: nat| #![trigger house_of(d, n)] 0 <= d <= 2 && n < puz.grid.size.spec_house()
        && only_place_in(puz, house_of(d, n), i, v)
}

/// The house of kind `d` (0 row, 1 column, 2 box) and number `n`, in spec form.
pub open spec fn house_of(d: int, n: nat) -> House<nat> {
    if d == 0 {
        House::Row(n)
    } else if d == 1 {
        House::Col(n)
    } else {
        House::Box(n)
    }
}

/// Value `x` has its only place of the list at place `k`, and no other value has its only
/// place there.
pub open spec fn lone_single<V: BitSetInt>(puz: Sudoku<V>, idxs: Seq<nat>, k: int, x: nat) -> bool {
    &&& only_place(puz, idxs, k, x)
    &&& forall|y: nat| #[trigger] only_place(puz, idxs, k, y) ==> y == x
}

/// A set of numbers that holds one value has one bit set.
proof fn lemma_one_value<V: BitSetInt>(s: BitSet<V>, x: nat)
    requires
        x >= 1,
        forall|y: nat| #[trigger] s@.contains(y) <==> y == x,
    ensures
        popcnt(s.0.spec_nat()) == 1,
{
    let n = s.0.spec_nat();
    let k = (x - 1) as nat;
    assert forall|i: nat| #[trigger] bit_of(n, i) == (bit_of(0, i) || i == k) by {
        lemma_zero_bits(i);
        assert(values_of(n).contains(i + 1) == bit_of(n, i));
        assert(s@.contains(i + 1) == (i + 1 == x));
    }
    lemma_zero_bits(k);
    lemma_popcnt_add_bit(0, n, k);
}

/// The number of a house.
pub open spec fn house_num(h: House<usize>) -> nat {
    match h {
        House::Row(n) => n as nat,
        House::Col(n) => n as nat,
        House::Box(n) => n as nat,
    }
}

/// Fills in single possibilities: a value that only one cell of a row, column or box can hold.
pub struct SinglePossibility<V: BitSetInt>(pub PhantomData<V>);

impl<V: BitSetInt> SinglePossibility<V> {
    pub fn new() -> (r: Self) {
        SinglePossibility(PhantomData)
    }

    /// Looks in the house for a value that only one of its cells can hold, that cell having
    /// no other such value; the move fills it in.
    fn in_house(puz: &Sudoku<V>, house: House<usize>, d: Ghost<int>) -> (r: Option<Move<V>>)
        requires
            puz.wf(),
            0 <= d@ <= 2,
            match house {
                House::Row(n) => d@ == 0 && n < puz.grid.size.spec_house(),
                House::Col(n) => d@ == 1 && n < puz.grid.size.spec_house(),
                House::Box(n) => d@ == 2 && n < puz.grid.size.spec_house(),
            },
        ensures
            r matches Some(m) ==> sound_hint(*puz, m, Technique::SinglePossibility)
                && m.removed_potentials@.len() == 0 && m.used_to_solve@.len() == 0
                && (m.value_set matches Some(p) && p.index.size == puz.grid.size
                    && only_place_in(*puz, house_of(d@, match house { House::Row(n) => n as nat, House::Col(n) => n as nat, House::Box(n) => n as nat }),
                        p.index.inner_index as nat, p.value.spec_nat())),
            r is None ==> forall|k: int, x: nat| !#[trigger] lone_single(*puz, house_cells(puz.grid.size,
                house_of(d@, house_num(house))), k, x),
    {
        let ghost size = puz.grid.size;
        let ghost n = match house { House::Row(n) => n, House::Col(n) => n, House::Box(n) => n };
        let ghost idxs = house_cells(size, house_of(d@, n as nat));
        let it = puz.house_iter(house);
        proof {
            assert(it@ =~= idxs.map_values(|x: nat| x as usize));
            size.lemma_sizes();
            assert forall|j: int| 0 <= j < idxs.len() implies #[trigger] idxs[j] < size.spec_total() by {
                crate::grid::grid::lemma_house_cells(size, house_of(d@, n as nat), j);
            }
        }
        let mut multi: BitSet<V> = BitSet::empty();
        let mut ones: BitSet<V> = BitSet::empty();
        for q in 0..it.len()
            invariant
                puz.wf(),
                it@ == idxs.map_values(|x: nat| x as usize),
                forall|k: int| 0 <= k < it.len() ==> #[trigger] it[k] < puz.grid.size.spec_total(),
                forall|x: nat| #[trigger] ones@.contains(x) <==> exists|j: int| 0 <= j < q && puz.cells()[it[j] as int].flags.poss@.contains(x),
                forall|x: nat| #[trigger] multi@.contains(x) <==> exists|j1: int, j2: int| 0 <= j1 < j2 < q
                    && puz.cells()[it[j1] as int].flags.poss@.contains(x) && puz.cells()[it[j2] as int].flags.poss@.contains(x),
        {
            let p = *puz.grid.items[it[q]].poss();
            let ghost old_ones = ones;
            let ghost old_multi = multi;
            multi = multi.union(ones.intersect(p));
            ones = ones.union(p);
            proof {
                assert forall|x: nat| #[trigger] ones@.contains(x) <==> exists|j: int| 0 <= j < q + 1 && puz.cells()[it[j] as int].flags.poss@.contains(x) by {
                    if ones@.contains(x) && !old_ones@.contains(x) {
                        assert(puz.cells()[it[q as int] as int].flags.poss@.contains(x));
                    }
                    if exists|j: int| 0 <= j < q + 1 && puz.cells()[it[j] as int].flags.poss@.contains(x) {
                        let j = choose|j: int| 0 <= j < q + 1 && puz.cells()[it[j] as int].flags.poss@.contains(x);
                        if j < q {
                            assert(old_ones@.contains(x));
                        }
                    }
                }
                assert forall|x: nat| #[trigger] multi@.contains(x) <==> exists|j1: int, j2: int| 0 <= j1 < j2 < q + 1
                    && puz.cells()[it[j1] as int].flags.poss@.contains(x) && puz.cells()[it[j2] as int].flags.poss@.contains(x) by {
                    if multi@.contains(x) && !old_multi@.contains(x) {
                        let j = choose|j: int| 0 <= j < q && puz.cells()[it[j] as int].flags.poss@.contains(x);
                        assert(puz.cells()[it[q as int] as int].flags.poss@.contains(x));
                        assert(0 <= j < q as int && q < q + 1);
                    }
                    if exists|j1: int, j2: int| 0 <= j1 < j2 < q + 1
                        && puz.cells()[it[j1] as int].flags.poss@.contains(x) && puz.cells()[it[j2] as int].flags.poss@.contains(x) {
                        let (j1, j2) = choose|j1: int, j2: int| 0 <= j1 < j2 < q + 1
                            && puz.cells()[it[j1] as int].flags.poss@.contains(x) && puz.cells()[it[j2] as int].flags.poss@.contains(x);
                        if j2 < q {
                            assert(old_multi@.contains(x));
                        } else {
                            assert(old_ones@.contains(x));
                        }
                    }
                }
            }
        }
        let singles = ones.difference(multi);
        proof {
            assert forall|k: int, y: nat| #[trigger] only_place(*puz, idxs, k, y) implies singles@.contains(y) by {
                assert(idxs[k] == it[k]);
                assert(ones@.contains(y));
                if multi@.contains(y) {
                    let (j1, j2) = choose|j1: int, j2: int| 0 <= j1 < j2 < it.len()
                        && puz.cells()[it[j1] as int].flags.poss@.contains(y) && puz.cells()[it[j2] as int].flags.poss@.contains(y);
                    assert(idxs[j1] == it[j1]);
                    assert(idxs[j2] == it[j2]);
                }
            }
        }
        if singles.eq_set(BitSet::empty()) {
            proof {
                assert forall|k: int, x: nat| !#[trigger] lone_single(*puz, idxs, k, x) by {
                    if only_place(*puz, idxs, k, x) {
                        assert(singles@.contains(x));
                    }
                }
            }
            return None;
        }
        for k in 0..it.len()
            invariant
                puz.wf(),
                it@ == idxs.map_values(|x: nat| x as usize),
                idxs.len() == it.len(),
                forall|j: int| 0 <= j < it.len() ==> #[trigger] it[j] < puz.grid.size.spec_total(),
                forall|x: nat| #[trigger] ones@.contains(x) <==> exists|j: int| 0 <= j < it.len() && puz.cells()[it[j] as int].flags.poss@.contains(x),
                forall|x: nat| #[trigger] multi@.contains(x) <==> exists|j1: int, j2: int| 0 <= j1 < j2 < it.len()
                    && puz.cells()[it[j1] as int].flags.poss@.contains(x) && puz.cells()[it[j2] as int].flags.poss@.contains(x),
                singles@ == ones@.difference(multi@),
                forall|j: int| 0 <= j < idxs.len() ==> #[trigger] idxs[j] < puz.grid.size.spec_total(),
                puz.grid.size.spec_total() <= 10000,
                idxs == house_cells(puz.grid.size, house_of(d@, n as nat)),
                n == match house { House::Row(n) => n, House::Col(n) => n, House::Box(n) => n },
                forall|k2: int, y: nat| #[trigger] only_place(*puz, idxs, k2, y) ==> singles@.contains(y),
                forall|k2: int, x: nat| 0 <= k2 < k ==> !#[trigger] lone_single(*puz, idxs, k2, x),
        {
            let at = it[k];
            let vali = puz.grid.items[at].poss().intersect(singles);
            proof {
                assert(idxs[k as int] == at);
                assert forall|y: nat| vali@.contains(y) implies #[trigger] only_place(*puz, idxs, k as int, y) by {
                    assert forall|k2: int| 0 <= k2 < idxs.len() && k2 != k implies !puz.cells()[(#[trigger] idxs[k2]) as int].flags.poss@.contains(y) by {
                        assert(idxs[k2] == it[k2]);
                        if puz.cells()[it[k2] as int].flags.poss@.contains(y) {
                            if k2 < k {
                                assert(multi@.contains(y));
                            } else {
                                assert(multi@.contains(y));
                            }
                        }
                    }
                }
            }
            if !vali.eq_set(BitSet::empty()) && vali.count_u32() == 1 {
                proof {
                    lemma_nonzero_values(vali.0);
                }
                let mut vit = vali.iter();
                match vit.next() {
                    Some(val) => {
                        proof {
                            lemma_asc_from_contains(vali.0.spec_nat(), 1, V::width(), val@);
                            let x = val@;
                            assert(vali@.contains(x));
                            assert(puz.cells()[at as int].flags.poss@.contains(x));
                            assert(cell_ok(puz.cells()[at as int], at as int, puz.grid.size));
                            assert(idxs[k as int] == at);
                            assert forall|k2: int| 0 <= k2 < idxs.len() && k2 != k implies !puz.cells()[(#[trigger] idxs[k2]) as int].flags.poss@.contains(x) by {
                                assert(idxs[k2] == it[k2]);
                                if puz.cells()[it[k2] as int].flags.poss@.contains(x) {
                                    if k2 < k {
                                        assert(multi@.contains(x));
                                    } else {
                                        assert(multi@.contains(x));
                                    }
                                }
                            }
                            assert(only_place(*puz, idxs, k as int, x));
                            assert(house_cells(puz.grid.size, house_of(d@, n as nat))[k as int] == at);
                            assert(only_place_in(*puz, house_of(d@, n as nat), at as nat, x));
                        }
                        let mut themove = Move::new();
                        themove.set_method(Some(Technique::SinglePossibility));
                        themove.set_value(puz.upgrade_index(at), val.to_value(), false);
                        return Some(themove);
                    },
                    None => {
                        proof { assert(false); }
                    },
                }
            }
            proof {
                assert forall|k2: int, x: nat| 0 <= k2 < k + 1 implies !#[trigger] lone_single(*puz, idxs, k2, x) by {
                    if k2 == k && lone_single(*puz, idxs, k2, x) {
                        assert forall|y: nat| #[trigger] vali@.contains(y) <==> y == x by {
                            if vali@.contains(y) {
                                assert(only_place(*puz, idxs, k as int, y));
                            }
                            if y == x {
                                assert(singles@.contains(x));
                            }
                        }
                        lemma_one_value(vali, x);
                        assert(vali@.contains(x));
                    }
                }
            }
        }
        None
    }

    /// The first single possibility found, looking at row, column and box 0, then 1, and so
    /// on; `None` when there is none.
    pub fn _hint(puz: &Sudoku<V>) -> (r: Option<Move<V>>)
        requires
            puz.wf(),
        ensures
            r matches Some(m) ==> sound_hint(*puz, m, Technique::SinglePossibility)
                && m.removed_potentials@.len() == 0 && m.used_to_solve@.len() == 0
                && (m.value_set matches Some(p) && p.index.size == puz.grid.size
                    && single_possibility(*puz, p.index.inner_index as nat, p.value.spec_nat())),
            r is None ==> forall|d: int, n: nat, k: int, x: nat| 0 <= d <= 2 && n < puz.grid.size.spec_house()
                ==> !#[trigger] lone_single(*puz, house_cells(puz.grid.size, house_of(d, n)), k, x),
    {
        let house = puz.house_size();
        for rcb in 0..house
            invariant
                puz.wf(),
                house == puz.grid.size.spec_house(),
                forall|d: int, n: nat, k: int, x: nat| 0 <= d <= 2 && n < rcb
                    ==> !#[trigger] lone_single(*puz, house_cells(puz.grid.size, house_of(d, n)), k, x),
        {
            let r = Self::in_house(puz, House::Row(rcb), Ghost(0));
            if r.is_some() {
                return r;
            }
            let r = Self::in_house(puz, House::Col(rcb), Ghost(1));
            if r.is_some() {
                return r;
            }
            let r = Self::in_house(puz, House::Box(rcb), Ghost(2));
            if r.is_some() {
                return r;
            }
            proof {
                assert(house_num(House::Row(rcb)) == rcb as nat);
                assert(house_num(House::Col(rcb)) == rcb as nat);
                assert(house_num(House::Box(rcb)) == rcb as nat);
                assert forall|d: int, n: nat, k: int, x: nat| 0 <= d <= 2 && n < rcb + 1
                    implies !#[trigger] lone_single(*puz, house_cells(puz.grid.size, house_of(d, n)), k, x) by {
                    if n == rcb {
                        if d == 0 {
                        } else if d == 1 {
                        } else {
                        }
                    }
                }
            }
        }
        None
    }
}

impl<V: BitSetInt> TechStruct<V> for SinglePossibility<V> {
    open spec fn spec_technique(&self) -> Technique {
        Technique::SinglePossibility
    }

    /// No hint of the technique: no value stands alone in a house.
    open spec fn spec_finds_nothing(&self, puz: Sudoku<V>) -> bool {
        forall|d: int, n: nat, k: int, x: nat| 0 <= d <= 2 && n < puz.grid.size.spec_house()
            ==> !#[trigger] lone_single(puz, house_cells(puz.grid.size, house_of(d, n)), k, x)
    }

    /// A value with a single place in a house, filled there.
    fn tech_hint(&self, puz: &Sudoku<V>) -> (r: Option<Move<V>>)
        ensures
            r matches Some(m) ==> sound_hint(*puz, m, Technique::SinglePossibility),
            r is None ==> forall|d: int, n: nat, k: int, x: nat| 0 <= d <= 2 && n < puz.grid.size.spec_house()
                ==> !#[trigger] lone_single(*puz, house_cells(puz.grid.size, house_of(d, n)), k, x),
    {
        let r = Self::_hint(puz);
        proof {
            if r is Some && keeps_solution(*puz) {
                let m = r->Some_0;
                let p = m.value_set->Some_0;
                let t = p.index.inner_index as nat;
                let v = p.value.spec_nat();
                let (d, n) = choose|d: int, n: nat| #![trigger house_of(d, n)] 0 <= d <= 2 && n < puz.grid.size.spec_house()
                    && only_place_in(*puz, house_of(d, n), t, v);
                let h = house_of(d, n);
                let k = choose|k: int| #![trigger house_cells(puz.grid.size, h)[k]]
                    only_place(*puz, house_cells(puz.grid.size, h), k, v) && house_cells(puz.grid.size, h)[k] == t;
                lemma_only_place_sol(*puz, h, k, v);
            }
        }
        r
    }
}

} // verus!
