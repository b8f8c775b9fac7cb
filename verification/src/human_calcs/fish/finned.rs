use vstd::prelude::*;
use crate::human_calcs::TechStruct;
use core::marker::PhantomData;
use crate::bitset::traits::{BitSetInt, popcnt};
use crate::bitset::bit::Bit;
use crate::bitset::bitset::BitSet;
use crate::bitset::bitsetiter::{asc_from, lemma_asc_from_contains};
use crate::grid::gridcoord::{HouseCoord, GridCoord};
use crate::grid::grid::house_cells;
use crate::grid::house::House;
use crate::grid::types::{Row, Col, GridBox, Index, cell_row, cell_col, cell_box, box_of, row_of, col_of};
use crate::hint::distinct_records;
use crate::human_calcs::basic::candidates::vec_contains;
use crate::human_calcs::fish::fishtuple::{FishCtr, FishTupleCtr, line_cell, may_hold, lemma_line_cell,
    lemma_popcnt_insert_value, lemma_single_value, lemma_first_value, lemma_holds_counts};
use crate::human_calcs::hints::sound_hint;
use crate::human_calcs::technique::Technique;
use crate::human_calcs::tuple_ctr::{next_pos, lemma_subset_same_len};
use crate::move_change::{Move, IndexValuePair};
use crate::sudoku::sudoku::Sudoku;
use crate::sudoku::access::unique_grid;
use crate::sudoku::state::peers;
use crate::human_calcs::kept::{keeps_solution, sol_sound, gval, house_ok, lemma_sol_possible, lemma_sol_differs};
use crate::human_calcs::fish::basicfish::{fish_placed, line_house_of, lemma_fish_onto, lemma_line_pair};
use crate::sudokusize::SudokuSize;

verus! {

/// The shape of a finned fish: value `val` may stand in the lines `sets.primary` only at the
/// places `sets.indices` and at place `fc` of line `fl`, the fin (lines and places counted
/// from one); the fin cell may hold `val`.
pub open spec fn finned_shape<V: BitSetInt>(puz: Sudoku<V>, row: bool, val: nat, sets: FishCtr<V>, fl: nat, fc: nat) -> bool {
    let h = puz.grid.size.spec_house();
    &&& forall|x: nat| #[trigger] sets.primary@.contains(x) ==> 1 <= x <= h
    &&& 1 <= fl <= h
    &&& 1 <= fc <= h
    &&& sets.primary@.contains(fl)
    &&& !sets.indices@.contains(fc)
    &&& may_hold(puz, row, val, fl, fc)
    &&& forall|x: nat, p: nat| sets.primary@.contains(x) && 1 <= p <= h && #[trigger] may_hold(puz, row, val, x, p)
        ==> sets.indices@.contains(p) || p == fc
    &&& forall|p: nat| #[trigger] sets.indices@.contains(p) ==> 1 <= p <= h
    &&& forall|x: nat| sets.primary@.contains(x) && #[trigger] may_hold(puz, row, val, x, fc) ==> x == fl
    &&& lines_seen(puz, row, val, sets.primary@)
}

/// Value `val` may stand somewhere in each of the lines `xs` (counted from one).
#[verifier::opaque]
pub open spec fn lines_seen<V: BitSetInt>(puz: Sudoku<V>, row: bool, val: nat, xs: Set<nat>) -> bool {
    forall|x: nat| #[trigger] xs.contains(x) ==> exists|p: nat| 1 <= p <= puz.grid.size.spec_house()
        && #[trigger] may_hold(puz, row, val, x, p)
}

/// The move is a finned fish of `n` lines: `n` lines where a value may stand only at `n`
/// places and at a fin; the move takes the value out of the cells at those places, in other
/// lines, that share the box of the fin: out of each such cell that may hold it.
pub open spec fn finned_fish_move<V: BitSetInt>(puz: Sudoku<V>, row: bool, n: nat, m: Move<V>) -> bool {
    exists|val: nat, sets: FishCtr<V>, fl: nat, fc: nat| #![trigger finned_removals(puz, row, n, val, sets, fl, fc, m.removed_potentials@)]
        finned_removals(puz, row, n, val, sets, fl, fc, m.removed_potentials@)
        && finned_used_sound(puz, row, val, sets, fc, m.used_to_solve@)
        && finned_used_complete(puz, row, val, sets, m.used_to_solve@)
        && finned_fin_complete(puz, row, val, sets, fc, m.used_to_solve@)
}

/// The records `removed` of a finned fish of `n` lines for `val`, on the lines and places of
/// `sets`, with the fin at place `fc` of line `fl`: each takes `val` out of a cell at a place
/// of the fish, in another line, in the box of the fin, and each such cell that may hold
/// `val` has one.
pub open spec fn finned_removals<V: BitSetInt>(puz: Sudoku<V>, row: bool, n: nat, val: nat, sets: FishCtr<V>, fl: nat, fc: nat,
    removed: Seq<IndexValuePair<BitSet<V>>>) -> bool {
    let h = puz.grid.size.spec_house();
    let size = puz.grid.size;
    &&& finned_shape(puz, row, val, sets, fl, fc)
    &&& popcnt(sets.primary.0.spec_nat()) == n
    &&& popcnt(sets.indices.0.spec_nat()) == n
    &&& forall|k: int| 0 <= k < removed.len() ==> {
        let p = #[trigger] removed[k];
        &&& p.value@ == Set::<nat>::empty().insert(val)
        &&& box_of(size, p.index.inner_index as nat) == box_of(size, line_cell(size, row, (fl - 1) as nat, (fc - 1) as nat))
        &&& exists|x: nat, q: nat| 1 <= x <= h && 1 <= q <= h && !sets.primary@.contains(x) && sets.indices@.contains(q)
            && p.index.inner_index == line_cell(size, row, (x - 1) as nat, (q - 1) as nat)
    }
    &&& finned_complete(puz, row, val, sets, fl, fc, removed)
}

/// Each record of `used` names, with `val`, a cell of a line of the finned fish, at one of
/// its places or at the place `fc` of the fin, that may hold `val`.
pub open spec fn finned_used_sound<V: BitSetInt>(puz: Sudoku<V>, row: bool, val: nat, sets: FishCtr<V>, fc: nat,
    used: Seq<IndexValuePair<BitSet<V>>>) -> bool {
    forall|k: int| 0 <= k < used.len() ==> {
        let p = #[trigger] used[k];
        &&& p.value@ == Set::<nat>::empty().insert(val)
        &&& exists|x: nat, q: nat| sets.primary@.contains(x) && (sets.indices@.contains(q) || q == fc)
            && may_hold(puz, row, val, x, q) && p.index.inner_index == line_cell(puz.grid.size, row, (x - 1) as nat, (q - 1) as nat)
    }
}

/// Each cell of the lines of the finned fish at its places that may hold `val` has a record
/// in `used`.
pub open spec fn finned_used_complete<V: BitSetInt>(puz: Sudoku<V>, row: bool, val: nat, sets: FishCtr<V>,
    used: Seq<IndexValuePair<BitSet<V>>>) -> bool {
    forall|x: nat, q: nat| sets.primary@.contains(x) && sets.indices@.contains(q)
        && #[trigger] may_hold(puz, row, val, x, q) ==> exists|k: int| 0 <= k < used.len()
            && (#[trigger] used[k]).index.inner_index == line_cell(puz.grid.size, row, (x - 1) as nat, (q - 1) as nat)
}

/// Each cell of the lines of the finned fish at the place `fc` of the fin that may hold `val`
/// has a record in `used`.
pub open spec fn finned_fin_complete<V: BitSetInt>(puz: Sudoku<V>, row: bool, val: nat, sets: FishCtr<V>, fc: nat,
    used: Seq<IndexValuePair<BitSet<V>>>) -> bool {
    forall|x: nat| sets.primary@.contains(x) && #[trigger] may_hold(puz, row, val, x, fc)
        ==> exists|k: int| 0 <= k < used.len()
            && (#[trigger] used[k]).index.inner_index == line_cell(puz.grid.size, row, (x - 1) as nat, (fc - 1) as nat)
}

/// Each cell at a place of the finned fish, in another line, in the box of the fin, that may
/// hold `val`, has a record in `removed`.
pub open spec fn finned_complete<V: BitSetInt>(puz: Sudoku<V>, row: bool, val: nat, sets: FishCtr<V>, fl: nat, fc: nat,
    removed: Seq<IndexValuePair<BitSet<V>>>) -> bool {
    let size = puz.grid.size;
    forall|x: nat, q: nat| 1 <= x <= size.spec_house() && !sets.primary@.contains(x) && sets.indices@.contains(q)
        && box_of(size, line_cell(size, row, (x - 1) as nat, (q - 1) as nat)) == box_of(size, line_cell(size, row, (fl - 1) as nat, (fc - 1) as nat))
        && #[trigger] may_hold(puz, row, val, x, q) ==> exists|k: int| 0 <= k < removed.len()
            && (#[trigger] removed[k]).index.inner_index == line_cell(size, row, (x - 1) as nat, (q - 1) as nat)
}

/// The technique of a finned fish of `size` lines.
pub open spec fn finned_technique(size: usize) -> Technique {
    if size == 4 {
        Technique::FinnedJellyfish
    } else if size == 3 {
        Technique::FinnedSwordfish
    } else if size == 2 {
        Technique::FinnedXWing
    } else {
        Technique::FishN(size)
    }
}

/// Finned fish: a fish whose lines hold the value at one more place, the fin; only the cells
/// that share the fin's box lose the value.
pub struct FinnedFish<V: BitSetInt> {
    pub size: usize,
    pub phantom: PhantomData<V>,
}

/// A finned fish being built: `sets` holds the lines and the places where two lines meet,
/// `extra` the lines and all their places.
#[derive(Clone, Copy, Debug)]
struct FinCand<T: BitSetInt> {
    sets: FishCtr<T>,
    extra: FishCtr<T>,
}

/// Some counter of `l` has place `p`.
pub open spec fn fish_places<T: BitSetInt>(a: Seq<FishCtr<T>>, l: Set<int>, p: nat) -> bool {
    exists|v: int| #![trigger a[v].indices@.contains(p)] l.contains(v) && 0 <= v < a.len() && a[v].indices@.contains(p)
}

/// Two counters of `l` have place `p`.
pub open spec fn twice_places<T: BitSetInt>(a: Seq<FishCtr<T>>, l: Set<int>, p: nat) -> bool {
    exists|v1: int, v2: int| #![trigger a[v1].indices@.contains(p), a[v2].indices@.contains(p)]
        l.contains(v1) && l.contains(v2) && v1 != v2 && 0 <= v1 < a.len() && 0 <= v2 < a.len()
        && a[v1].indices@.contains(p) && a[v2].indices@.contains(p)
}

/// The candidate holds the lines `l` (line `v` as `v + 1`), all their places, and the places
/// of two of them.
spec fn cand_ok<T: BitSetInt>(a: Seq<FishCtr<T>>, c: FinCand<T>, l: Set<int>) -> bool {
    &&& c.sets.wf()
    &&& c.extra.wf()
    &&& forall|x: nat| #[trigger] c.extra.primary@.contains(x) <==> (x >= 1 && l.contains(x - 1))
    &&& c.sets.primary@ == c.extra.primary@
    &&& forall|p: nat| #[trigger] c.extra.indices@.contains(p) <==> fish_places(a, l, p)
    &&& c.sets.indices@.subset_of(c.extra.indices@)
    &&& forall|p: nat| #[trigger] c.sets.indices@.contains(p) <==> twice_places(a, l, p)
}

/// The lines `l` counted from one.
pub open spec fn line_set(l: Set<int>) -> Set<nat> {
    Set::new(|x: nat| x >= 1 && l.contains(x - 1))
}

/// The places of the counters `l`.
pub open spec fn place_set<T: BitSetInt>(a: Seq<FishCtr<T>>, l: Set<int>) -> Set<nat> {
    Set::new(|p: nat| fish_places(a, l, p))
}

/// The places of two of the counters `l`.
pub open spec fn twice_set<T: BitSetInt>(a: Seq<FishCtr<T>>, l: Set<int>) -> Set<nat> {
    Set::new(|p: nat| twice_places(a, l, p))
}

/// The places of only one of the counters `l`: the fin.
pub open spec fn fin_set<T: BitSetInt>(a: Seq<FishCtr<T>>, l: Set<int>) -> Set<nat> {
    place_set(a, l).difference(twice_set(a, l))
}

/// The lines of `l` (from one) that have a place of the fin.
pub open spec fn fin_lines<T: BitSetInt>(a: Seq<FishCtr<T>>, l: Set<int>) -> Set<nat> {
    Set::new(|x: nat| x >= 1 && l.contains(x - 1) && exists|p: nat| fin_set(a, l).contains(p) && #[trigger] a[x - 1].indices@.contains(p))
}

/// The counters `l` make a finned fish of `n` lines that the search takes, with bands of `w`
/// boxes: `n` lines that each have a place, `n` places that two of them share and one more,
/// the fin, which shares a band with one of those places; and at most one pair of a line and
/// a line with the fin lies in one band.
pub open spec fn finned_choice<T: BitSetInt>(a: Seq<FishCtr<T>>, l: Set<int>, n: nat, w: nat) -> bool {
    &&& l.finite()
    &&& l.len() == n
    &&& forall|v: int| #[trigger] l.contains(v) ==> 0 <= v < a.len() && a[v].indices@ != Set::<nat>::empty()
    &&& twice_set(a, l).len() == n
    &&& place_set(a, l).len() == n + 1
    &&& covered_by(twice_set(a, l), fin_set(a, l), w)
    &&& overlap_free(line_set(l), fin_lines(a, l), w)
}

/// Counters `a`, one per line (rows when `row`), that hold where `val` may stand in each.
pub open spec fn value_lines<V: BitSetInt>(puz: Sudoku<V>, row: bool, val: nat, a: Seq<FishCtr<V>>) -> bool {
    &&& a.len() == puz.grid.size.spec_house()
    &&& forall|i: int, p: nat| 0 <= i < a.len() ==> (#[trigger] a[i].indices@.contains(p)
        <==> (1 <= p <= puz.grid.size.spec_house() && may_hold(puz, row, val, (i + 1) as nat, p)))
}

/// The lines `s` (from zero) make a finned fish of `n` lines for value `val`.
pub open spec fn finned_lines<V: BitSetInt>(puz: Sudoku<V>, row: bool, val: nat, s: Set<int>, n: nat) -> bool {
    exists|a: Seq<FishCtr<V>>| #[trigger] value_lines(puz, row, val, a) && finned_choice(a, s, n, puz.grid.size.spec_size())
}

/// The finned fish on the lines `s` takes nothing: no cell of another line, at a place that
/// two of its lines share, in the box of the fin's cell, may hold `val`.
pub open spec fn finned_takes_nothing<V: BitSetInt>(puz: Sudoku<V>, row: bool, val: nat, a: Seq<FishCtr<V>>, s: Set<int>) -> bool {
    let size = puz.grid.size;
    forall|x: nat, q: nat, y: nat, f: nat| #![trigger may_hold(puz, row, val, x, q), fin_lines(a, s).contains(y), fin_set(a, s).contains(f)]
        1 <= x <= size.spec_house() && !line_set(s).contains(x) && twice_set(a, s).contains(q)
        && fin_lines(a, s).contains(y) && fin_set(a, s).contains(f)
        && box_of(size, line_cell(size, row, (x - 1) as nat, (q - 1) as nat)) == box_of(size, line_cell(size, row, (y - 1) as nat, (f - 1) as nat))
        ==> !may_hold(puz, row, val, x, q)
}

/// The line (from zero) of cell `e`: its row when `row`, else its column.
pub open spec fn line_of(size: SudokuSize, row: bool, e: nat) -> nat {
    if row { row_of(size, e) } else { col_of(size, e) }
}

/// The place (from zero) of cell `e` in its line.
pub open spec fn place_in_line(size: SudokuSize, row: bool, e: nat) -> nat {
    if row { col_of(size, e) } else { row_of(size, e) }
}

/// Every cell at place `q` of its line is in `sec`.
spec fn covers(sec: Seq<usize>, size: SudokuSize, row: bool, q: nat) -> bool {
    forall|e: nat| e < size.spec_total() && #[trigger] place_in_line(size, row, e) == q ==> sec.contains(e as usize)
}

/// A cell that lies at a place of the fish (in the list `secondaries` of the cells of its
/// places) but is none of the cells of its lines at its places (in `involved`) lies in a line
/// outside the fish: the line and place (from one) of it.
proof fn lemma_fin_record<V: BitSetInt>(sz: SudokuSize, row: bool, sets: FishCtr<V>, affected: usize,
    sprims: Seq<usize>, ssecs: Seq<usize>, involved: Seq<usize>, secondaries: Seq<usize>) -> (r: (nat, nat))
    requires
        secondaries.contains(affected),
        forall|e: usize| #[trigger] secondaries.contains(e) ==> exists|x: nat, b2: int| x < sz.spec_house() && 0 <= b2 < ssecs.len()
            && e == line_cell(sz, row, x, ssecs[b2] as nat),
        !involved.contains(affected),
        forall|q: int| 0 <= q < ssecs.len() ==> #[trigger] ssecs[q] < sz.spec_house()
            && sets.indices@.contains((ssecs[q] + 1) as nat),
        sprims.len() == asc_from(sets.primary.0.spec_nat(), 1, V::width()).len(),
        forall|q: int| 0 <= q < sprims.len() ==> #[trigger] sprims[q] + 1 == asc_from(sets.primary.0.spec_nat(), 1, V::width())[q],
        forall|a2: int, b2: int| 0 <= a2 < sprims.len() && 0 <= b2 < ssecs.len()
            ==> involved.contains(line_cell(sz, row, #[trigger] sprims[a2] as nat, #[trigger] ssecs[b2] as nat) as usize),
    ensures
        1 <= r.0 <= sz.spec_house(),
        1 <= r.1 <= sz.spec_house(),
        !sets.primary@.contains(r.0),
        sets.indices@.contains(r.1),
        affected == line_cell(sz, row, (r.0 - 1) as nat, (r.1 - 1) as nat),
{
    let (x0, b2) = choose|x: nat, b2: int| x < sz.spec_house() && 0 <= b2 < ssecs.len()
        && affected == line_cell(sz, row, x, ssecs[b2] as nat);
    let q = (ssecs[b2] + 1) as nat;
    if sets.primary@.contains(x0 + 1) {
        lemma_listed(sets.primary, x0 + 1);
        let sq = asc_from(sets.primary.0.spec_nat(), 1, V::width());
        let a2 = choose|a2: int| 0 <= a2 < sq.len() && #[trigger] sq[a2] == x0 + 1;
        assert(sprims[a2] == x0);
        assert(involved.contains(line_cell(sz, row, sprims[a2] as nat, ssecs[b2] as nat) as usize));
    }
    ((x0 + 1) as nat, q)
}

/// Records of every cell of the fish at its places stay in a list that keeps them first.
proof fn lemma_used_cover_grows<V: BitSetInt>(puz: Sudoku<V>, row: bool, v: nat, sets: FishCtr<V>,
    used1: Seq<IndexValuePair<BitSet<V>>>, used: Seq<IndexValuePair<BitSet<V>>>)
    requires
        finned_used_complete(puz, row, v, sets, used1),
        used1.len() <= used.len(),
        forall|k: int| 0 <= k < used1.len() ==> #[trigger] used[k] == used1[k],
    ensures
        finned_used_complete(puz, row, v, sets, used),
{
    assert forall|x: nat, q: nat| sets.primary@.contains(x) && sets.indices@.contains(q)
        && #[trigger] may_hold(puz, row, v, x, q) implies exists|k: int| 0 <= k < used.len()
            && (#[trigger] used[k]).index.inner_index == line_cell(puz.grid.size, row, (x - 1) as nat, (q - 1) as nat) by {
        let k = choose|k: int| 0 <= k < used1.len()
            && (#[trigger] used1[k]).index.inner_index == line_cell(puz.grid.size, row, (x - 1) as nat, (q - 1) as nat);
        assert(used[k] == used1[k]);
    }
}

/// Every cell of the lines of `sets` at its places that may hold `v`, in the lists `sprims`
/// and `ssecs` (from zero) of its lines and places, reaches `used`.
proof fn lemma_finned_used_cover<V: BitSetInt>(puz: Sudoku<V>, row: bool, v: nat, sets: FishCtr<V>, sprims: Seq<usize>,
    ssecs: Seq<usize>, used: Seq<IndexValuePair<BitSet<V>>>)
    requires
        sprims.len() == asc_from(sets.primary.0.spec_nat(), 1, V::width()).len(),
        forall|k: int| 0 <= k < sprims.len() ==> #[trigger] sprims[k] + 1 == asc_from(sets.primary.0.spec_nat(), 1, V::width())[k],
        ssecs.len() == asc_from(sets.indices.0.spec_nat(), 1, V::width()).len(),
        forall|k: int| 0 <= k < ssecs.len() ==> #[trigger] ssecs[k] + 1 == asc_from(sets.indices.0.spec_nat(), 1, V::width())[k],
        forall|a2: int, b2: int| #![trigger sprims[a2], ssecs[b2]] 0 <= a2 < sprims.len() && 0 <= b2 < ssecs.len()
            && may_hold(puz, row, v, (sprims[a2] + 1) as nat, (ssecs[b2] + 1) as nat)
            ==> exists|k: int| 0 <= k < used.len()
                && (#[trigger] used[k]).index.inner_index == line_cell(puz.grid.size, row, sprims[a2] as nat, ssecs[b2] as nat),
    ensures
        finned_used_complete(puz, row, v, sets, used),
{
    assert forall|x: nat, q: nat| sets.primary@.contains(x) && sets.indices@.contains(q)
        && #[trigger] may_hold(puz, row, v, x, q) implies exists|k: int| 0 <= k < used.len()
            && (#[trigger] used[k]).index.inner_index == line_cell(puz.grid.size, row, (x - 1) as nat, (q - 1) as nat) by {
        lemma_listed(sets.indices, q);
        let sq = asc_from(sets.indices.0.spec_nat(), 1, V::width());
        let b2 = choose|b2: int| 0 <= b2 < sq.len() && #[trigger] sq[b2] == q;
        assert(ssecs[b2] + 1 == q);
        lemma_listed(sets.primary, x);
        let sp = asc_from(sets.primary.0.spec_nat(), 1, V::width());
        let a2 = choose|a2: int| 0 <= a2 < sp.len() && #[trigger] sp[a2] == x;
        assert(sprims[a2] + 1 == x);
        assert(may_hold(puz, row, v, (sprims[a2] + 1) as nat, (ssecs[b2] + 1) as nat));
    }
}

/// A line of the candidate that may hold `v` at the place `fc` of its fin is a line with the
/// fin.
proof fn lemma_fin_lines_hold<V: BitSetInt>(puz: Sudoku<V>, row: bool, v: nat, a: Seq<FishCtr<V>>, t: FinCand<V>,
    s0: Set<int>, fc: nat)
    requires
        value_lines(puz, row, v, a),
        cand_of(a, t, s0),
        t.extra.indices@.contains(fc),
        forall|x: nat| #[trigger] t.sets.primary@.contains(x) ==> 1 <= x <= a.len(),
    ensures
        forall|x: nat| t.sets.primary@.contains(x) && #[trigger] may_hold(puz, row, v, x, fc) ==> t.extra.primary@.contains(x),
{
    assert forall|x: nat| t.sets.primary@.contains(x) && #[trigger] may_hold(puz, row, v, x, fc)
        implies t.extra.primary@.contains(x) by {
        assert(line_set(s0).contains(x));
        assert(fin_set(a, s0).contains(fc));
        assert(place_set(a, s0).contains(fc));
        let w = choose|w: int| #![trigger a[w].indices@.contains(fc)] s0.contains(w) && 0 <= w < a.len() && a[w].indices@.contains(fc);
        assert(a[w].indices@.contains(fc));
        assert(1 <= fc <= puz.grid.size.spec_house());
        assert(a[x - 1].indices@.contains(fc));
        assert(fin_lines(a, s0).contains(x));
    }
}

/// Every cell of the lines of `sets` at the place `fc` of the fin that may hold `v`, a line
/// of `extra`, in the lists `eprims` and `esecs` (from zero) of those lines and of the fin's
/// place, reaches `used`.
proof fn lemma_finned_fin_cover<V: BitSetInt>(puz: Sudoku<V>, row: bool, v: nat, sets: FishCtr<V>, extra: FishCtr<V>,
    fc: nat, eprims: Seq<usize>, esecs: Seq<usize>, used: Seq<IndexValuePair<BitSet<V>>>)
    requires
        eprims.len() == asc_from(extra.primary.0.spec_nat(), 1, V::width()).len(),
        forall|k: int| 0 <= k < eprims.len() ==> #[trigger] eprims[k] + 1 == asc_from(extra.primary.0.spec_nat(), 1, V::width())[k],
        esecs.len() > 0,
        forall|q: int| 0 <= q < esecs.len() ==> #[trigger] esecs[q] + 1 == fc,
        forall|x: nat| sets.primary@.contains(x) && #[trigger] may_hold(puz, row, v, x, fc) ==> extra.primary@.contains(x),
        forall|a2: int, b2: int| #![trigger eprims[a2], esecs[b2]] 0 <= a2 < eprims.len() && 0 <= b2 < esecs.len()
            && may_hold(puz, row, v, (eprims[a2] + 1) as nat, (esecs[b2] + 1) as nat)
            ==> exists|k: int| 0 <= k < used.len()
                && (#[trigger] used[k]).index.inner_index == line_cell(puz.grid.size, row, eprims[a2] as nat, esecs[b2] as nat),
    ensures
        finned_fin_complete(puz, row, v, sets, fc, used),
{
    assert forall|x: nat| sets.primary@.contains(x) && #[trigger] may_hold(puz, row, v, x, fc)
        implies exists|k: int| 0 <= k < used.len()
            && (#[trigger] used[k]).index.inner_index == line_cell(puz.grid.size, row, (x - 1) as nat, (fc - 1) as nat) by {
        assert(extra.primary@.contains(x));
        lemma_listed(extra.primary, x);
        let sp = asc_from(extra.primary.0.spec_nat(), 1, V::width());
        let a2 = choose|a2: int| 0 <= a2 < sp.len() && #[trigger] sp[a2] == x;
        assert(eprims[a2] + 1 == x);
        assert(esecs[0] + 1 == fc);
        assert(may_hold(puz, row, v, (eprims[a2] + 1) as nat, (esecs[0] + 1) as nat));
    }
}

/// A cell is the cell at its place of its line.
proof fn lemma_cell_line(size: SudokuSize, row: bool, e: nat)
    requires
        e < size.spec_total(),
    ensures
        line_of(size, row, e) < size.spec_house(),
        place_in_line(size, row, e) < size.spec_house(),
        line_cell(size, row, line_of(size, row, e), place_in_line(size, row, e)) == e,
{
    crate::grid::gridcoord::lemma_flat(size, e);
    if !row {
        crate::sudoku::state::lemma_col_member(size, col_of(size, e), e);
    }
}

/// For each value, every finned fish of `n` lines (rows when `row`) comes with one of that
/// value that takes nothing out.
pub open spec fn finned_idle<V: BitSetInt>(puz: Sudoku<V>, row: bool, n: nat) -> bool {
    forall|w: nat, s: Set<int>| 1 <= w <= puz.grid.size.spec_house() && #[trigger] finned_lines(puz, row, w, s, n)
        ==> exists|s2: Set<int>, a: Seq<FishCtr<V>>| #![trigger finned_choice(a, s2, n, puz.grid.size.spec_size()), value_lines(puz, row, w, a)]
            value_lines(puz, row, w, a) && finned_choice(a, s2, n, puz.grid.size.spec_size())
            && finned_takes_nothing(puz, row, w, a, s2)
}

/// Counters with the same places make the same finned fish.
proof fn lemma_same_places<V: BitSetInt>(a: Seq<FishCtr<V>>, b: Seq<FishCtr<V>>, s: Set<int>, n: nat, w: nat)
    requires
        a.len() == b.len(),
        forall|i: int| 0 <= i < a.len() ==> (#[trigger] a[i]).indices@ == b[i].indices@,
        finned_choice(b, s, n, w),
    ensures
        finned_choice(a, s, n, w),
{
    assert forall|p: nat| fish_places(a, s, p) <==> fish_places(b, s, p) by {
        if fish_places(a, s, p) {
            let v = choose|v: int| #![trigger a[v].indices@.contains(p)] s.contains(v) && 0 <= v < a.len() && a[v].indices@.contains(p);
            assert(b[v].indices@.contains(p));
        }
        if fish_places(b, s, p) {
            let v = choose|v: int| #![trigger b[v].indices@.contains(p)] s.contains(v) && 0 <= v < b.len() && b[v].indices@.contains(p);
            assert(a[v].indices@.contains(p));
        }
    }
    assert forall|p: nat| twice_places(a, s, p) <==> twice_places(b, s, p) by {
        if twice_places(a, s, p) {
            let (v1, v2) = choose|v1: int, v2: int| #![trigger a[v1].indices@.contains(p), a[v2].indices@.contains(p)]
                s.contains(v1) && s.contains(v2) && v1 != v2 && 0 <= v1 < a.len() && 0 <= v2 < a.len()
                && a[v1].indices@.contains(p) && a[v2].indices@.contains(p);
            assert(b[v1].indices@.contains(p) && b[v2].indices@.contains(p));
        }
        if twice_places(b, s, p) {
            let (v1, v2) = choose|v1: int, v2: int| #![trigger b[v1].indices@.contains(p), b[v2].indices@.contains(p)]
                s.contains(v1) && s.contains(v2) && v1 != v2 && 0 <= v1 < b.len() && 0 <= v2 < b.len()
                && b[v1].indices@.contains(p) && b[v2].indices@.contains(p);
            assert(a[v1].indices@.contains(p) && a[v2].indices@.contains(p));
        }
    }
    assert(place_set(a, s) =~= place_set(b, s));
    assert(twice_set(a, s) =~= twice_set(b, s));
    assert(fin_set(a, s) =~= fin_set(b, s));
    assert forall|x: nat| fin_lines(a, s).contains(x) <==> fin_lines(b, s).contains(x) by {
        if fin_lines(a, s).contains(x) {
            let p = choose|p: nat| fin_set(a, s).contains(p) && #[trigger] a[x - 1].indices@.contains(p);
            assert(b[x - 1].indices@.contains(p));
        }
        if fin_lines(b, s).contains(x) {
            let p = choose|p: nat| fin_set(b, s).contains(p) && #[trigger] b[x - 1].indices@.contains(p);
            assert(a[x - 1].indices@.contains(p));
        }
    }
    assert(fin_lines(a, s) =~= fin_lines(b, s));
    assert forall|v: int| #[trigger] s.contains(v) implies 0 <= v < a.len() && a[v].indices@ != Set::<nat>::empty() by {
        assert(b[v].indices@ != Set::<nat>::empty());
    }
}

/// The places of a finned fish lie in its lines, no line of it but the fin's may hold the
/// value at the fin's place, and each line of it may hold the value somewhere.
proof fn lemma_fin_extra<V: BitSetInt>(puz: Sudoku<V>, row: bool, val: nat, a: Seq<FishCtr<V>>, t: FinCand<V>,
    s: Set<int>, n: nat, fl: nat, fc: nat)
    requires
        value_lines(puz, row, val, a),
        finned_choice(a, s, n, puz.grid.size.spec_size()),
        cand_of(a, t, s),
        t.extra.indices@.contains(fc),
        t.sets.primary@.contains(fl),
        a[fl - 1].indices@.contains(fc),
    ensures
        forall|p: nat| #[trigger] t.sets.indices@.contains(p) ==> 1 <= p <= puz.grid.size.spec_house(),
        forall|x: nat| t.sets.primary@.contains(x) && #[trigger] may_hold(puz, row, val, x, fc) ==> x == fl,
        lines_seen(puz, row, val, t.sets.primary@),
{
    let h = puz.grid.size.spec_house();
    assert forall|p: nat| #[trigger] t.sets.indices@.contains(p) implies 1 <= p <= h by {
        assert(twice_places(a, s, p));
        let (v1, v2) = choose|v1: int, v2: int| #![trigger a[v1].indices@.contains(p), a[v2].indices@.contains(p)]
            s.contains(v1) && s.contains(v2) && v1 != v2 && 0 <= v1 < a.len() && 0 <= v2 < a.len()
            && a[v1].indices@.contains(p) && a[v2].indices@.contains(p);
        assert(a[v1].indices@.contains(p));
    }
    assert(fin_set(a, s).contains(fc));
    assert forall|x: nat| t.sets.primary@.contains(x) && #[trigger] may_hold(puz, row, val, x, fc) implies x == fl by {
        assert(line_set(s).contains(x));
        assert(line_set(s).contains(fl));
        let v1 = x - 1;
        let v2 = fl - 1;
        assert(a[v1].indices@.contains(fc));
        if x != fl {
            assert(twice_places(a, s, fc));
            assert(twice_set(a, s).contains(fc));
        }
    }
    reveal(lines_seen);
    assert forall|x: nat| #[trigger] t.sets.primary@.contains(x) implies exists|p: nat| 1 <= p <= h
        && #[trigger] may_hold(puz, row, val, x, p) by {
        assert(line_set(s).contains(x));
        let w = x - 1;
        assert(s.contains(w));
        assert(a[w].indices@ != Set::<nat>::empty());
        assert(exists|p: nat| a[w].indices@.contains(p)) by {
            if !(exists|p: nat| a[w].indices@.contains(p)) {
                assert(a[w].indices@ =~= Set::<nat>::empty());
            }
        }
        let p = choose|p: nat| a[w].indices@.contains(p);
        assert(may_hold(puz, row, val, x, p));
    }
}

/// The candidate is the finned fish of the counters `l`.
spec fn cand_of<T: BitSetInt>(a: Seq<FishCtr<T>>, f: FinCand<T>, l: Set<int>) -> bool {
    &&& f.sets.primary@ == line_set(l)
    &&& f.sets.indices@ == twice_set(a, l)
    &&& f.extra.indices@ == fin_set(a, l)
    &&& f.extra.primary@ == fin_lines(a, l)
}

/// A finned fish of `n` lines found among the counters `a`: the lines are `sets.primary`,
/// the places `sets.indices` and the single place of `extra.indices`, the fin; `extra.primary`
/// holds lines with the fin.
spec fn fin_found<T: BitSetInt>(a: Seq<FishCtr<T>>, f: FinCand<T>, n: nat) -> bool {
    &&& f.sets.wf()
    &&& popcnt(f.sets.primary.0.spec_nat()) == n
    &&& f.sets.ind_count == n
    &&& f.extra.ind_count == 1
    &&& popcnt(f.extra.indices.0.spec_nat()) == 1
    &&& f.extra.indices@.disjoint(f.sets.indices@)
    &&& forall|x: nat| #[trigger] f.sets.primary@.contains(x) ==> 1 <= x <= a.len()
    &&& forall|p: nat| #[trigger] f.sets.indices@.contains(p) ==> exists|v: int| 0 <= v < a.len() && #[trigger] a[v].indices@.contains(p)
    &&& forall|x: nat, p: nat| f.sets.primary@.contains(x) && #[trigger] a[x - 1].indices@.contains(p)
        ==> f.sets.indices@.contains(p) || f.extra.indices@.contains(p)
    &&& forall|x: nat| #[trigger] f.extra.primary@.contains(x) ==> f.sets.primary@.contains(x)
        && exists|p: nat| f.extra.indices@.contains(p) && a[x - 1].indices@.contains(p)
    &&& popcnt(f.extra.primary.0.spec_nat()) >= 1
}

/// Places (or lines) `q` and `f`, counted from one, lie in the same band of `w` boxes.
pub open spec fn same_band(q: nat, f: nat, w: nat) -> bool {
    (q - 1) / (w as int) == (f - 1) / (w as int)
}

/// Some place of `qs` shares a band of `w` boxes with some place of `fs`.
pub open spec fn covered_by(qs: Set<nat>, fs: Set<nat>, w: nat) -> bool {
    exists|q: nat, f: nat| qs.contains(q) && fs.contains(f) && #[trigger] same_band(q, f, w)
}

/// The fin is a single place, and it shares a band of boxes with a place of the fish.
spec fn extra_covered<T: BitSetInt>(c: FinCand<T>, w: nat) -> bool {
    &&& c.extra.ind_count == 1
    &&& covered_by(c.sets.indices@, c.extra.indices@, w)
}

/// Line `x` of `xs` and line `y` of `ys` lie in one band of `w` boxes.
pub open spec fn band_pair(xs: Set<nat>, ys: Set<nat>, x: nat, y: nat, w: nat) -> bool {
    xs.contains(x) && ys.contains(y) && same_band(x, y, w)
}

/// At most one pair of a line of `xs` and a line of `ys` lies in one band of `w` boxes.
pub open spec fn overlap_free(xs: Set<nat>, ys: Set<nat>, w: nat) -> bool {
    forall|x1: nat, y1: nat, x2: nat, y2: nat| #[trigger] band_pair(xs, ys, x1, y1, w) && #[trigger] band_pair(xs, ys, x2, y2, w)
        ==> x1 == x2 && y1 == y2
}

/// At most one pair of a line of the fish and a line with the fin lies in one band.
spec fn not_overlapped<T: BitSetInt>(c: FinCand<T>, w: nat) -> bool {
    overlap_free(c.sets.primary@, c.extra.primary@, w)
}

/// The pair of lines `x` and `y` comes before the pair at places `a` and `b` of the lists `lx`
/// and `ry`, in the order in which the pairs are looked at.
spec fn seen(lx: Seq<nat>, ry: Seq<nat>, a: int, b: int, x: nat, y: nat) -> bool {
    ||| exists|k: int| 0 <= k < a && #[trigger] lx[k] == x
    ||| (a < lx.len() && x == lx[a] && exists|j: int| 0 <= j < b && #[trigger] ry[j] == y)
}

/// When the counters from `start` on have no places, no finned fish of `n` counters extends
/// the `l` chosen before `start` with counters from `start` on.
proof fn lemma_no_choice_left<T: BitSetInt>(a: Seq<FishCtr<T>>, l: Set<int>, n: nat, w: nat, start: int)
    requires
        l.finite(),
        l.len() < n,
        forall|v: int| start <= v < a.len() ==> (#[trigger] a[v]).indices@ == Set::<nat>::empty(),
    ensures
        forall|s: Set<int>| #[trigger] finned_choice(a, s, n, w) && l.subset_of(s)
            ==> !(forall|v: int| s.contains(v) && !l.contains(v) ==> v >= start),
{
    assert forall|s: Set<int>| #[trigger] finned_choice(a, s, n, w) && l.subset_of(s)
        implies !(forall|v: int| s.contains(v) && !l.contains(v) ==> v >= start) by {
        if !(exists|v: int| s.contains(v) && !l.contains(v)) {
            assert(s.subset_of(l));
            vstd::set_lib::lemma_len_subset(s, l);
        }
        let v = choose|v: int| s.contains(v) && !l.contains(v);
        if v >= start {
            assert(a[v].indices@ == Set::<nat>::empty());
        }
    }
}

/// Each value of the set is one that walking its bits lists.
proof fn lemma_listed<T: BitSetInt>(b: BitSet<T>, v: nat)
    requires
        b@.contains(v),
    ensures
        exists|k: int| 0 <= k < asc_from(b.0.spec_nat(), 1, T::width()).len() && #[trigger] asc_from(b.0.spec_nat(), 1, T::width())[k] == v,
{
    crate::bitset::bitset::lemma_values_bounded(b.0);
    lemma_asc_from_contains(b.0.spec_nat(), 1, T::width(), v);
}

/// What walking the bits of the set lists is a value of the set.
proof fn lemma_listed_in<T: BitSetInt>(b: BitSet<T>, k: int)
    requires
        0 <= k < asc_from(b.0.spec_nat(), 1, T::width()).len(),
    ensures
        b@.contains(asc_from(b.0.spec_nat(), 1, T::width())[k]),
        asc_from(b.0.spec_nat(), 1, T::width())[k] >= 1,
{
    let sq = asc_from(b.0.spec_nat(), 1, T::width());
    assert(sq.contains(sq[k]));
    lemma_asc_from_contains(b.0.spec_nat(), 1, T::width(), sq[k]);
}

impl<V: BitSetInt> FinnedFish<V> {
    pub fn new(size: usize) -> (r: Self)
        ensures
            r.size == size,
    {
        FinnedFish { size, phantom: PhantomData }
    }

    /// Every finned fish move of the solver's size, rows first; `None` when there is none or
    /// the size is below two or above half the house size.
    pub fn _hint(&self, puz: &Sudoku<V>) -> (r: Option<Vec<Move<V>>>)
        requires
            puz.wf(),
        ensures
            (self.size < 2 || self.size > puz.grid.size.spec_house() / 2) ==> r is None,
            r matches Some(v) ==> v.len() > 0 && forall|k: int| 0 <= k < v.len() ==> sound_hint(*puz, #[trigger] v[k], finned_technique(self.size))
                && v[k].value_set is None && distinct_records(v[k])
                && (finned_fish_move(*puz, true, self.size as nat, v[k]) || finned_fish_move(*puz, false, self.size as nat, v[k])),
            r is None && 2 <= self.size <= puz.grid.size.spec_house() / 2
                ==> finned_idle(*puz, true, self.size as nat) && finned_idle(*puz, false, self.size as nat),
    {
        let size = self.size;
        let max = puz.house_size();
        if size < 2 || size > max / 2 {
            return None;
        }
        let solvet = if size == 4 {
            Technique::FinnedJellyfish
        } else if size == 3 {
            Technique::FinnedSwordfish
        } else if size == 2 {
            Technique::FinnedXWing
        } else {
            Technique::FishN(size)
        };
        let mut vec: Vec<Move<V>> = Vec::new();
        let mut d: usize = 0;
        while d < 2
            invariant
                puz.wf(),
                size == self.size,
                solvet == finned_technique(size),
                forall|k: int| 0 <= k < vec.len() ==> sound_hint(*puz, #[trigger] vec[k], solvet)
                    && vec[k].value_set is None && distinct_records(vec[k])
                    && (finned_fish_move(*puz, true, size as nat, vec[k]) || finned_fish_move(*puz, false, size as nat, vec[k])),
                d <= 2,
                vec.len() == 0 ==> (d >= 1 ==> finned_idle(*puz, true, size as nat)) && (d >= 2 ==> finned_idle(*puz, false, size as nat)),
            decreases 2 - d,
        {
            let dir: House<()> = if d == 0 { House::Row(()) } else { House::Col(()) };
            let ghost n0 = vec.len();
            let found = Self::fish(puz, &dir, size, solvet);
            if let Some(m) = found {
                let mut k: usize = 0;
                while k < m.len()
                    invariant
                        k <= m.len(),
                        k > 0 ==> vec.len() > 0,
                        forall|q: int| 0 <= q < m.len() ==> sound_hint(*puz, #[trigger] m[q], solvet)
                            && m[q].value_set is None && distinct_records(m[q]) && finned_fish_move(*puz, dir is Row, size as nat, m[q]),
                        forall|q: int| 0 <= q < vec.len() ==> sound_hint(*puz, #[trigger] vec[q], solvet)
                            && vec[q].value_set is None && distinct_records(vec[q])
                            && (finned_fish_move(*puz, true, size as nat, vec[q]) || finned_fish_move(*puz, false, size as nat, vec[q])),
                    decreases m.len() - k,
                {
                    let mv = m[k].clone_move();
                    proof {
                        assert(sound_hint(*puz, m[k as int], solvet));
                        assert(distinct_records(m[k as int]));
                        assert(finned_fish_move(*puz, dir is Row, size as nat, m[k as int]));
                    }
                    vec.push(mv);
                    proof {
                        let n = vec.len() - 1;
                        assert(vec[n as int] == mv);
                    }
                    k = k + 1;
                }
            }
            proof {
                if vec.len() == 0 {
                    assert(n0 == 0 && found is None);
                    if d == 0 {
                        assert(dir is Row);
                        assert(finned_idle(*puz, true, size as nat));
                    } else {
                        assert(dir is Col);
                        assert(finned_idle(*puz, false, size as nat));
                    }
                }
            }
            d = d + 1;
        }
        if vec.len() == 0 {
            None
        } else {
            Some(vec)
        }
    }

}

/// A finned fish move takes out of a cell no value that the unique solution puts there.
pub proof fn lemma_finned_sound<V: BitSetInt>(puz: Sudoku<V>, row: bool, n: nat, m: Move<V>)
    requires
        puz.wf(),
        keeps_solution(puz),
        m.value_set is None,
        finned_fish_move(puz, row, n, m),
    ensures
        sol_sound(puz, m),
{
    let (val, sets, fl, fc) = choose|val: nat, sets: FishCtr<V>, fl: nat, fc: nat|
        #![trigger finned_removals(puz, row, n, val, sets, fl, fc, m.removed_potentials@)]
        finned_removals(puz, row, n, val, sets, fl, fc, m.removed_potentials@)
        && finned_used_sound(puz, row, val, sets, fc, m.used_to_solve@)
        && finned_used_complete(puz, row, val, sets, m.used_to_solve@)
        && finned_fin_complete(puz, row, val, sets, fc, m.used_to_solve@);
    lemma_finned_cells(puz, row, n, val, sets, fl, fc, m);
}

/// Either the solution puts the value at the fin, and the cells of the fin's box lose it
/// rightly, or it puts it at a place of the fish in each line of the fish, and no other line
/// gets it at those places.
proof fn lemma_finned_cells<V: BitSetInt>(puz: Sudoku<V>, row: bool, n: nat, val: nat, sets: FishCtr<V>, fl: nat, fc: nat,
    m: Move<V>)
    requires
        puz.wf(),
        keeps_solution(puz),
        m.value_set is None,
        finned_shape(puz, row, val, sets, fl, fc),
        popcnt(sets.primary.0.spec_nat()) == n,
        popcnt(sets.indices.0.spec_nat()) == n,
        forall|k: int| 0 <= k < m.removed_potentials@.len() ==> {
            let p = #[trigger] m.removed_potentials@[k];
            &&& p.value@ == Set::<nat>::empty().insert(val)
            &&& box_of(puz.grid.size, p.index.inner_index as nat)
                == box_of(puz.grid.size, line_cell(puz.grid.size, row, (fl - 1) as nat, (fc - 1) as nat))
            &&& exists|x: nat, q: nat| 1 <= x <= puz.grid.size.spec_house() && 1 <= q <= puz.grid.size.spec_house()
                && !sets.primary@.contains(x) && sets.indices@.contains(q)
                && p.index.inner_index == line_cell(puz.grid.size, row, (x - 1) as nat, (q - 1) as nat)
        },
    ensures
        sol_sound(puz, m),
{
    let g = unique_grid(puz.solution)->Some_0;
    let size = puz.grid.size;
    let h = size.spec_house();
    let xs = sets.primary@;
    let pl = sets.indices@;
    let fcell = line_cell(size, row, (fl - 1) as nat, (fc - 1) as nat);
    lemma_line_cell(size, row, (fl - 1) as nat, (fc - 1) as nat);
    if gval(g, fcell as int) == val {
        assert forall|k: int, x: nat| 0 <= k < m.removed_potentials@.len() && #[trigger] m.removed_potentials@[k].value@.contains(x)
            implies x != gval(g, m.removed_potentials@[k].index.inner_index as int) by {
            let pr = m.removed_potentials@[k];
            assert(x == val);
            let (x1, q) = choose|x1: nat, q: nat| 1 <= x1 <= h && 1 <= q <= h && !xs.contains(x1) && pl.contains(q)
                && pr.index.inner_index == line_cell(size, row, (x1 - 1) as nat, (q - 1) as nat);
            let e = line_cell(size, row, (x1 - 1) as nat, (q - 1) as nat);
            lemma_line_cell(size, row, (x1 - 1) as nat, (q - 1) as nat);
            if e == fcell {
                crate::human_calcs::fish::fishtuple::lemma_line_cell_inj(size, row, (x1 - 1) as nat, (q - 1) as nat, (fl - 1) as nat, (fc - 1) as nat);
            }
            assert(peers(size, e, fcell));
            lemma_sol_differs(puz, e as int, fcell as int);
        }
    } else {
        lemma_finned_placed(puz, row, val, sets, fl, fc);
        crate::bitset::bitset::lemma_values_len(sets.primary);
        crate::bitset::bitset::lemma_values_len(sets.indices);
        lemma_fish_onto(puz, row, val, xs, pl);
        assert forall|k: int, x: nat| 0 <= k < m.removed_potentials@.len() && #[trigger] m.removed_potentials@[k].value@.contains(x)
            implies x != gval(g, m.removed_potentials@[k].index.inner_index as int) by {
            let pr = m.removed_potentials@[k];
            assert(x == val);
            let (x1, q) = choose|x1: nat, q: nat| 1 <= x1 <= h && 1 <= q <= h && !xs.contains(x1) && pl.contains(q)
                && pr.index.inner_index == line_cell(size, row, (x1 - 1) as nat, (q - 1) as nat);
            let x2 = choose|x2: nat| xs.contains(x2) && gval(g, line_cell(size, row, (x2 - 1) as nat, (q - 1) as nat) as int) == val;
            lemma_line_pair(puz, row, x1, x2, q);
        }
    }
}

/// Where the solution does not put the value at the fin, it puts it at a place of the fish in
/// each line of the fish.
proof fn lemma_finned_placed<V: BitSetInt>(puz: Sudoku<V>, row: bool, val: nat, sets: FishCtr<V>, fl: nat, fc: nat)
    requires
        puz.wf(),
        keeps_solution(puz),
        finned_shape(puz, row, val, sets, fl, fc),
        gval(unique_grid(puz.solution)->Some_0, line_cell(puz.grid.size, row, (fl - 1) as nat, (fc - 1) as nat) as int) != val,
    ensures
        forall|y: nat| #[trigger] sets.primary@.contains(y) ==> fish_placed(puz, row, val, sets.indices@, y),
{
    let size = puz.grid.size;
    let h = size.spec_house();
    reveal(lines_seen);
    assert forall|y: nat| #[trigger] sets.primary@.contains(y) implies fish_placed(puz, row, val, sets.indices@, y) by {
        let p0 = choose|p: nat| 1 <= p <= h && #[trigger] may_hold(puz, row, val, y, p);
        let hh = line_house_of(row, y);
        assert(house_ok(size, hh));
        assert(house_cells(size, hh)[p0 - 1] == line_cell(size, row, (y - 1) as nat, (p0 - 1) as nat));
        let q = lemma_sol_possible(puz, hh, p0 - 1, val);
        let p = (q + 1) as nat;
        assert(house_cells(size, hh)[q] == line_cell(size, row, (y - 1) as nat, (p - 1) as nat));
        assert(may_hold(puz, row, val, y, p));
        if p == fc {
            assert(y == fl);
        }
        assert(sets.indices@.contains(p));
        reveal(fish_placed);
    }
}

impl<V: BitSetInt> TechStruct<V> for FinnedFish<V> {
    open spec fn spec_technique(&self) -> Technique {
        finned_technique(self.size)
    }

    /// No hint of the technique: each finned fish of its size takes nothing out, or another
    /// of the same value does not.
    open spec fn spec_finds_nothing(&self, puz: Sudoku<V>) -> bool {
        2 <= self.size <= puz.grid.size.spec_house() / 2
            ==> finned_idle(puz, true, self.size as nat) && finned_idle(puz, false, self.size as nat)
    }

    /// The first finned fish move, as the human solver asks for it.
    fn tech_hint(&self, puz: &Sudoku<V>) -> (r: Option<Move<V>>)
        ensures
            r matches Some(m) ==> sound_hint(*puz, m, finned_technique(self.size)) && m.value_set is None
                && distinct_records(m),
    {
        match self._hint(puz) {
            Some(v) => {
                let first = v[0].clone_move();
                proof {
                    assert(sound_hint(*puz, v[0], finned_technique(self.size)));
                    assert(distinct_records(v[0]));
                    if keeps_solution(*puz) {
                        if finned_fish_move(*puz, true, self.size as nat, v[0]) {
                            lemma_finned_sound(*puz, true, self.size as nat, v[0]);
                        } else {
                            lemma_finned_sound(*puz, false, self.size as nat, v[0]);
                        }
                    }
                }
                Some(first)
            },
            None => None,
        }
    }
}

impl<V: BitSetInt> FinnedFish<V> {

    /// The row or column `rcb` in the direction of `house`.
    fn add_to_house(house: &House<()>, rcb: usize) -> (r: House<usize>)
        requires
            !(*house is Box),
        ensures
            *house is Row ==> r == House::Row(rcb),
            *house is Col ==> r == House::Col(rcb),
    {
        match house {
            House::Row(()) => House::Row(rcb),
            _ => House::Col(rcb),
        }
    }

    /// The other direction of a row or column.
    fn switch_dir(house: &House<()>) -> (r: House<()>)
        requires
            !(*house is Box),
        ensures
            *house is Row ==> r is Col,
            *house is Col ==> r is Row,
    {
        match house {
            House::Row(()) => House::Col(()),
            _ => House::Row(()),
        }
    }

    /// The flat index of place `secondary` of house `primary` of the kind of `house`.
    pub fn index_from_what<C>(house: &House<C>, primary: usize, secondary: usize, size: SudokuSize) -> (r: usize)
        requires
            primary < size.spec_house(),
            secondary < size.spec_house(),
        ensures
            r == match *house {
                House::Row(_) => cell_row(size, primary as nat, secondary as nat),
                House::Col(_) => cell_col(size, primary as nat, secondary as nat),
                House::Box(_) => cell_box(size, primary as nat, secondary as nat),
            },
    {
        match house {
            House::Row(_) => {
                let c = Row::new(primary, secondary, size);
                proof { c.lemma_house(); }
                c.to_usize()
            },
            House::Col(_) => {
                let c = Col::new(primary, secondary, size);
                proof { c.lemma_house(); }
                c.to_usize()
            },
            House::Box(_) => {
                let c = GridBox::new(primary, secondary, size);
                proof { c.lemma_house(); }
                c.to_usize()
            },
        }
    }

    /// A counter per line (rows when `house` is a row): counter `i` holds line `i` and counts
    /// the places of the line where `value` may stand.
    fn from_puzzle(puz: &Sudoku<V>, house: &House<()>, value: Bit<V>) -> (r: FishTupleCtr<V>)
        requires
            puz.wf(),
            !(*house is Box),
            value.wf(),
            value@ >= 1,
        ensures
            r.wf(),
            r.array.len() == puz.grid.size.spec_house(),
            forall|i: int, p: nat| 0 <= i < r.array.len() ==> (#[trigger] r.array[i].indices@.contains(p)
                <==> (1 <= p <= puz.grid.size.spec_house() && may_hold(*puz, *house is Row, value@, (i + 1) as nat, p))),
    {
        let size = puz.sudoku_size();
        let max = puz.house_size();
        let ghost row = *house is Row;
        let mut tuplectr: FishTupleCtr<V> = FishTupleCtr::new(size);
        proof { size.lemma_sizes(); }
        for i in 0..max
            invariant
                puz.wf(),
                size == puz.grid.size,
                max == size.spec_house(),
                max <= V::width(),
                size.spec_total() <= 10000,
                value.wf(),
                value@ >= 1,
                row == (*house is Row),
                !(*house is Box),
                tuplectr.wf(),
                tuplectr.array.len() == max,
                forall|v: int, p: nat| 0 <= v < max ==> (#[trigger] tuplectr.array[v].indices@.contains(p)
                    <==> (v < i && 1 <= p <= max && may_hold(*puz, row, value@, (v + 1) as nat, p))),
        {
            let cells = puz.grid.enum_house_iter(&Self::add_to_house(house, i), size);
            proof { V::lemma_range(V::one_spec()); }
            let primary: BitSet<V> = BitSet::from_value(V::from_usize(i + 1));
            proof {
                assert forall|k: int| 0 <= k < max implies #[trigger] cells[k] == line_cell(size, row, i as nat, k as nat) by {
                    lemma_line_cell(size, row, i as nat, k as nat);
                    if row {
                        assert(house_cells(size, House::Row(i as nat))[k] == line_cell(size, row, i as nat, k as nat));
                        assert(cells@[k] == house_cells(size, House::Row(i as nat))[k] as usize);
                    } else {
                        assert(house_cells(size, House::Col(i as nat))[k] == line_cell(size, row, i as nat, k as nat));
                        assert(cells@[k] == house_cells(size, House::Col(i as nat))[k] as usize);
                    }
                }
            }
            for s in 0..cells.len()
                invariant
                    puz.wf(),
                    size == puz.grid.size,
                    max == size.spec_house(),
                    max <= V::width(),
                    size.spec_total() <= 10000,
                    value.wf(),
                    value@ >= 1,
                    i < max,
                    cells.len() == max,
                    forall|k: int| 0 <= k < max ==> #[trigger] cells[k] == line_cell(size, row, i as nat, k as nat),
                    primary@ == Set::<nat>::empty().insert((i + 1) as nat),
                    tuplectr.wf(),
                    tuplectr.array.len() == max,
                    forall|v: int, p: nat| 0 <= v < max ==> (#[trigger] tuplectr.array[v].indices@.contains(p)
                        <==> ((v < i && 1 <= p <= max && may_hold(*puz, row, value@, (v + 1) as nat, p))
                            || (v == i && 1 <= p <= s && may_hold(*puz, row, value@, (v + 1) as nat, p)))),
            {
                proof {
                    lemma_line_cell(size, row, i as nat, s as nat);
                }
                let ghost before = tuplectr.array@;
                let ghost hit = may_hold(*puz, row, value@, (i + 1) as nat, (s + 1) as nat);
                proof {
                    assert(cells[s as int] == line_cell(size, row, i as nat, s as nat));
                    assert(hit == puz.cells()[cells[s as int] as int].flags.poss@.contains(value@));
                }
                if puz.grid.items[cells[s]].poss().contains(value) {
                    tuplectr.insert(s, primary);
                    proof {
                        assert(hit);
                        assert forall|v: int, p: nat| 0 <= v < max implies (#[trigger] tuplectr.array[v].indices@.contains(p)
                            <==> ((v < i && 1 <= p <= max && may_hold(*puz, row, value@, (v + 1) as nat, p))
                                || (v == i && 1 <= p <= s + 1 && may_hold(*puz, row, value@, (v + 1) as nat, p)))) by {
                            assert(before[v].indices@.contains(p) <==> ((v < i && 1 <= p <= max && may_hold(*puz, row, value@, (v + 1) as nat, p))
                                || (v == i && 1 <= p <= s && may_hold(*puz, row, value@, (v + 1) as nat, p))));
                            assert(primary@.contains((v + 1) as nat) <==> v == i);
                        }
                    }
                } else {
                    proof {
                        assert(!hit);
                        assert forall|v: int, p: nat| 0 <= v < max implies (#[trigger] tuplectr.array[v].indices@.contains(p)
                            <==> ((v < i && 1 <= p <= max && may_hold(*puz, row, value@, (v + 1) as nat, p))
                                || (v == i && 1 <= p <= s + 1 && may_hold(*puz, row, value@, (v + 1) as nat, p)))) by {
                            assert(before[v].indices@.contains(p) <==> ((v < i && 1 <= p <= max && may_hold(*puz, row, value@, (v + 1) as nat, p))
                                || (v == i && 1 <= p <= s && may_hold(*puz, row, value@, (v + 1) as nat, p))));
                        }
                    }
                }
            }
        }
        tuplectr
    }

    /// Adds to `map` the cells of `secondary_house` it does not hold yet.
    fn populate_secondary_set_with_potentials<T: BitSetInt>(puz: &Sudoku<T>, secondary_house: &House<usize>, map: &mut Vec<usize>)
        requires
            match *secondary_house {
                House::Row(n) => n < puz.grid.size.spec_house(),
                House::Col(n) => n < puz.grid.size.spec_house(),
                House::Box(n) => n < puz.grid.size.spec_house(),
            },
        ensures
            forall|e: usize| #[trigger] final(map)@.contains(e) <==> (old(map)@.contains(e)
                || house_cells(puz.grid.size, match *secondary_house {
                    House::Row(n) => House::Row(n as nat),
                    House::Col(n) => House::Col(n as nat),
                    House::Box(n) => House::Box(n as nat),
                }).map_values(|x: nat| x as usize).contains(e)),
    {
        let iter = puz.grid.enum_house_iter(secondary_house, puz.sudoku_size());
        let ghost hc = iter@;
        for k in 0..iter.len()
            invariant
                iter@ == hc,
                forall|e: usize| #[trigger] map@.contains(e) <==> (old(map)@.contains(e)
                    || exists|j: int| 0 <= j < k && hc[j] == e),
        {
            let ghost before = map@;
            if !vec_contains(map, iter[k]) {
                map.push(iter[k]);
            }
            proof {
                assert forall|e: usize| #[trigger] map@.contains(e) <==> (old(map)@.contains(e)
                    || exists|j: int| 0 <= j < k + 1 && hc[j] == e) by {
                    if e == iter[k as int] {
                        assert(hc[k as int] == e);
                        if !before.contains(e) {
                            assert(map@[map@.len() - 1] == e);
                        }
                    } else {
                        if map@.contains(e) {
                            let i = choose|i: int| 0 <= i < map@.len() && map@[i] == e;
                            if i < before.len() {
                                assert(before[i] == e);
                            }
                        }
                        if before.contains(e) {
                            let i = choose|i: int| 0 <= i < before.len() && before[i] == e;
                            assert(map@[i] == e);
                        }
                        if exists|j: int| 0 <= j < k + 1 && hc[j] == e {
                            let j = choose|j: int| 0 <= j < k + 1 && hc[j] == e;
                            assert(j < k);
                        }
                    }
                }
            }
        }
        proof {
            assert forall|e: usize| #[trigger] map@.contains(e) <==> (old(map)@.contains(e) || hc.contains(e)) by {
                if hc.contains(e) {
                    let j = choose|j: int| 0 <= j < hc.len() && hc[j] == e;
                    assert(exists|j2: int| 0 <= j2 < iter.len() && hc[j2] == e);
                }
            }
        }
    }

    /// The finned fish moves of `size` lines in the direction of `dir` (rows or columns), value
    /// by value; each takes a value out of at least one cell.  `None` when there is none.
    #[verifier::rlimit(100)]
    pub fn fish(puz: &Sudoku<V>, dir: &House<()>, size: usize, method: Technique) -> (r: Option<Vec<Move<V>>>)
        requires
            puz.wf(),
            !(*dir is Box),
        ensures
            r matches Some(v) ==> v.len() > 0 && forall|k: int| 0 <= k < v.len() ==> sound_hint(*puz, #[trigger] v[k], method)
                && v[k].value_set is None && distinct_records(v[k]) && finned_fish_move(*puz, *dir is Row, size as nat, v[k]),
            r is None ==> finned_idle(*puz, *dir is Row, size as nat),
    {
        let max = puz.house_size();
        let sz = puz.sudoku_size();
        let row = match dir {
            House::Row(_) => true,
            _ => false,
        };
        let mut vec: Vec<Move<V>> = Vec::new();
        proof { sz.lemma_sizes(); }
        for v in 1..max + 1
            invariant
                puz.wf(),
                sz == puz.grid.size,
                max == sz.spec_house(),
                max <= V::width(),
                sz.spec_total() <= 10000,
                row == (*dir is Row),
                !(*dir is Box),
                forall|k: int| 0 <= k < vec.len() ==> sound_hint(*puz, #[trigger] vec[k], method)
                    && vec[k].value_set is None && distinct_records(vec[k]) && finned_fish_move(*puz, row, size as nat, vec[k]),
                vec.len() == 0 ==> forall|w: nat, s: Set<int>| 1 <= w < v && #[trigger] finned_lines(*puz, row, w, s, size as nat)
                    ==> exists|s2: Set<int>, a: Seq<FishCtr<V>>| #![trigger finned_choice(a, s2, size as nat, puz.grid.size.spec_size()), value_lines(*puz, row, w, a)]
                        value_lines(*puz, row, w, a) && finned_choice(a, s2, size as nat, puz.grid.size.spec_size())
                        && finned_takes_nothing(*puz, row, w, a, s2),
        {
            proof { V::lemma_range(V::one_spec()); }
            let val = Bit::from_value(V::from_usize(v));
            let tuplectr = Self::from_puzzle(puz, dir, val);
            let ghost a = tuplectr.array@;
            proof {
                assert(value_lines(*puz, row, v as nat, a));
            }
            let ghost n0 = vec.len();
            let combos = Self::finned_combo(&tuplectr, size, &sz);
            if let Some(t) = combos {
                let themove = Self::fin_full_move(puz, dir, size, method, val, &tuplectr, t);
                if themove.removed_potentials_vec().len() != 0 {
                    vec.push(themove);
                    proof {
                        let n = vec.len() - 1;
                        assert(vec[n as int] == themove);
                    }
                }
            } else {
                proof {
                    assert forall|s: Set<int>| #[trigger] finned_lines(*puz, row, v as nat, s, size as nat) implies false by {
                        let a2 = choose|a2: Seq<FishCtr<V>>| #[trigger] value_lines(*puz, row, v as nat, a2)
                            && finned_choice(a2, s, size as nat, puz.grid.size.spec_size());
                        assert forall|i: int| 0 <= i < a.len() implies (#[trigger] a[i]).indices@ == a2[i].indices@ by {
                            assert(a[i].indices@ =~= a2[i].indices@);
                        }
                        lemma_same_places(a, a2, s, size as nat, sz.spec_size());
                    }
                }
            }
        }
        if vec.len() == 0 {
            None
        } else {
            Some(vec)
        }
    }

    /// The move of the finned fish `t` found among the counters `tuplectr` of where value `val`
    /// may stand in each line: it takes `val` out of the cells at the fish's places, in other
    /// lines, in the box of the fin; when it takes nothing out, no finned fish of `size` lines
    /// for `val` takes anything out.
    #[verifier::rlimit(100)]
    fn fin_move(puz: &Sudoku<V>, dir: &House<()>, size: usize, method: Technique, val: Bit<V>,
        tuplectr: &FishTupleCtr<V>, t: FinCand<V>) -> (themove: Move<V>)
        requires
            puz.wf(),
            !(*dir is Box),
            val.wf(),
            1 <= val@ <= puz.grid.size.spec_house(),
            tuplectr.wf(),
            value_lines(*puz, *dir is Row, val@, tuplectr.array@),
            fin_found(tuplectr.array@, t, size as nat),
            exists|s: Set<int>| finned_choice(tuplectr.array@, s, size as nat, puz.grid.size.spec_size())
                && #[trigger] cand_of(tuplectr.array@, t, s),
        ensures
            themove.removed_potentials@.len() > 0 ==> sound_hint(*puz, themove, method) && themove.value_set is None
                && distinct_records(themove) && exists|fl: nat, fc: nat| t.extra.indices@.contains(fc)
                    && #[trigger] finned_removals(*puz, *dir is Row, size as nat, val@, t.sets, fl, fc, themove.removed_potentials@),
            themove.removed_potentials@.len() == 0 ==> forall|s: Set<int>| #[trigger] finned_lines(*puz, *dir is Row, val@, s, size as nat)
                ==> exists|s2: Set<int>, a2: Seq<FishCtr<V>>| #![trigger finned_choice(a2, s2, size as nat, puz.grid.size.spec_size()), value_lines(*puz, *dir is Row, val@, a2)]
                    value_lines(*puz, *dir is Row, val@, a2) && finned_choice(a2, s2, size as nat, puz.grid.size.spec_size())
                    && finned_takes_nothing(*puz, *dir is Row, val@, a2, s2),
    {
        let max = puz.house_size();
        let sz = puz.sudoku_size();
        let row = match dir {
            House::Row(_) => true,
            _ => false,
        };
        let ghost v: nat = val@;
        let ghost a = tuplectr.array@;
        proof { sz.lemma_sizes(); }
        let mut themove: Move<V> = Move::new();
        themove.method = Some(method);
        proof {
            lemma_first_value(t.extra.primary);
            lemma_first_value(t.extra.indices);
        }
        let eprims = t.extra.primary_iter();
        let esecs = t.extra.index_iter();
        let ghost fl: nat = (eprims[0] + 1) as nat;
        let ghost fc: nat = (esecs[0] + 1) as nat;
        proof {
            assert(fl == asc_from(t.extra.primary.0.spec_nat(), 1, V::width())[0]);
            assert(fc == asc_from(t.extra.indices.0.spec_nat(), 1, V::width())[0]);
            assert(t.extra.primary@.contains(fl));
            assert(t.extra.indices@.contains(fc));
            assert(t.sets.primary@.contains(fl));
            let p = choose|p: nat| t.extra.indices@.contains(p) && a[fl - 1].indices@.contains(p);
            lemma_single_value(t.extra.indices, p, fc);
            assert(a[fl - 1].indices@.contains(fc));
            assert(1 <= fc <= max && may_hold(*puz, row, v as nat, fl, fc));
            assert forall|x: nat, p2: nat| t.sets.primary@.contains(x) && 1 <= p2 <= max && #[trigger] may_hold(*puz, row, v as nat, x, p2)
                implies t.sets.indices@.contains(p2) || p2 == fc by {
                assert(a[x - 1].indices@.contains(p2));
                if t.extra.indices@.contains(p2) {
                    lemma_single_value(t.extra.indices, p2, fc);
                }
            }
            assert(!t.sets.indices@.contains(fc));
            let s = choose|s: Set<int>| finned_choice(a, s, size as nat, sz.spec_size()) && #[trigger] cand_of(a, t, s);
            lemma_fin_extra(*puz, row, v as nat, a, t, s, size as nat, fl, fc);
            assert(finned_shape(*puz, row, v as nat, t.sets, fl, fc));
        }
        let extraind = Self::index_from_what(dir, eprims[0], esecs[0], sz);
        proof {
            lemma_line_cell(sz, row, (fl - 1) as nat, (fc - 1) as nat);
            assert(extraind == line_cell(sz, row, (fl - 1) as nat, (fc - 1) as nat));
        }
        let extra_index = Index::new(extraind, sz);
        let boxnum = extra_index.to_box();
        let mut involved_ind: Vec<usize> = Vec::new();
        let mut secondaries: Vec<usize> = Vec::new();
        let sprims = t.sets.primary_iter();
        let ssecs = t.sets.index_iter();
        let ghost spn = t.sets.primary.0.spec_nat();
        let ghost ssn = t.sets.indices.0.spec_nat();
        proof {
            V::lemma_range(t.sets.primary.0);
            V::lemma_range(t.sets.indices.0);
            assert forall|q: int| 0 <= q < sprims.len() implies #[trigger] sprims[q] < max
                && t.sets.primary@.contains((sprims[q] + 1) as nat) by {
                let sq = asc_from(spn, 1, V::width());
                let x = (sprims[q] + 1) as nat;
                assert(sprims[q] + 1 == sq[q]);
                assert(sq.contains(x));
                lemma_asc_from_contains(spn, 1, V::width(), x);
                assert(crate::bitset::bitset::values_of(spn).contains(x));
            }
            assert forall|q: int| 0 <= q < ssecs.len() implies #[trigger] ssecs[q] < max
                && t.sets.indices@.contains((ssecs[q] + 1) as nat) by {
                let sq = asc_from(ssn, 1, V::width());
                let x = (ssecs[q] + 1) as nat;
                assert(ssecs[q] + 1 == sq[q]);
                assert(sq.contains(x));
                lemma_asc_from_contains(ssn, 1, V::width(), x);
                assert(crate::bitset::bitset::values_of(ssn).contains(x));
                assert(t.sets.indices@.contains(x));
                let w = choose|w: int| 0 <= w < a.len() && #[trigger] a[w].indices@.contains(x);
                assert(a[w].indices@.contains(x));
            }
            let epn = t.extra.primary.0.spec_nat();
            let esn = t.extra.indices.0.spec_nat();
            V::lemma_range(t.extra.primary.0);
            V::lemma_range(t.extra.indices.0);
            assert forall|q: int| 0 <= q < eprims.len() implies #[trigger] eprims[q] < max
                && t.sets.primary@.contains((eprims[q] + 1) as nat) by {
                let sq = asc_from(epn, 1, V::width());
                let x = (eprims[q] + 1) as nat;
                assert(eprims[q] + 1 == sq[q]);
                assert(sq.contains(x));
                lemma_asc_from_contains(epn, 1, V::width(), x);
                assert(crate::bitset::bitset::values_of(epn).contains(x));
                assert(t.sets.primary@.contains(x));
            }
            assert forall|q: int| 0 <= q < esecs.len() implies #[trigger] esecs[q] < max by {
                let sq = asc_from(esn, 1, V::width());
                let x = (esecs[q] + 1) as nat;
                assert(esecs[q] + 1 == sq[q]);
                assert(sq.contains(x));
                lemma_asc_from_contains(esn, 1, V::width(), x);
                assert(crate::bitset::bitset::values_of(esn).contains(x));
                lemma_single_value(t.extra.indices, x, fc);
            }
        }
        for a1 in 0..sprims.len()
            invariant
                puz.wf(),
                sz == puz.grid.size,
                max == sz.spec_house(),
                sz.spec_total() <= 10000,
                row == (*dir is Row),
                !(*dir is Box),
                val.wf(),
                forall|q: int| 0 <= q < sprims.len() ==> #[trigger] sprims[q] < max
                    && t.sets.primary@.contains((sprims[q] + 1) as nat),
                forall|q: int| 0 <= q < ssecs.len() ==> #[trigger] ssecs[q] < max,
                forall|e: usize| #[trigger] involved_ind@.contains(e) ==> (e as nat) < sz.spec_total()
                    && t.sets.primary@.contains((line_of(sz, row, e as nat) + 1) as nat),
                a1 > 0 ==> forall|b2: int| 0 <= b2 < ssecs.len() ==> covers(secondaries@, sz, row, #[trigger] ssecs[b2] as nat),
                themove.method == Some(method),
                !themove.manual,
                themove.value_set is None,
                themove.removed_potentials@.len() == 0,
                forall|a2: int, b2: int| 0 <= a2 < a1 && 0 <= b2 < ssecs.len()
                    ==> involved_ind@.contains(line_cell(sz, row, #[trigger] sprims[a2] as nat, #[trigger] ssecs[b2] as nat) as usize),
                forall|e: usize| #[trigger] secondaries@.contains(e) ==> exists|x: nat, b2: int| x < max && 0 <= b2 < ssecs.len()
                    && e == line_cell(sz, row, x, ssecs[b2] as nat),
        {
            for b1 in 0..ssecs.len()
                invariant
                    puz.wf(),
                    sz == puz.grid.size,
                    max == sz.spec_house(),
                    sz.spec_total() <= 10000,
                    row == (*dir is Row),
                    !(*dir is Box),
                    val.wf(),
                    a1 < sprims.len(),
                    forall|q: int| 0 <= q < sprims.len() ==> #[trigger] sprims[q] < max
                        && t.sets.primary@.contains((sprims[q] + 1) as nat),
                    forall|q: int| 0 <= q < ssecs.len() ==> #[trigger] ssecs[q] < max,
                    forall|e: usize| #[trigger] involved_ind@.contains(e) ==> (e as nat) < sz.spec_total()
                        && t.sets.primary@.contains((line_of(sz, row, e as nat) + 1) as nat),
                    a1 > 0 ==> forall|b2: int| 0 <= b2 < ssecs.len() ==> covers(secondaries@, sz, row, #[trigger] ssecs[b2] as nat),
                    forall|b2: int| 0 <= b2 < b1 ==> covers(secondaries@, sz, row, #[trigger] ssecs[b2] as nat),
                    themove.method == Some(method),
                    !themove.manual,
                    themove.value_set is None,
                    themove.removed_potentials@.len() == 0,
                    forall|a2: int, b2: int| 0 <= a2 < a1 && 0 <= b2 < ssecs.len()
                        ==> involved_ind@.contains(line_cell(sz, row, #[trigger] sprims[a2] as nat, #[trigger] ssecs[b2] as nat) as usize),
                    forall|b2: int| 0 <= b2 < b1
                        ==> involved_ind@.contains(line_cell(sz, row, sprims[a1 as int] as nat, #[trigger] ssecs[b2] as nat) as usize),
                    forall|e: usize| #[trigger] secondaries@.contains(e) ==> exists|x: nat, b2: int| x < max && 0 <= b2 < ssecs.len()
                        && e == line_cell(sz, row, x, ssecs[b2] as nat),
            {
                let coord = Self::index_from_what(dir, sprims[a1], ssecs[b1], sz);
                proof {
                    lemma_line_cell(sz, row, sprims[a1 as int] as nat, ssecs[b1 as int] as nat);
                    assert(coord == line_cell(sz, row, sprims[a1 as int] as nat, ssecs[b1 as int] as nat));
                }
                let ghost inv_before = involved_ind@;
                involved_ind.push(coord);
                let ghost sec_before = secondaries@;
                let other = Self::switch_dir(dir);
                let sh = Self::add_to_house(&other, ssecs[b1]);
                Self::populate_secondary_set_with_potentials(puz, &sh, &mut secondaries);
                proof {
                    assert(involved_ind@[involved_ind@.len() - 1] == coord);
                    assert forall|a2: int, b2: int| 0 <= a2 < a1 && 0 <= b2 < ssecs.len()
                        implies involved_ind@.contains(line_cell(sz, row, #[trigger] sprims[a2] as nat, #[trigger] ssecs[b2] as nat) as usize) by {
                        let c = line_cell(sz, row, sprims[a2] as nat, ssecs[b2] as nat) as usize;
                        assert(inv_before.contains(c));
                        let i = choose|i: int| 0 <= i < inv_before.len() && inv_before[i] == c;
                        assert(involved_ind@[i] == c);
                    }
                    assert forall|b2: int| 0 <= b2 < b1 + 1
                        implies involved_ind@.contains(line_cell(sz, row, sprims[a1 as int] as nat, #[trigger] ssecs[b2] as nat) as usize) by {
                        let c = line_cell(sz, row, sprims[a1 as int] as nat, ssecs[b2] as nat) as usize;
                        if b2 < b1 {
                            assert(inv_before.contains(c));
                            let i = choose|i: int| 0 <= i < inv_before.len() && inv_before[i] == c;
                            assert(involved_ind@[i] == c);
                        } else {
                            assert(involved_ind@[involved_ind@.len() - 1] == c);
                        }
                    }
                    assert forall|e: usize| #[trigger] secondaries@.contains(e) implies exists|x: nat, b2: int| x < max && 0 <= b2 < ssecs.len()
                        && e == line_cell(sz, row, x, ssecs[b2] as nat) by {
                        if !sec_before.contains(e) {
                            let hn = if row { House::Col(ssecs[b1 as int] as nat) } else { House::Row(ssecs[b1 as int] as nat) };
                            let mv = house_cells(sz, hn).map_values(|x: nat| x as usize);
                            assert(mv.contains(e));
                            let j = choose|j: int| 0 <= j < mv.len() && mv[j] == e;
                            lemma_line_cell(sz, row, j as nat, ssecs[b1 as int] as nat);
                            assert(house_cells(sz, hn)[j] == line_cell(sz, row, j as nat, ssecs[b1 as int] as nat));
                            assert(e == line_cell(sz, row, j as nat, ssecs[b1 as int] as nat));
                        }
                    }
                    assert forall|e: usize| #[trigger] involved_ind@.contains(e) implies (e as nat) < sz.spec_total()
                        && t.sets.primary@.contains((line_of(sz, row, e as nat) + 1) as nat) by {
                        if e != coord {
                            let i = choose|i: int| 0 <= i < involved_ind@.len() && involved_ind@[i] == e;
                            assert(inv_before[i] == e);
                            assert(inv_before.contains(e));
                        }
                    }
                    let hn = if row { House::Col(ssecs[b1 as int] as nat) } else { House::Row(ssecs[b1 as int] as nat) };
                    assert forall|e: nat| e < sz.spec_total() && #[trigger] place_in_line(sz, row, e) == ssecs[b1 as int] as nat
                        implies secondaries@.contains(e as usize) by {
                        lemma_cell_line(sz, row, e);
                        let j = line_of(sz, row, e);
                        let mv = house_cells(sz, hn).map_values(|x: nat| x as usize);
                        lemma_line_cell(sz, row, j, ssecs[b1 as int] as nat);
                        assert(house_cells(sz, hn)[j as int] == line_cell(sz, row, j, ssecs[b1 as int] as nat));
                        assert(mv[j as int] == e as usize);
                        assert(mv.contains(e as usize));
                    }
                    assert(covers(secondaries@, sz, row, ssecs[b1 as int] as nat));
                    assert forall|b2: int| 0 <= b2 < ssecs.len() && covers(sec_before, sz, row, ssecs[b2] as nat)
                        implies covers(secondaries@, sz, row, #[trigger] ssecs[b2] as nat) by {
                        assert forall|e: nat| e < sz.spec_total() && #[trigger] place_in_line(sz, row, e) == ssecs[b2] as nat
                            implies secondaries@.contains(e as usize) by {
                            assert(sec_before.contains(e as usize));
                        }
                    }
                }
            }
        }
        for a1 in 0..eprims.len()
            invariant
                puz.wf(),
                sz == puz.grid.size,
                max == sz.spec_house(),
                sz.spec_total() <= 10000,
                row == (*dir is Row),
                !(*dir is Box),
                val.wf(),
                forall|q: int| 0 <= q < eprims.len() ==> #[trigger] eprims[q] < max,
                forall|q: int| 0 <= q < esecs.len() ==> #[trigger] esecs[q] < max,
                forall|q: int| 0 <= q < eprims.len() ==> t.sets.primary@.contains((#[trigger] eprims[q] + 1) as nat),
                forall|e: usize| #[trigger] involved_ind@.contains(e) ==> (e as nat) < sz.spec_total()
                    && t.sets.primary@.contains((line_of(sz, row, e as nat) + 1) as nat),
                sprims.len() > 0 ==> forall|b2: int| 0 <= b2 < ssecs.len() ==> covers(secondaries@, sz, row, #[trigger] ssecs[b2] as nat),
                themove.method == Some(method),
                !themove.manual,
                themove.value_set is None,
                themove.removed_potentials@.len() == 0,
                forall|a2: int, b2: int| 0 <= a2 < sprims.len() && 0 <= b2 < ssecs.len()
                    ==> involved_ind@.contains(line_cell(sz, row, #[trigger] sprims[a2] as nat, #[trigger] ssecs[b2] as nat) as usize),
        {
            for b1 in 0..esecs.len()
                invariant
                    puz.wf(),
                    sz == puz.grid.size,
                    max == sz.spec_house(),
                    sz.spec_total() <= 10000,
                    row == (*dir is Row),
                    !(*dir is Box),
                    val.wf(),
                    a1 < eprims.len(),
                    forall|q: int| 0 <= q < eprims.len() ==> #[trigger] eprims[q] < max,
                    forall|q: int| 0 <= q < esecs.len() ==> #[trigger] esecs[q] < max,
                    forall|q: int| 0 <= q < eprims.len() ==> t.sets.primary@.contains((#[trigger] eprims[q] + 1) as nat),
                    forall|e: usize| #[trigger] involved_ind@.contains(e) ==> (e as nat) < sz.spec_total()
                        && t.sets.primary@.contains((line_of(sz, row, e as nat) + 1) as nat),
                    themove.method == Some(method),
                    !themove.manual,
                    themove.value_set is None,
                    themove.removed_potentials@.len() == 0,
                    forall|a2: int, b2: int| 0 <= a2 < sprims.len() && 0 <= b2 < ssecs.len()
                        ==> involved_ind@.contains(line_cell(sz, row, #[trigger] sprims[a2] as nat, #[trigger] ssecs[b2] as nat) as usize),
            {
                let coord = Self::index_from_what(dir, eprims[a1], esecs[b1], sz);
                proof {
                    lemma_line_cell(sz, row, eprims[a1 as int] as nat, esecs[b1 as int] as nat);
                }
                let ghost inv_before = involved_ind@;
                involved_ind.push(coord);
                proof {
                    assert forall|a2: int, b2: int| 0 <= a2 < sprims.len() && 0 <= b2 < ssecs.len()
                        implies involved_ind@.contains(line_cell(sz, row, #[trigger] sprims[a2] as nat, #[trigger] ssecs[b2] as nat) as usize) by {
                        let c = line_cell(sz, row, sprims[a2] as nat, ssecs[b2] as nat) as usize;
                        assert(inv_before.contains(c));
                        let i = choose|i: int| 0 <= i < inv_before.len() && inv_before[i] == c;
                        assert(involved_ind@[i] == c);
                    }
                    assert forall|e: usize| #[trigger] involved_ind@.contains(e) implies (e as nat) < sz.spec_total()
                        && t.sets.primary@.contains((line_of(sz, row, e as nat) + 1) as nat) by {
                        if e != coord {
                            let i = choose|i: int| 0 <= i < involved_ind@.len() && involved_ind@[i] == e;
                            assert(inv_before[i] == e);
                            assert(inv_before.contains(e));
                        }
                    }
                }
            }
        }
        let boxcells = puz.grid.house_iter(boxnum);
        let ghost b = boxnum.box_num as nat;
        let ghost fin_box = box_of(sz, line_cell(sz, row, (fl - 1) as nat, (fc - 1) as nat));
        proof {
            assert(b == fin_box);
            assert forall|k: int| 0 <= k < boxcells.len() implies box_of(sz, #[trigger] boxcells[k] as nat) == b by {
                crate::grid::gridcoord::lemma_box_cell(sz, b, k as nat);
            }
        }
        let ghost mut pos: Seq<int> = Seq::empty();
        let ghost mut recx: Seq<nat> = Seq::empty();
        let ghost mut recq: Seq<nat> = Seq::empty();
        let ghost mut recj: Seq<int> = Seq::empty();
        for k in 0..boxcells.len()
            invariant
                puz.wf(),
                sz == puz.grid.size,
                max == sz.spec_house(),
                sz.spec_total() <= 10000,
                row == (*dir is Row),
                val.wf(),
                val@ == v,
                1 <= v <= max,
                b < max,
                b == fin_box,
                boxcells.len() == max,
                forall|j: int| 0 <= j < boxcells.len() ==> #[trigger] boxcells[j] == cell_box(sz, b, j as nat),
                forall|j: int| 0 <= j < boxcells.len() ==> #[trigger] boxcells[j] < sz.spec_total(),
                forall|j: int| 0 <= j < boxcells.len() ==> box_of(sz, #[trigger] boxcells[j] as nat) == b,
                forall|q: int| 0 <= q < sprims.len() ==> #[trigger] sprims[q] < max
                    && t.sets.primary@.contains((sprims[q] + 1) as nat),
                forall|q: int| 0 <= q < ssecs.len() ==> #[trigger] ssecs[q] < max
                    && t.sets.indices@.contains((ssecs[q] + 1) as nat),
                sprims.len() == asc_from(spn, 1, V::width()).len(),
                forall|q: int| 0 <= q < sprims.len() ==> #[trigger] sprims[q] + 1 == asc_from(spn, 1, V::width())[q],
                spn == t.sets.primary.0.spec_nat(),
                forall|a2: int, b2: int| 0 <= a2 < sprims.len() && 0 <= b2 < ssecs.len()
                    ==> involved_ind@.contains(line_cell(sz, row, #[trigger] sprims[a2] as nat, #[trigger] ssecs[b2] as nat) as usize),
                forall|e: usize| #[trigger] secondaries@.contains(e) ==> exists|x: nat, b2: int| x < max && 0 <= b2 < ssecs.len()
                    && e == line_cell(sz, row, x, ssecs[b2] as nat),
                themove.method == Some(method),
                !themove.manual,
                themove.value_set is None,
                recx.len() == themove.removed_potentials@.len(),
                recq.len() == themove.removed_potentials@.len(),
                recj.len() == themove.removed_potentials@.len(),
                forall|k2: int| 0 <= k2 < themove.removed_potentials@.len() ==> {
                    let p = #[trigger] themove.removed_potentials@[k2];
                    &&& p.value@ == Set::<nat>::empty().insert(v as nat)
                    &&& p.index.inner_index < sz.spec_total()
                    &&& puz.cells()[p.index.inner_index as int].flags.poss@.contains(v as nat)
                    &&& box_of(sz, p.index.inner_index as nat) == b
                    &&& 0 <= recj[k2] < k && boxcells[recj[k2]] == p.index.inner_index
                    &&& 1 <= recx[k2] <= max && 1 <= recq[k2] <= max && !t.sets.primary@.contains(recx[k2])
                    &&& t.sets.indices@.contains(recq[k2])
                    &&& p.index.inner_index == line_cell(sz, row, (recx[k2] - 1) as nat, (recq[k2] - 1) as nat)
                },
                distinct_records(themove),
                themove.removed_potentials@.len() == 0 ==> forall|j: int| 0 <= j < k ==> (involved_ind@.contains(#[trigger] boxcells[j])
                    || !puz.cells()[boxcells[j] as int].flags.poss@.contains(v as nat) || !secondaries@.contains(boxcells[j])),
                pos.len() == k,
                forall|j: int| 0 <= j < k && !involved_ind@.contains(#[trigger] boxcells[j])
                    && puz.cells()[boxcells[j] as int].flags.poss@.contains(v as nat) && secondaries@.contains(boxcells[j])
                    ==> 0 <= pos[j] < themove.removed_potentials@.len()
                        && themove.removed_potentials@[pos[j]].index.inner_index == boxcells[j],
        {
            let affected = boxcells[k];
            let ghost rbefore = themove.removed_potentials@;
            if !vec_contains(&involved_ind, affected) && puz.grid.items[affected].poss_contains(val)
                && vec_contains(&secondaries, affected) {
                let ghost before = themove.removed_potentials@;
                themove.add_removed_potential(puz.upgrade_index(affected), BitSet::from_bit(val));
                proof {
                    let n = before.len() as int;
                    let (x, q) = lemma_fin_record(sz, row, t.sets, affected, sprims@, ssecs@, involved_ind@, secondaries@);
                    let ghost oldj = recj;
                    recx = recx.push(x);
                    recq = recq.push(q);
                    recj = recj.push(k as int);
                    assert forall|k1: int, k2: int| 0 <= k1 < k2 < themove.removed_potentials@.len()
                        implies (#[trigger] themove.removed_potentials@[k1]).index.inner_index
                            != (#[trigger] themove.removed_potentials@[k2]).index.inner_index by {
                        if k2 == n {
                            let p = themove.removed_potentials@[k1];
                            assert(p == before[k1]);
                            let j = oldj[k1];
                            crate::human_calcs::basic::pointing::lemma_cells_distinct(sz, House::Box(b), j, k as int);
                            assert(house_cells(sz, House::Box(b))[j] == boxcells[j]);
                            assert(house_cells(sz, House::Box(b))[k as int] == boxcells[k as int]);
                        } else {
                            assert(themove.removed_potentials@[k1] == before[k1]);
                            assert(themove.removed_potentials@[k2] == before[k2]);
                        }
                    }
                    assert forall|k2: int| 0 <= k2 < n implies #[trigger] themove.removed_potentials@[k2] == before[k2] by {}
                }
            }
            proof {
                let ghost old_pos = pos;
                if themove.removed_potentials@.len() > rbefore.len() {
                    pos = pos.push(rbefore.len() as int);
                } else {
                    pos = pos.push(-1);
                }
                assert forall|j: int| 0 <= j < k + 1 && !involved_ind@.contains(#[trigger] boxcells[j])
                    && puz.cells()[boxcells[j] as int].flags.poss@.contains(v as nat) && secondaries@.contains(boxcells[j])
                    implies 0 <= pos[j] < themove.removed_potentials@.len()
                        && themove.removed_potentials@[pos[j]].index.inner_index == boxcells[j] by {
                    if j < k {
                        assert(pos[j] == old_pos[j]);
                        assert(themove.removed_potentials@[pos[j]] == rbefore[pos[j]]);
                    }
                }
            }
        }
        if themove.removed_potentials_vec().len() != 0 {
            proof {
                assert(themove.removed_potentials@[0].value@.contains(v as nat));
                assert(crate::hint::removals_fit(puz.cells(), themove.removed_potentials@));
                assert(finned_shape(*puz, row, v as nat, t.sets, fl, fc));
                assert(popcnt(t.sets.indices.0.spec_nat()) == size);
                assert(t.sets.primary@.contains(fl));
                lemma_listed(t.sets.primary, fl);
                assert(sprims.len() > 0);
                assert forall|x: nat, q: nat| 1 <= x <= max && !t.sets.primary@.contains(x) && t.sets.indices@.contains(q)
                    && box_of(sz, line_cell(sz, row, (x - 1) as nat, (q - 1) as nat)) == box_of(sz, line_cell(sz, row, (fl - 1) as nat, (fc - 1) as nat))
                    && #[trigger] may_hold(*puz, row, v as nat, x, q) implies exists|k2: int| 0 <= k2 < themove.removed_potentials@.len()
                        && (#[trigger] themove.removed_potentials@[k2]).index.inner_index == line_cell(sz, row, (x - 1) as nat, (q - 1) as nat) by {
                    lemma_listed(t.sets.indices, q);
                    let sq = asc_from(ssn, 1, V::width());
                    let b2 = choose|b2: int| 0 <= b2 < sq.len() && #[trigger] sq[b2] == q;
                    assert(ssecs[b2] + 1 == q);
                    assert(q <= max);
                    lemma_line_cell(sz, row, (x - 1) as nat, (q - 1) as nat);
                    let c = line_cell(sz, row, (x - 1) as nat, (q - 1) as nat);
                    crate::sudoku::state::lemma_box_place(sz, c);
                    let j = crate::grid::types::box_offset(sz, c);
                    assert(boxcells[j as int] == cell_box(sz, b, j));
                    assert(boxcells[j as int] == c);
                    assert(place_in_line(sz, row, c) == ssecs[b2] as nat);
                    assert(covers(secondaries@, sz, row, ssecs[b2] as nat));
                    assert(secondaries@.contains(c as usize));
                    assert(line_of(sz, row, c) == x - 1);
                    assert(!involved_ind@.contains(c as usize));
                    assert(puz.cells()[c as int].flags.poss@.contains(v as nat));
                    assert(themove.removed_potentials@[pos[j as int]].index.inner_index == c);
                }
                assert(finned_complete(*puz, row, v as nat, t.sets, fl, fc, themove.removed_potentials@));
                assert forall|k2: int| 0 <= k2 < themove.removed_potentials@.len() implies exists|x: nat, q: nat|
                    1 <= x <= max && 1 <= q <= max && !t.sets.primary@.contains(x) && t.sets.indices@.contains(q)
                    && (#[trigger] themove.removed_potentials@[k2]).index.inner_index == line_cell(sz, row, (x - 1) as nat, (q - 1) as nat) by {
                    let x = recx[k2];
                    let q = recq[k2];
                    assert(themove.removed_potentials@[k2].index.inner_index == line_cell(sz, row, (x - 1) as nat, (q - 1) as nat));
                }
                assert(t.extra.indices@.contains(fc));
                assert(finned_removals(*puz, row, size as nat, v as nat, t.sets, fl, fc, themove.removed_potentials@));
            }
        } else {
            proof {
                let s0 = choose|s0: Set<int>| finned_choice(a, s0, size as nat, sz.spec_size()) && #[trigger] cand_of(a, t, s0);
                assert(t.sets.primary@.contains(fl));
                lemma_listed(t.sets.primary, fl);
                assert(sprims.len() > 0);
                assert forall|x: nat, q: nat, y: nat, f: nat| #![trigger may_hold(*puz, row, v as nat, x, q), fin_lines(a, s0).contains(y), fin_set(a, s0).contains(f)]
                    1 <= x <= max && !line_set(s0).contains(x) && twice_set(a, s0).contains(q)
                    && fin_lines(a, s0).contains(y) && fin_set(a, s0).contains(f)
                    && box_of(sz, line_cell(sz, row, (x - 1) as nat, (q - 1) as nat)) == box_of(sz, line_cell(sz, row, (y - 1) as nat, (f - 1) as nat))
                    implies !may_hold(*puz, row, v as nat, x, q) by {
                    lemma_single_value(t.extra.indices, f, fc);
                    let p = choose|p: nat| fin_set(a, s0).contains(p) && #[trigger] a[y - 1].indices@.contains(p);
                    lemma_single_value(t.extra.indices, p, fc);
                    if y != fl {
                        assert(twice_places(a, s0, fc));
                        assert(twice_set(a, s0).contains(fc));
                    }
                    assert(t.sets.indices@.contains(q));
                    lemma_listed(t.sets.indices, q);
                    let sq = asc_from(ssn, 1, V::width());
                    let b2 = choose|b2: int| 0 <= b2 < sq.len() && #[trigger] sq[b2] == q;
                    assert(ssecs[b2] + 1 == q);
                    assert(q <= max);
                    lemma_line_cell(sz, row, (x - 1) as nat, (q - 1) as nat);
                    let c = line_cell(sz, row, (x - 1) as nat, (q - 1) as nat);
                    if may_hold(*puz, row, v as nat, x, q) {
                        crate::sudoku::state::lemma_box_place(sz, c);
                        let j = crate::grid::types::box_offset(sz, c);
                        assert(boxcells[j as int] == cell_box(sz, b, j));
                        assert(boxcells[j as int] == c);
                        assert(place_in_line(sz, row, c) == ssecs[b2] as nat);
                        assert(covers(secondaries@, sz, row, ssecs[b2] as nat));
                        assert(secondaries@.contains(c as usize));
                        assert(line_of(sz, row, c) == x - 1);
                        assert(!involved_ind@.contains(c as usize));
                        assert(puz.cells()[c as int].flags.poss@.contains(v as nat));
                    }
                }
                assert(finned_takes_nothing(*puz, row, v as nat, a, s0));
                assert forall|s: Set<int>| #[trigger] finned_lines(*puz, row, v as nat, s, size as nat)
                    implies exists|s2: Set<int>, a2: Seq<FishCtr<V>>| #![trigger finned_choice(a2, s2, size as nat, puz.grid.size.spec_size()), value_lines(*puz, row, v as nat, a2)]
                        value_lines(*puz, row, v as nat, a2) && finned_choice(a2, s2, size as nat, puz.grid.size.spec_size())
                        && finned_takes_nothing(*puz, row, v as nat, a2, s2) by {
                    assert(value_lines(*puz, row, v as nat, a) && finned_choice(a, s0, size as nat, puz.grid.size.spec_size()));
                }
            }
        }
        themove
    }

    /// The move of the finned fish `t` with its records: the cells it takes `val` out of, and
    /// the cells of the fish that may hold `val`.
    fn fin_full_move(puz: &Sudoku<V>, dir: &House<()>, size: usize, method: Technique, val: Bit<V>,
        tuplectr: &FishTupleCtr<V>, t: FinCand<V>) -> (themove: Move<V>)
        requires
            puz.wf(),
            !(*dir is Box),
            val.wf(),
            1 <= val@ <= puz.grid.size.spec_house(),
            tuplectr.wf(),
            value_lines(*puz, *dir is Row, val@, tuplectr.array@),
            fin_found(tuplectr.array@, t, size as nat),
            exists|s: Set<int>| finned_choice(tuplectr.array@, s, size as nat, puz.grid.size.spec_size())
                && #[trigger] cand_of(tuplectr.array@, t, s),
        ensures
            themove.removed_potentials@.len() > 0 ==> sound_hint(*puz, themove, method) && themove.value_set is None
                && distinct_records(themove) && finned_fish_move(*puz, *dir is Row, size as nat, themove),
            themove.removed_potentials@.len() == 0 ==> forall|s: Set<int>| #[trigger] finned_lines(*puz, *dir is Row, val@, s, size as nat)
                ==> exists|s2: Set<int>, a2: Seq<FishCtr<V>>| #![trigger finned_choice(a2, s2, size as nat, puz.grid.size.spec_size()), value_lines(*puz, *dir is Row, val@, a2)]
                    value_lines(*puz, *dir is Row, val@, a2) && finned_choice(a2, s2, size as nat, puz.grid.size.spec_size())
                    && finned_takes_nothing(*puz, *dir is Row, val@, a2, s2),
    {
        let mut themove = Self::fin_move(puz, dir, size, method, val, tuplectr, t);
        if themove.removed_potentials_vec().len() != 0 {
            let ghost before = themove;
            let used = Self::fin_used(puz, dir, size, val, tuplectr, t);
            themove.used_to_solve = used;
            proof {
                let (fl, fc) = choose|fl: nat, fc: nat| t.extra.indices@.contains(fc)
                    && #[trigger] finned_removals(*puz, *dir is Row, size as nat, val@, t.sets, fl, fc, before.removed_potentials@);
                assert(finned_removals(*puz, *dir is Row, size as nat, val@, t.sets, fl, fc, themove.removed_potentials@));
                assert(finned_used_sound(*puz, *dir is Row, val@, t.sets, fc, themove.used_to_solve@));
                assert(finned_fin_complete(*puz, *dir is Row, val@, t.sets, fc, themove.used_to_solve@));
                assert(sound_hint(*puz, before, method));
                assert(distinct_records(before));
            }
        }
        themove
    }

    /// The cells of the finned fish `t` that may hold `val`: those of its lines at its places,
    /// then those of its lines with the fin at the fin's place, each with `val`.
    fn fin_used(puz: &Sudoku<V>, dir: &House<()>, size: usize, val: Bit<V>, tuplectr: &FishTupleCtr<V>,
        t: FinCand<V>) -> (used: Vec<IndexValuePair<BitSet<V>>>)
        requires
            puz.wf(),
            !(*dir is Box),
            val.wf(),
            1 <= val@ <= puz.grid.size.spec_house(),
            tuplectr.wf(),
            value_lines(*puz, *dir is Row, val@, tuplectr.array@),
            fin_found(tuplectr.array@, t, size as nat),
            exists|s: Set<int>| finned_choice(tuplectr.array@, s, size as nat, puz.grid.size.spec_size())
                && #[trigger] cand_of(tuplectr.array@, t, s),
        ensures
            finned_used_complete(*puz, *dir is Row, val@, t.sets, used@),
            forall|f: nat| #[trigger] t.extra.indices@.contains(f) ==> finned_used_sound(*puz, *dir is Row, val@, t.sets, f, used@)
                && finned_fin_complete(*puz, *dir is Row, val@, t.sets, f, used@),
    {
        let mut mv = Self::used_on_places(puz, dir, size, val, tuplectr, t);
        let ghost used1 = mv.used_to_solve@;
        Self::used_at_fin(puz, dir, size, val, tuplectr, t, &mut mv);
        proof {
            lemma_used_cover_grows(*puz, *dir is Row, val@, t.sets, used1, mv.used_to_solve@);
        }
        mv.used_to_solve
    }

    /// A move that names the cells of the lines of the finned fish `t` at its places that may
    /// hold `val`, each with `val`.
    #[verifier::rlimit(100)]
    fn used_on_places(puz: &Sudoku<V>, dir: &House<()>, size: usize, val: Bit<V>, tuplectr: &FishTupleCtr<V>,
        t: FinCand<V>) -> (mv: Move<V>)
        requires
            puz.wf(),
            !(*dir is Box),
            val.wf(),
            1 <= val@ <= puz.grid.size.spec_house(),
            tuplectr.wf(),
            value_lines(*puz, *dir is Row, val@, tuplectr.array@),
            fin_found(tuplectr.array@, t, size as nat),
            exists|s: Set<int>| finned_choice(tuplectr.array@, s, size as nat, puz.grid.size.spec_size())
                && #[trigger] cand_of(tuplectr.array@, t, s),
        ensures
            finned_used_complete(*puz, *dir is Row, val@, t.sets, mv.used_to_solve@),
            forall|f: nat| #[trigger] t.extra.indices@.contains(f) ==> finned_used_sound(*puz, *dir is Row, val@, t.sets, f, mv.used_to_solve@),
    {
        let max = puz.house_size();
        let sz = puz.sudoku_size();
        let row = match dir {
            House::Row(_) => true,
            _ => false,
        };
        let ghost v: nat = val@;
        let ghost a = tuplectr.array@;
        proof { sz.lemma_sizes(); }
        let mut mv: Move<V> = Move::new();
        proof {
            lemma_first_value(t.extra.indices);
        }
        let eprims = t.extra.primary_iter();
        let esecs = t.extra.index_iter();
        let ghost fc: nat = (esecs[0] + 1) as nat;
        let sprims = t.sets.primary_iter();
        let ssecs = t.sets.index_iter();
        proof {
            assert(fc == asc_from(t.extra.indices.0.spec_nat(), 1, V::width())[0]);
            assert(t.extra.indices@.contains(fc));
            let spn = t.sets.primary.0.spec_nat();
            let ssn = t.sets.indices.0.spec_nat();
            let epn = t.extra.primary.0.spec_nat();
            let esn = t.extra.indices.0.spec_nat();
            V::lemma_range(t.sets.primary.0);
            V::lemma_range(t.sets.indices.0);
            V::lemma_range(t.extra.primary.0);
            V::lemma_range(t.extra.indices.0);
            assert forall|q: int| 0 <= q < sprims.len() implies #[trigger] sprims[q] < max
                && t.sets.primary@.contains((sprims[q] + 1) as nat) by {
                lemma_listed_in(t.sets.primary, q);
            }
            assert forall|q: int| 0 <= q < ssecs.len() implies #[trigger] ssecs[q] < max
                && t.sets.indices@.contains((ssecs[q] + 1) as nat) by {
                lemma_listed_in(t.sets.indices, q);
                let x = (ssecs[q] + 1) as nat;
                let w = choose|w: int| 0 <= w < a.len() && #[trigger] a[w].indices@.contains(x);
                assert(a[w].indices@.contains(x));
            }
            assert forall|q: int| 0 <= q < eprims.len() implies #[trigger] eprims[q] < max
                && t.sets.primary@.contains((eprims[q] + 1) as nat) by {
                lemma_listed_in(t.extra.primary, q);
            }
            assert forall|q: int| 0 <= q < esecs.len() implies #[trigger] esecs[q] < max && esecs[q] + 1 == fc by {
                lemma_listed_in(t.extra.indices, q);
                lemma_single_value(t.extra.indices, (esecs[q] + 1) as nat, fc);
                let s0 = choose|s0: Set<int>| finned_choice(a, s0, size as nat, sz.spec_size()) && #[trigger] cand_of(a, t, s0);
                assert(fin_set(a, s0).contains(fc));
                assert(place_set(a, s0).contains(fc));
                let w = choose|w: int| #![trigger a[w].indices@.contains(fc)] s0.contains(w) && 0 <= w < a.len() && a[w].indices@.contains(fc);
                assert(a[w].indices@.contains(fc));
            }
        }
        for a1 in 0..sprims.len()
            invariant
                puz.wf(),
                sz == puz.grid.size,
                max == sz.spec_house(),
                sz.spec_total() <= 10000,
                row == (*dir is Row),
                !(*dir is Box),
                val.wf(),
                val@ == v,
                forall|q: int| 0 <= q < sprims.len() ==> #[trigger] sprims[q] < max
                    && t.sets.primary@.contains((sprims[q] + 1) as nat),
                forall|q: int| 0 <= q < ssecs.len() ==> #[trigger] ssecs[q] < max
                    && t.sets.indices@.contains((ssecs[q] + 1) as nat),
                finned_used_sound(*puz, row, v, t.sets, fc, mv.used_to_solve@),
                forall|a2: int, b2: int| #![trigger sprims[a2], ssecs[b2]] 0 <= a2 < a1 && 0 <= b2 < ssecs.len()
                    && may_hold(*puz, row, v, (sprims[a2] + 1) as nat, (ssecs[b2] + 1) as nat)
                    ==> exists|k: int| 0 <= k < mv.used_to_solve@.len()
                        && (#[trigger] mv.used_to_solve@[k]).index.inner_index == line_cell(sz, row, sprims[a2] as nat, ssecs[b2] as nat),
        {
            for b1 in 0..ssecs.len()
                invariant
                    puz.wf(),
                    sz == puz.grid.size,
                    max == sz.spec_house(),
                    sz.spec_total() <= 10000,
                    row == (*dir is Row),
                    !(*dir is Box),
                    val.wf(),
                    val@ == v,
                    a1 < sprims.len(),
                    forall|q: int| 0 <= q < sprims.len() ==> #[trigger] sprims[q] < max
                        && t.sets.primary@.contains((sprims[q] + 1) as nat),
                    forall|q: int| 0 <= q < ssecs.len() ==> #[trigger] ssecs[q] < max
                        && t.sets.indices@.contains((ssecs[q] + 1) as nat),
                    finned_used_sound(*puz, row, v, t.sets, fc, mv.used_to_solve@),
                    forall|a2: int, b2: int| #![trigger sprims[a2], ssecs[b2]] 0 <= a2 < sprims.len() && 0 <= b2 < ssecs.len()
                        && (a2 < a1 || (a2 == a1 && b2 < b1))
                        && may_hold(*puz, row, v, (sprims[a2] + 1) as nat, (ssecs[b2] + 1) as nat)
                        ==> exists|k: int| 0 <= k < mv.used_to_solve@.len()
                            && (#[trigger] mv.used_to_solve@[k]).index.inner_index == line_cell(sz, row, sprims[a2] as nat, ssecs[b2] as nat),
            {
                let coord = Self::index_from_what(dir, sprims[a1], ssecs[b1], sz);
                proof {
                    lemma_line_cell(sz, row, sprims[a1 as int] as nat, ssecs[b1 as int] as nat);
                    assert(coord == line_cell(sz, row, sprims[a1 as int] as nat, ssecs[b1 as int] as nat));
                    assert(may_hold(*puz, row, v, (sprims[a1 as int] + 1) as nat, (ssecs[b1 as int] + 1) as nat)
                        == puz.cells()[coord as int].flags.poss@.contains(v));
                }
                let ghost ubefore = mv.used_to_solve@;
                if puz.grid.items[coord].poss_contains(val) {
                    mv.add_used_to_solve(puz.upgrade_index(coord), BitSet::from_bit(val));
                    proof {
                        let n = ubefore.len() as int;
                        let x = (sprims[a1 as int] + 1) as nat;
                        let q = (ssecs[b1 as int] + 1) as nat;
                        assert(t.sets.primary@.contains(x) && t.sets.indices@.contains(q) && may_hold(*puz, row, v, x, q)
                            && mv.used_to_solve@[n].index.inner_index == line_cell(sz, row, (x - 1) as nat, (q - 1) as nat));
                        assert forall|k: int| 0 <= k < n implies #[trigger] mv.used_to_solve@[k] == ubefore[k] by {}
                    }
                }
                proof {
                    assert forall|k: int| 0 <= k < ubefore.len() implies #[trigger] mv.used_to_solve@[k] == ubefore[k] by {}
                    assert forall|a2: int, b2: int| #![trigger sprims[a2], ssecs[b2]] 0 <= a2 < sprims.len() && 0 <= b2 < ssecs.len()
                        && (a2 < a1 || (a2 == a1 && b2 < b1 + 1))
                        && may_hold(*puz, row, v, (sprims[a2] + 1) as nat, (ssecs[b2] + 1) as nat)
                        implies exists|k: int| 0 <= k < mv.used_to_solve@.len()
                            && (#[trigger] mv.used_to_solve@[k]).index.inner_index == line_cell(sz, row, sprims[a2] as nat, ssecs[b2] as nat) by {
                        if a2 == a1 && b2 == b1 {
                            assert(mv.used_to_solve@[ubefore.len() as int].index.inner_index == coord);
                        } else {
                            let k = choose|k: int| 0 <= k < ubefore.len()
                                && (#[trigger] ubefore[k]).index.inner_index == line_cell(sz, row, sprims[a2] as nat, ssecs[b2] as nat);
                            assert(mv.used_to_solve@[k] == ubefore[k]);
                        }
                    }
                }
            }
        }
        proof {
            lemma_finned_used_cover(*puz, row, v, t.sets, sprims@, ssecs@, mv.used_to_solve@);
            assert forall|f: nat| #[trigger] t.extra.indices@.contains(f) implies finned_used_sound(*puz, row, v, t.sets, f, mv.used_to_solve@) by {
                lemma_single_value(t.extra.indices, f, fc);
            }
        }
        mv
    }

    /// Adds to `mv` the cells of the lines of the finned fish `t` with the fin, at the fin's
    /// place, that may hold `val`, each with `val`.
    #[verifier::rlimit(100)]
    fn used_at_fin(puz: &Sudoku<V>, dir: &House<()>, size: usize, val: Bit<V>, tuplectr: &FishTupleCtr<V>,
        t: FinCand<V>, mv: &mut Move<V>)
        requires
            puz.wf(),
            !(*dir is Box),
            val.wf(),
            1 <= val@ <= puz.grid.size.spec_house(),
            tuplectr.wf(),
            value_lines(*puz, *dir is Row, val@, tuplectr.array@),
            fin_found(tuplectr.array@, t, size as nat),
            exists|s: Set<int>| finned_choice(tuplectr.array@, s, size as nat, puz.grid.size.spec_size())
                && #[trigger] cand_of(tuplectr.array@, t, s),
            forall|f: nat| #[trigger] t.extra.indices@.contains(f) ==> finned_used_sound(*puz, *dir is Row, val@, t.sets, f, old(mv).used_to_solve@),
        ensures
            old(mv).used_to_solve@.len() <= final(mv).used_to_solve@.len(),
            forall|k: int| 0 <= k < old(mv).used_to_solve@.len() ==> #[trigger] final(mv).used_to_solve@[k] == old(mv).used_to_solve@[k],
            forall|f: nat| #[trigger] t.extra.indices@.contains(f) ==> finned_used_sound(*puz, *dir is Row, val@, t.sets, f, final(mv).used_to_solve@)
                && finned_fin_complete(*puz, *dir is Row, val@, t.sets, f, final(mv).used_to_solve@),
    {
        let max = puz.house_size();
        let sz = puz.sudoku_size();
        let row = match dir {
            House::Row(_) => true,
            _ => false,
        };
        let ghost v: nat = val@;
        let ghost a = tuplectr.array@;
        proof { sz.lemma_sizes(); }
        proof {
            lemma_first_value(t.extra.indices);
        }
        let eprims = t.extra.primary_iter();
        let esecs = t.extra.index_iter();
        let ghost fc: nat = (esecs[0] + 1) as nat;
        let sprims = t.sets.primary_iter();
        let ssecs = t.sets.index_iter();
        proof {
            assert(fc == asc_from(t.extra.indices.0.spec_nat(), 1, V::width())[0]);
            assert(t.extra.indices@.contains(fc));
            let spn = t.sets.primary.0.spec_nat();
            let ssn = t.sets.indices.0.spec_nat();
            let epn = t.extra.primary.0.spec_nat();
            let esn = t.extra.indices.0.spec_nat();
            V::lemma_range(t.sets.primary.0);
            V::lemma_range(t.sets.indices.0);
            V::lemma_range(t.extra.primary.0);
            V::lemma_range(t.extra.indices.0);
            assert forall|q: int| 0 <= q < sprims.len() implies #[trigger] sprims[q] < max
                && t.sets.primary@.contains((sprims[q] + 1) as nat) by {
                lemma_listed_in(t.sets.primary, q);
            }
            assert forall|q: int| 0 <= q < ssecs.len() implies #[trigger] ssecs[q] < max
                && t.sets.indices@.contains((ssecs[q] + 1) as nat) by {
                lemma_listed_in(t.sets.indices, q);
                let x = (ssecs[q] + 1) as nat;
                let w = choose|w: int| 0 <= w < a.len() && #[trigger] a[w].indices@.contains(x);
                assert(a[w].indices@.contains(x));
            }
            assert forall|q: int| 0 <= q < eprims.len() implies #[trigger] eprims[q] < max
                && t.sets.primary@.contains((eprims[q] + 1) as nat) by {
                lemma_listed_in(t.extra.primary, q);
            }
            assert forall|q: int| 0 <= q < esecs.len() implies #[trigger] esecs[q] < max && esecs[q] + 1 == fc by {
                lemma_listed_in(t.extra.indices, q);
                lemma_single_value(t.extra.indices, (esecs[q] + 1) as nat, fc);
                let s0 = choose|s0: Set<int>| finned_choice(a, s0, size as nat, sz.spec_size()) && #[trigger] cand_of(a, t, s0);
                assert(fin_set(a, s0).contains(fc));
                assert(place_set(a, s0).contains(fc));
                let w = choose|w: int| #![trigger a[w].indices@.contains(fc)] s0.contains(w) && 0 <= w < a.len() && a[w].indices@.contains(fc);
                assert(a[w].indices@.contains(fc));
            }
        }
        let ghost used1 = mv.used_to_solve@;
        for a1 in 0..eprims.len()
            invariant
                puz.wf(),
                sz == puz.grid.size,
                max == sz.spec_house(),
                sz.spec_total() <= 10000,
                row == (*dir is Row),
                !(*dir is Box),
                val.wf(),
                val@ == v,
                forall|q: int| 0 <= q < eprims.len() ==> #[trigger] eprims[q] < max
                    && t.sets.primary@.contains((eprims[q] + 1) as nat),
                forall|q: int| 0 <= q < esecs.len() ==> #[trigger] esecs[q] < max && esecs[q] + 1 == fc,
                finned_used_sound(*puz, row, v, t.sets, fc, mv.used_to_solve@),
                used1.len() <= mv.used_to_solve@.len(),
                forall|k: int| 0 <= k < used1.len() ==> #[trigger] mv.used_to_solve@[k] == used1[k],
                forall|a2: int, b2: int| #![trigger eprims[a2], esecs[b2]] 0 <= a2 < a1 && 0 <= b2 < esecs.len()
                    && may_hold(*puz, row, v, (eprims[a2] + 1) as nat, (esecs[b2] + 1) as nat)
                    ==> exists|k: int| 0 <= k < mv.used_to_solve@.len()
                        && (#[trigger] mv.used_to_solve@[k]).index.inner_index == line_cell(sz, row, eprims[a2] as nat, esecs[b2] as nat),
        {
            for b1 in 0..esecs.len()
                invariant
                    puz.wf(),
                    sz == puz.grid.size,
                    max == sz.spec_house(),
                    sz.spec_total() <= 10000,
                    row == (*dir is Row),
                    !(*dir is Box),
                    val.wf(),
                    val@ == v,
                    a1 < eprims.len(),
                    forall|q: int| 0 <= q < eprims.len() ==> #[trigger] eprims[q] < max
                        && t.sets.primary@.contains((eprims[q] + 1) as nat),
                    forall|q: int| 0 <= q < esecs.len() ==> #[trigger] esecs[q] < max && esecs[q] + 1 == fc,
                    finned_used_sound(*puz, row, v, t.sets, fc, mv.used_to_solve@),
                    used1.len() <= mv.used_to_solve@.len(),
                    forall|k: int| 0 <= k < used1.len() ==> #[trigger] mv.used_to_solve@[k] == used1[k],
                    forall|a2: int, b2: int| #![trigger eprims[a2], esecs[b2]] 0 <= a2 < eprims.len() && 0 <= b2 < esecs.len()
                        && (a2 < a1 || (a2 == a1 && b2 < b1))
                        && may_hold(*puz, row, v, (eprims[a2] + 1) as nat, (esecs[b2] + 1) as nat)
                        ==> exists|k: int| 0 <= k < mv.used_to_solve@.len()
                            && (#[trigger] mv.used_to_solve@[k]).index.inner_index == line_cell(sz, row, eprims[a2] as nat, esecs[b2] as nat),
            {
                let coord = Self::index_from_what(dir, eprims[a1], esecs[b1], sz);
                proof {
                    lemma_line_cell(sz, row, eprims[a1 as int] as nat, esecs[b1 as int] as nat);
                    assert(coord == line_cell(sz, row, eprims[a1 as int] as nat, esecs[b1 as int] as nat));
                    assert(may_hold(*puz, row, v, (eprims[a1 as int] + 1) as nat, (esecs[b1 as int] + 1) as nat)
                        == puz.cells()[coord as int].flags.poss@.contains(v));
                }
                let ghost ubefore = mv.used_to_solve@;
                if puz.grid.items[coord].poss_contains(val) {
                    mv.add_used_to_solve(puz.upgrade_index(coord), BitSet::from_bit(val));
                    proof {
                        let n = ubefore.len() as int;
                        let x = (eprims[a1 as int] + 1) as nat;
                        let q = (esecs[b1 as int] + 1) as nat;
                        assert(q == fc);
                        assert(t.sets.primary@.contains(x) && may_hold(*puz, row, v, x, q)
                            && mv.used_to_solve@[n].index.inner_index == line_cell(sz, row, (x - 1) as nat, (q - 1) as nat));
                        assert forall|k: int| 0 <= k < n implies #[trigger] mv.used_to_solve@[k] == ubefore[k] by {}
                    }
                }
                proof {
                    assert forall|k: int| 0 <= k < ubefore.len() implies #[trigger] mv.used_to_solve@[k] == ubefore[k] by {}
                    assert forall|a2: int, b2: int| #![trigger eprims[a2], esecs[b2]] 0 <= a2 < eprims.len() && 0 <= b2 < esecs.len()
                        && (a2 < a1 || (a2 == a1 && b2 < b1 + 1))
                        && may_hold(*puz, row, v, (eprims[a2] + 1) as nat, (esecs[b2] + 1) as nat)
                        implies exists|k: int| 0 <= k < mv.used_to_solve@.len()
                            && (#[trigger] mv.used_to_solve@[k]).index.inner_index == line_cell(sz, row, eprims[a2] as nat, esecs[b2] as nat) by {
                        if a2 == a1 && b2 == b1 {
                            assert(mv.used_to_solve@[ubefore.len() as int].index.inner_index == coord);
                        } else {
                            let k = choose|k: int| 0 <= k < ubefore.len()
                                && (#[trigger] ubefore[k]).index.inner_index == line_cell(sz, row, eprims[a2] as nat, esecs[b2] as nat);
                            assert(mv.used_to_solve@[k] == ubefore[k]);
                        }
                    }
                }
            }
        }
        proof {
            let s0 = choose|s0: Set<int>| finned_choice(a, s0, size as nat, sz.spec_size()) && #[trigger] cand_of(a, t, s0);
            lemma_fin_lines_hold(*puz, row, v, a, t, s0, fc);
            lemma_finned_fin_cover(*puz, row, v, t.sets, t.extra, fc, eprims@, esecs@, mv.used_to_solve@);
            assert forall|f: nat| #[trigger] t.extra.indices@.contains(f) implies finned_used_sound(*puz, row, v, t.sets, f, mv.used_to_solve@)
                && finned_fin_complete(*puz, row, v, t.sets, f, mv.used_to_solve@) by {
                lemma_single_value(t.extra.indices, f, fc);
            }
        }
    }

    /// The first finned fish of `size` lines among the counters, if any.
    fn finned_combo(tuples: &FishTupleCtr<V>, size: usize, sudoku_size: &SudokuSize) -> (r: Option<FinCand<V>>)
        requires
            tuples.wf(),
            tuples.array.len() == sudoku_size.spec_house(),
        ensures
            r matches Some(f) ==> fin_found(tuples.array@, f, size as nat),
            r matches Some(f) ==> exists|s: Set<int>| finned_choice(tuples.array@, s, size as nat, sudoku_size.spec_size())
                && #[trigger] cand_of(tuples.array@, f, s),
            forall|s: Set<int>| #[trigger] finned_choice(tuples.array@, s, size as nat, sudoku_size.spec_size()) ==> r is Some,
    {
        let sets: FishCtr<V> = FishCtr::new(Bit::zero());
        let extra: FishCtr<V> = FishCtr::new(Bit::zero());
        proof {
            assert(sets.primary@ =~= Set::<nat>::empty()) by {
                crate::bitset::bitset::lemma_count_zero_empty(sets.primary);
            }
            assert(extra.primary@ =~= Set::<nat>::empty()) by {
                crate::bitset::bitset::lemma_count_zero_empty(extra.primary);
            }
            assert(popcnt(extra.primary.0.spec_nat()) == 0);
            assert(sets.indices@.subset_of(extra.indices@));
        }
        let fin = FinCand { sets, extra };
        let r = Self::finned_combo_rec(tuples, size, fin, 0, None, sudoku_size, Ghost(Set::<int>::empty()));
        proof {
            assert forall|s: Set<int>| #[trigger] finned_choice(tuples.array@, s, size as nat, sudoku_size.spec_size()) implies r is Some by {
                assert(Set::<int>::empty().subset_of(s));
            }
        }
        r
    }

    /// Whether the fin lies in a band of boxes (a stack, for rows) that one of the places of
    /// the fish also lies in; the fin must be a single place.
    fn is_extra_covered(cand: &FinCand<V>, size: &SudokuSize) -> (r: bool)
        requires
            cand.extra.ind_count == popcnt(cand.extra.indices.0.spec_nat()),
        ensures
            r ==> cand.extra.ind_count == 1,
            r == extra_covered(*cand, size.spec_size()),
    {
        if cand.extra.icount() != 1 {
            return false;
        }
        proof {
            lemma_first_value(cand.extra.indices);
        }
        let extra: usize = cand.extra.index_iter()[0];
        let w = size.size();
        proof { size.lemma_sizes(); }
        let ghost ww = w as nat;
        let ghost f: nat = (extra + 1) as nat;
        let ghost sq = asc_from(cand.sets.indices.0.spec_nat(), 1, V::width());
        proof {
            let fs = cand.extra.indices@;
            assert(fs.contains(f));
            crate::bitset::bitset::lemma_values_len(cand.extra.indices);
            assert forall|g: nat| #[trigger] fs.contains(g) implies g == f by {
                if g != f {
                    assert(fs.remove(f).contains(g));
                    fs.remove(f).lemma_len0_is_empty();
                }
            }
        }
        let sets = cand.sets.index_iter();
        for k in 0..sets.len()
            invariant
                w >= 2,
                w == size.spec_size(),
                ww == w,
                cand.extra.ind_count == 1,
                f == extra + 1,
                cand.extra.indices@.contains(f),
                forall|g: nat| #[trigger] cand.extra.indices@.contains(g) ==> g == f,
                sq == asc_from(cand.sets.indices.0.spec_nat(), 1, V::width()),
                sets.len() == sq.len(),
                forall|j: int| 0 <= j < sets.len() ==> #[trigger] sets[j] + 1 == sq[j],
                forall|j: int| 0 <= j < k ==> !same_band(#[trigger] sq[j], f, ww),
        {
            if sets[k] / w == extra / w {
                proof {
                    lemma_listed_in(cand.sets.indices, k as int);
                    assert(sq[k as int] - 1 == sets[k as int]);
                    assert(same_band(sq[k as int], f, ww));
                    assert(cand.sets.indices@.contains(sq[k as int]));
                }
                return true;
            }
        }
        proof {
            assert forall|q: nat, g: nat| cand.sets.indices@.contains(q) && cand.extra.indices@.contains(g)
                implies !#[trigger] same_band(q, g, ww) by {
                lemma_listed(cand.sets.indices, q);
                let j = choose|j: int| 0 <= j < sq.len() && #[trigger] sq[j] == q;
                assert(!same_band(sq[j], f, ww));
            }
        }
        false
    }

    /// Whether only the fin's own line lies in the fin's band of boxes (its floor, for rows):
    /// at most one pair of a line of the fish and a line with the fin shares a band.
    fn is_not_overlapped(fish: &FinCand<V>, size: &SudokuSize) -> (r: bool)
        ensures
            r == not_overlapped(*fish, size.spec_size()),
    {
        let lhs = fish.sets.primary_iter();
        let rhs = fish.extra.primary_iter();
        let w = size.size();
        proof { size.lemma_sizes(); }
        let ghost ww = w as nat;
        let ghost lx = asc_from(fish.sets.primary.0.spec_nat(), 1, V::width());
        let ghost ry = asc_from(fish.extra.primary.0.spec_nat(), 1, V::width());
        let mut once = false;
        for a in 0..lhs.len()
            invariant
                w >= 2,
                w == size.spec_size(),
                ww == w,
                lx == asc_from(fish.sets.primary.0.spec_nat(), 1, V::width()),
                ry == asc_from(fish.extra.primary.0.spec_nat(), 1, V::width()),
                lhs.len() == lx.len(),
                rhs.len() == ry.len(),
                forall|k: int| 0 <= k < lhs.len() ==> #[trigger] lhs[k] + 1 == lx[k],
                forall|k: int| 0 <= k < rhs.len() ==> #[trigger] rhs[k] + 1 == ry[k],
                once == exists|x: nat, y: nat| #[trigger] band_pair(fish.sets.primary@, fish.extra.primary@, x, y, ww) && seen(lx, ry, a as int, 0, x, y),
                forall|x1: nat, y1: nat, x2: nat, y2: nat| #[trigger] band_pair(fish.sets.primary@, fish.extra.primary@, x1, y1, ww) && #[trigger] band_pair(fish.sets.primary@, fish.extra.primary@, x2, y2, ww)
                    && seen(lx, ry, a as int, 0, x1, y1) && seen(lx, ry, a as int, 0, x2, y2) ==> x1 == x2 && y1 == y2,
        {
            for b in 0..rhs.len()
                invariant
                    w >= 2,
                    w == size.spec_size(),
                    ww == w,
                    a < lhs.len(),
                    lx == asc_from(fish.sets.primary.0.spec_nat(), 1, V::width()),
                    ry == asc_from(fish.extra.primary.0.spec_nat(), 1, V::width()),
                    lhs.len() == lx.len(),
                    rhs.len() == ry.len(),
                    forall|k: int| 0 <= k < lhs.len() ==> #[trigger] lhs[k] + 1 == lx[k],
                    forall|k: int| 0 <= k < rhs.len() ==> #[trigger] rhs[k] + 1 == ry[k],
                    once == exists|x: nat, y: nat| #[trigger] band_pair(fish.sets.primary@, fish.extra.primary@, x, y, ww) && seen(lx, ry, a as int, b as int, x, y),
                    forall|x1: nat, y1: nat, x2: nat, y2: nat| #[trigger] band_pair(fish.sets.primary@, fish.extra.primary@, x1, y1, ww) && #[trigger] band_pair(fish.sets.primary@, fish.extra.primary@, x2, y2, ww)
                        && seen(lx, ry, a as int, b as int, x1, y1) && seen(lx, ry, a as int, b as int, x2, y2) ==> x1 == x2 && y1 == y2,
            {
                let ghost x = lx[a as int];
                let ghost y = ry[b as int];
                proof {
                    lemma_listed_in(fish.sets.primary, a as int);
                    lemma_listed_in(fish.extra.primary, b as int);
                    assert(x - 1 == lhs[a as int] && y - 1 == rhs[b as int]);
                    assert forall|x1: nat, y1: nat| seen(lx, ry, a as int, b as int + 1, x1, y1)
                        <==> (seen(lx, ry, a as int, b as int, x1, y1) || (x1 == x && y1 == y)) by {
                        if x1 == x && y1 == y {
                            assert(ry[b as int] == y1);
                        }
                        if a < lx.len() && x1 == lx[a as int] && exists|j: int| 0 <= j < b + 1 && #[trigger] ry[j] == y1 {
                            let j = choose|j: int| 0 <= j < b + 1 && #[trigger] ry[j] == y1;
                            if j < b {
                                assert(seen(lx, ry, a as int, b as int, x1, y1));
                            }
                        }
                    }
                    assert forall|x1: nat, y1: nat| seen(lx, ry, a as int, b as int, x1, y1) implies x1 != x || y1 != y by {
                        if exists|k: int| 0 <= k < a && #[trigger] lx[k] == x1 {
                            let k = choose|k: int| 0 <= k < a && #[trigger] lx[k] == x1;
                            crate::bitset::bitsetiter::lemma_asc_from_increasing(fish.sets.primary.0.spec_nat(), 1, V::width(), k, a as int);
                        } else {
                            let j = choose|j: int| 0 <= j < b && #[trigger] ry[j] == y1;
                            crate::bitset::bitsetiter::lemma_asc_from_increasing(fish.extra.primary.0.spec_nat(), 1, V::width(), j, b as int);
                        }
                    }
                }
                if rhs[b] / w == lhs[a] / w {
                    proof {
                        assert(band_pair(fish.sets.primary@, fish.extra.primary@, x, y, ww));
                    }
                    if once {
                        proof {
                            let (x0, y0) = choose|x0: nat, y0: nat| #[trigger] band_pair(fish.sets.primary@, fish.extra.primary@, x0, y0, ww) && seen(lx, ry, a as int, b as int, x0, y0);
                            assert(x0 != x || y0 != y);
                            assert(band_pair(fish.sets.primary@, fish.extra.primary@, x0, y0, ww) && band_pair(fish.sets.primary@, fish.extra.primary@, x, y, ww));
                        }
                        return false;
                    }
                    once = true;
                    proof {
                        assert(band_pair(fish.sets.primary@, fish.extra.primary@, x, y, ww) && seen(lx, ry, a as int, b as int + 1, x, y));
                    }
                } else {
                    proof {
                        assert(!band_pair(fish.sets.primary@, fish.extra.primary@, x, y, ww));
                    }
                }
            }
            proof {
                assert forall|x1: nat, y1: nat| #[trigger] band_pair(fish.sets.primary@, fish.extra.primary@, x1, y1, ww)
                    implies (seen(lx, ry, a as int, rhs.len() as int, x1, y1) <==> seen(lx, ry, a as int + 1, 0, x1, y1)) by {
                    if seen(lx, ry, a as int + 1, 0, x1, y1) {
                        let k = choose|k: int| 0 <= k < a + 1 && #[trigger] lx[k] == x1;
                        if k == a {
                            lemma_listed(fish.extra.primary, y1);
                            let j = choose|j: int| 0 <= j < ry.len() && #[trigger] ry[j] == y1;
                            assert(seen(lx, ry, a as int, rhs.len() as int, x1, y1));
                        } else {
                            assert(seen(lx, ry, a as int, rhs.len() as int, x1, y1));
                        }
                    }
                    if seen(lx, ry, a as int, rhs.len() as int, x1, y1) {
                        if x1 == lx[a as int] {
                            assert(lx[a as int] == x1);
                        }
                    }
                }
            }
        }
        proof {
            assert forall|x1: nat, y1: nat| #[trigger] band_pair(fish.sets.primary@, fish.extra.primary@, x1, y1, ww) implies seen(lx, ry, lhs.len() as int, 0, x1, y1) by {
                lemma_listed(fish.sets.primary, x1);
            }
        }
        true
    }

    /// Extends the candidate (lines `l`, `current_size` of them) with lines after
    /// `current_ind`, each taken or passed over in turn; the first finned fish found.
    fn finned_combo_rec(
        tuples: &FishTupleCtr<V>,
        size: usize,
        current_val: FinCand<V>,
        current_size: usize,
        current_ind: Option<usize>,
        sudoku_size: &SudokuSize,
        Ghost(l): Ghost<Set<int>>,
    ) -> (r: Option<FinCand<V>>)
        requires
            tuples.wf(),
            tuples.array.len() == sudoku_size.spec_house(),
            current_ind matches Some(c) ==> c < tuples.array.len(),
            forall|v: int| #[trigger] l.contains(v) ==> 0 <= v < (match current_ind { None => 0int, Some(c) => c + 1 }),
            cand_ok(tuples.array@, current_val, l),
            popcnt(current_val.extra.primary.0.spec_nat()) == current_size,
            l.finite(),
            l.len() == current_size,
            current_size <= size,
            forall|v: int| #[trigger] l.contains(v) ==> tuples.array[v].indices@ != Set::<nat>::empty(),
        ensures
            r matches Some(f) ==> fin_found(tuples.array@, f, size as nat),
            r matches Some(f) ==> exists|s: Set<int>| finned_choice(tuples.array@, s, size as nat, sudoku_size.spec_size())
                && #[trigger] cand_of(tuples.array@, f, s),
            forall|s: Set<int>| #[trigger] finned_choice(tuples.array@, s, size as nat, sudoku_size.spec_size()) && l.subset_of(s)
                && (forall|v: int| s.contains(v) && !l.contains(v) ==> v >= next_pos(current_ind)) ==> r is Some,
        decreases tuples.array.len() - (match current_ind { None => 0int, Some(c) => c + 1 }),
    {
        let ghost a = tuples.array@;
        let ghost start: int = match current_ind { None => 0int, Some(c) => c + 1 };
        proof {
            V::lemma_range(current_val.extra.primary.0);
            crate::bitset::traits::lemma_popcnt_bound(current_val.extra.primary.0.spec_nat(), V::width());
        }
        let ghost w = sudoku_size.spec_size();
        if current_size == size {
            proof {
                assert(current_val.sets.indices@ =~= twice_set(a, l));
                assert(current_val.extra.indices@ =~= place_set(a, l));
                crate::bitset::bitset::lemma_values_len(current_val.sets.indices);
                crate::bitset::bitset::lemma_values_len(current_val.extra.indices);
                assert forall|s: Set<int>| #[trigger] finned_choice(a, s, size as nat, w) && l.subset_of(s) implies s == l by {
                    lemma_subset_same_len(l, s);
                }
            }
            if current_val.sets.icount() as usize == size && current_val.extra.icount() as usize == size + 1 {
                let mut newextra = current_val.extra.merge_disjoint_ind_only(&current_val.sets);
                let theprimary = tuples.primary_from_ind(newextra.indices).intersect(newextra.primary);
                let count = theprimary.count_u32();
                newextra.primary = theprimary;
                newextra.pri_count = count;
                let fin = FinCand { sets: current_val.sets, extra: newextra };
                proof {
                    let sets = current_val.sets;
                    let extra = current_val.extra;
                    assert(sets.primary@ =~= line_set(l));
                    assert(newextra.indices@ =~= fin_set(a, l));
                    assert forall|x: nat| #[trigger] theprimary@.contains(x) <==> fin_lines(a, l).contains(x) by {
                        if theprimary@.contains(x) {
                            let v = choose|v: int| 0 <= v < a.len()
                                && !(#[trigger] a[v].indices@).disjoint(newextra.indices@) && a[v].primary@.contains(x);
                            assert(a[v].primary@ == Set::<nat>::empty().insert((v + 1) as nat));
                            let p = choose|p: nat| a[v].indices@.contains(p) && newextra.indices@.contains(p);
                            assert(fin_set(a, l).contains(p) && a[x - 1].indices@.contains(p));
                        }
                        if fin_lines(a, l).contains(x) {
                            let p = choose|p: nat| fin_set(a, l).contains(p) && #[trigger] a[x - 1].indices@.contains(p);
                            let v = x - 1;
                            assert(a[v].primary@ == Set::<nat>::empty().insert((v + 1) as nat));
                            assert(!a[v].indices@.disjoint(newextra.indices@));
                            assert(extra.primary@.contains(x));
                        }
                    }
                    assert(theprimary@ =~= fin_lines(a, l));
                    assert(cand_of(a, fin, l));
                    assert(twice_set(a, l).subset_of(place_set(a, l)));
                    assert(place_set(a, l) =~= twice_set(a, l) + fin_set(a, l));
                    vstd::set_lib::lemma_set_disjoint_lens(twice_set(a, l), fin_set(a, l));
                    crate::bitset::bitset::lemma_values_len(newextra.indices);
                    assert(newextra.ind_count == 1);
                }
                if Self::is_extra_covered(&fin, sudoku_size) && Self::is_not_overlapped(&fin, sudoku_size) {
                    proof {
                        let sets = current_val.sets;
                        let extra = current_val.extra;
                        crate::bitset::bitset::lemma_view_inj(sets.primary, extra.primary);
                        assert forall|p: nat| #[trigger] sets.indices@.contains(p) implies exists|v: int| 0 <= v < a.len() && #[trigger] a[v].indices@.contains(p) by {
                            assert(extra.indices@.contains(p));
                            assert(fish_places(a, l, p));
                        }
                        assert forall|x: nat, p: nat| sets.primary@.contains(x) && #[trigger] a[x - 1].indices@.contains(p)
                            implies sets.indices@.contains(p) || newextra.indices@.contains(p) by {
                            assert(l.contains(x - 1));
                            assert(fish_places(a, l, p));
                        }
                        assert forall|x: nat| #[trigger] newextra.primary@.contains(x) implies sets.primary@.contains(x)
                            && exists|p: nat| newextra.indices@.contains(p) && a[x - 1].indices@.contains(p) by {
                            let v = choose|v: int| 0 <= v < a.len()
                                && !(#[trigger] a[v].indices@).disjoint(newextra.indices@) && a[v].primary@.contains(x);
                            assert(a[v].primary@ == Set::<nat>::empty().insert((v + 1) as nat));
                            assert(x == v + 1);
                            let p = choose|p: nat| a[v].indices@.contains(p) && newextra.indices@.contains(p);
                            assert(newextra.indices@.contains(p) && a[x - 1].indices@.contains(p));
                        }
                        lemma_first_value(newextra.indices);
                        let fc = asc_from(newextra.indices.0.spec_nat(), 1, V::width())[0];
                        assert(newextra.indices@.contains(fc));
                        assert(fish_places(a, l, fc));
                        let v = choose|v: int| #![trigger a[v].indices@.contains(fc)] l.contains(v) && 0 <= v < a.len() && a[v].indices@.contains(fc);
                        assert(a[v].primary@.contains((v + 1) as nat));
                        assert(!a[v].indices@.disjoint(newextra.indices@));
                        assert(extra.primary@.contains((v + 1) as nat));
                        assert(theprimary@.contains((v + 1) as nat));
                        lemma_holds_counts(theprimary, (v + 1) as nat);
                        assert(finned_choice(a, l, size as nat, w));
                    }
                    let res = Some(fin);
                    proof {
                        let f = res->Some_0;
                        assert(f == fin);
                        assert(finned_choice(tuples.array@, l, size as nat, sudoku_size.spec_size()) && cand_of(tuples.array@, f, l));
                    }
                    return res;
                }
            }
            return None;
        }
        let house_size = sudoku_size.house_size();
        let mut ind: usize = match current_ind {
            None => 0,
            Some(v) => v + 1,
        };
        if ind == house_size {
            proof {
                lemma_no_choice_left(a, l, size as nat, w, start);
            }
            return None;
        }
        while tuples.array[ind].icount() == 0
            invariant
                start <= ind < house_size,
                tuples.array.len() == house_size,
                tuples.wf(),
                a == tuples.array@,
                forall|v: int| start <= v < ind ==> (#[trigger] a[v]).indices@ == Set::<nat>::empty(),
                l.finite(),
                l.len() == current_size,
                current_size < size,
                start == next_pos(current_ind),
                w == sudoku_size.spec_size(),
            decreases house_size - ind,
        {
            proof {
                crate::bitset::bitset::lemma_count_zero_empty(a[ind as int].indices);
            }
            ind = ind + 1;
            if ind == house_size {
                proof {
                    lemma_no_choice_left(a, l, size as nat, w, start);
                }
                return None;
            }
        }
        proof {
            crate::bitset::bitset::lemma_values_len(a[ind as int].indices);
            assert(a[ind as int].indices@ != Set::<nat>::empty());
            assert(!l.contains(ind as int));
        }
        let twice = current_val.extra.add_primary_intersect_indicies(&tuples.array[ind]);
        let newfin = FinCand { sets: current_val.sets.merge(&twice), extra: current_val.extra.merge(&tuples.array[ind]) };
        let ghost l2 = l.insert(ind as int);
        proof {
            let extra = current_val.extra;
            assert(a[ind as int].primary@ == Set::<nat>::empty().insert((ind + 1) as nat));
            assert forall|x: nat| #[trigger] newfin.extra.primary@.contains(x) <==> (x >= 1 && l2.contains(x - 1)) by {
                assert(extra.primary@.contains(x) <==> (x >= 1 && l.contains(x - 1)));
            }
            assert(newfin.sets.primary@ =~= newfin.extra.primary@);
            assert(newfin.sets.indices@.subset_of(newfin.extra.indices@));
            assert forall|p: nat| #[trigger] newfin.extra.indices@.contains(p) <==> fish_places(a, l2, p) by {
                assert(extra.indices@.contains(p) <==> fish_places(a, l, p));
                if fish_places(a, l2, p) {
                    let v = choose|v: int| #![trigger a[v].indices@.contains(p)] l2.contains(v) && 0 <= v < a.len() && a[v].indices@.contains(p);
                    if v != ind {
                        assert(l.contains(v) && a[v].indices@.contains(p));
                    }
                }
                if fish_places(a, l, p) {
                    let v = choose|v: int| #![trigger a[v].indices@.contains(p)] l.contains(v) && 0 <= v < a.len() && a[v].indices@.contains(p);
                    assert(l2.contains(v) && a[v].indices@.contains(p));
                }
                if a[ind as int].indices@.contains(p) {
                    assert(l2.contains(ind as int));
                }
            }
            assert(!extra.primary@.contains((ind + 1) as nat));
            assert(newfin.extra.primary@ =~= extra.primary@.insert((ind + 1) as nat));
            lemma_popcnt_insert_value(extra.primary, newfin.extra.primary, (ind + 1) as nat);
        }
        let left = Self::finned_combo_rec(tuples, size, newfin, current_size + 1, Some(ind), sudoku_size, Ghost(l2));
        if let Some(t) = left {
            return Some(t);
        }
        let right = Self::finned_combo_rec(tuples, size, current_val, current_size, Some(ind), sudoku_size, Ghost(l));
        if let Some(t) = right {
            return Some(t);
        }
        proof {
            assert forall|s: Set<int>| #[trigger] finned_choice(a, s, size as nat, w) && l.subset_of(s)
                && (forall|v: int| s.contains(v) && !l.contains(v) ==> v >= next_pos(current_ind)) implies false by {
                assert forall|v: int| s.contains(v) && !l.contains(v) && v != ind implies v >= ind + 1 by {
                    if v < ind {
                        assert(a[v].indices@ == Set::<nat>::empty());
                    }
                }
                if s.contains(ind as int) {
                    assert(l2.subset_of(s));
                }
            }
        }
        None
    }
}

} // verus!
