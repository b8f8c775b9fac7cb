use vstd::prelude::*;
use crate::human_calcs::TechStruct;
use core::marker::PhantomData;
use crate::bitset::traits::{BitSetInt, popcnt};
use crate::bitset::bit::Bit;
use crate::bitset::bitset::BitSet;
use crate::bitset::bitsetiter::{asc_from, lemma_asc_from_contains, lemma_asc_from_increasing};
use crate::grid::gridcoord::{HouseCoord, GridCoord};
use crate::grid::grid::house_cells;
use crate::grid::house::House;
use crate::grid::types::{Row, Col, GridBox, cell_row, cell_col, cell_box};
use crate::hint::distinct_records;
use crate::human_calcs::fish::fishtuple::{line_cell, may_hold, lemma_line_cell, lemma_line_cell_inj, lemma_popcnt_insert_value};
use crate::human_calcs::hints::sound_hint;
use crate::human_calcs::technique::Technique;
use crate::human_calcs::tuple_ctr::{ctr_seen, Ctr, TupleCtr, counts, places_of, chosen, hidden_tuple, tuple_places, next_pos, lemma_subset_same_len};
use crate::move_change::{Move, IndexValuePair};
use crate::sudoku::access::unique_grid;
use crate::human_calcs::kept::{keeps_solution, sol_sound, gval, house_ok, lemma_sol_possible, lemma_sol_differs, lemma_onto};
use crate::sudoku::sudoku::Sudoku;
use crate::sudoku::state::cell_ok;
use crate::sudokusize::SudokuSize;

verus! {

/// Lines `c.values` (line `i` held as `i + 1`) and the places `c.indices` (place `s` held as
/// `s + 1`) where value `val` may stand in one of them; the lines are rows when `row`.
pub open spec fn fish_lines<V: BitSetInt>(puz: Sudoku<V>, row: bool, val: nat, c: Ctr<V>) -> bool {
    let h = puz.grid.size.spec_house();
    &&& forall|x: nat| #[trigger] c.values@.contains(x) ==> 1 <= x <= h
    &&& forall|p: nat| #[trigger] c.indices@.contains(p) <==> (1 <= p <= h
        && exists|x: nat| #![trigger may_hold(puz, row, val, x, p)] c.values@.contains(x) && may_hold(puz, row, val, x, p))
}

/// Value `val` may stand somewhere in each line of `c`.
#[verifier::opaque]
pub open spec fn fish_seen<V: BitSetInt>(puz: Sudoku<V>, row: bool, val: nat, c: Ctr<V>) -> bool {
    forall|x: nat| #[trigger] c.values@.contains(x) ==> exists|p: nat| 1 <= p <= puz.grid.size.spec_house()
        && #[trigger] may_hold(puz, row, val, x, p)
}

/// The move is a fish of `n` lines: value `val` may stand in `n` lines only at `n` places,
/// and the move takes `val` out of every cell at those places in the other lines that may
/// hold it, and names each cell of the fish that may hold it.
pub open spec fn basic_fish_move<V: BitSetInt>(puz: Sudoku<V>, row: bool, n: nat, m: Move<V>) -> bool {
    fish_records(puz, row, n, m.used_to_solve@, m.removed_potentials@)
}

/// The records of a fish move of `n` lines: `used` names the cells of the fish that may hold
/// its value, `removed` takes the value out of the cells at its places in the other lines.
#[verifier::opaque]
pub open spec fn fish_records<V: BitSetInt>(puz: Sudoku<V>, row: bool, n: nat,
    used: Seq<IndexValuePair<BitSet<V>>>, removed: Seq<IndexValuePair<BitSet<V>>>) -> bool {
    exists|val: nat, c: Ctr<V>| #![trigger fish_lines(puz, row, val, c)]
        fish_lines(puz, row, val, c) && fish_seen(puz, row, val, c) && c.wf() && c.ind_count == n
        && popcnt(c.values.0.spec_nat()) == n && fish_records_for(puz, row, val, c, used, removed)
}

/// The records of the fish on the lines `c.values` and places `c.indices` for value `val`.
pub open spec fn fish_records_for<V: BitSetInt>(puz: Sudoku<V>, row: bool, val: nat, c: Ctr<V>,
    used: Seq<IndexValuePair<BitSet<V>>>, removed: Seq<IndexValuePair<BitSet<V>>>) -> bool {
    &&& removed_sound(puz, row, val, c, removed)
    &&& removed_complete(puz, row, val, c, removed)
    &&& used_sound(puz, row, val, c, used)
    &&& used_complete(puz, row, val, c, used)
}

/// Each record of `removed` takes `val` out of a cell at a place of the fish in another line.
pub open spec fn removed_sound<V: BitSetInt>(puz: Sudoku<V>, row: bool, val: nat, c: Ctr<V>,
    removed: Seq<IndexValuePair<BitSet<V>>>) -> bool {
    let h = puz.grid.size.spec_house();
    forall|k: int| 0 <= k < removed.len() ==> {
        let p = #[trigger] removed[k];
        &&& p.value@ == Set::<nat>::empty().insert(val)
        &&& exists|x: nat, q: nat| 1 <= x <= h && 1 <= q <= h && !c.values@.contains(x) && c.indices@.contains(q)
            && p.index.inner_index == line_cell(puz.grid.size, row, (x - 1) as nat, (q - 1) as nat)
    }
}

/// Each cell at a place of the fish in another line that may hold `val` has a record in `removed`.
pub open spec fn removed_complete<V: BitSetInt>(puz: Sudoku<V>, row: bool, val: nat, c: Ctr<V>,
    removed: Seq<IndexValuePair<BitSet<V>>>) -> bool {
    forall|x: nat, q: nat| 1 <= x <= puz.grid.size.spec_house() && !c.values@.contains(x) && c.indices@.contains(q)
        && #[trigger] may_hold(puz, row, val, x, q) ==> exists|k: int| 0 <= k < removed.len()
            && (#[trigger] removed[k]).index.inner_index == line_cell(puz.grid.size, row, (x - 1) as nat, (q - 1) as nat)
}

/// Each record of `used` names, with `val`, a cell of the fish that may hold it.
pub open spec fn used_sound<V: BitSetInt>(puz: Sudoku<V>, row: bool, val: nat, c: Ctr<V>,
    used: Seq<IndexValuePair<BitSet<V>>>) -> bool {
    forall|k: int| 0 <= k < used.len() ==> {
        let p = #[trigger] used[k];
        &&& p.value@ == Set::<nat>::empty().insert(val)
        &&& exists|x: nat, q: nat| c.values@.contains(x) && c.indices@.contains(q) && may_hold(puz, row, val, x, q)
            && p.index.inner_index == line_cell(puz.grid.size, row, (x - 1) as nat, (q - 1) as nat)
    }
}

/// Each cell of the fish that may hold `val` has a record in `used`.
pub open spec fn used_complete<V: BitSetInt>(puz: Sudoku<V>, row: bool, val: nat, c: Ctr<V>,
    used: Seq<IndexValuePair<BitSet<V>>>) -> bool {
    forall|x: nat, q: nat| c.values@.contains(x) && c.indices@.contains(q)
        && #[trigger] may_hold(puz, row, val, x, q) ==> exists|k: int| 0 <= k < used.len()
            && (#[trigger] used[k]).index.inner_index == line_cell(puz.grid.size, row, (x - 1) as nat, (q - 1) as nat)
}

/// The move is the fish of `n` lines for value `val` on the lines and places of `c`.
#[verifier::opaque]
pub open spec fn fish_move_for<V: BitSetInt>(puz: Sudoku<V>, row: bool, n: nat, val: nat, c: Ctr<V>,
    used: Seq<IndexValuePair<BitSet<V>>>, removed: Seq<IndexValuePair<BitSet<V>>>) -> bool {
    fish_lines(puz, row, val, c) && fish_seen(puz, row, val, c) && c.wf() && c.ind_count == n
        && popcnt(c.values.0.spec_nat()) == n && fish_records_for(puz, row, val, c, used, removed)
}

/// Records of the fish on the lines and places of `c` are records of a fish move.
proof fn lemma_fish_records_intro<V: BitSetInt>(puz: Sudoku<V>, row: bool, val: nat, n: nat, c: Ctr<V>,
    used: Seq<IndexValuePair<BitSet<V>>>, removed: Seq<IndexValuePair<BitSet<V>>>)
    requires
        fish_lines(puz, row, val, c),
        fish_seen(puz, row, val, c),
        c.wf(),
        c.ind_count == n,
        popcnt(c.values.0.spec_nat()) == n,
        fish_records_for(puz, row, val, c, used, removed),
    ensures
        fish_records(puz, row, n, used, removed),
{
    reveal(fish_records);
}

/// Each line of a choice of counters that each have a place can hold the value somewhere.
proof fn lemma_fish_seen<V: BitSetInt>(puz: Sudoku<V>, row: bool, val: nat, a: Seq<Ctr<V>>, c: Ctr<V>)
    requires
        a.len() == puz.grid.size.spec_house(),
        forall|i: int, p: nat| 0 <= i < a.len() ==> (#[trigger] a[i].indices@.contains(p)
            <==> (1 <= p <= a.len() && may_hold(puz, row, val, (i + 1) as nat, p))),
        forall|x: nat| #[trigger] c.values@.contains(x) ==> 1 <= x <= a.len(),
        ctr_seen(a, c),
    ensures
        fish_seen(puz, row, val, c),
{
    reveal(fish_seen);
    assert forall|x: nat| #[trigger] c.values@.contains(x) implies exists|p: nat| 1 <= p <= puz.grid.size.spec_house()
        && #[trigger] may_hold(puz, row, val, x, p) by {
        let w = x - 1;
        assert(chosen(c, a.len() as int).contains(w));
        assert(exists|p: nat| a[w].indices@.contains(p)) by {
            if !(exists|p: nat| a[w].indices@.contains(p)) {
                assert(a[w].indices@ =~= Set::<nat>::empty());
            }
        }
        let p = choose|p: nat| a[w].indices@.contains(p);
        assert(may_hold(puz, row, val, x, p));
    }
}

/// Every place of the fish, in the list `secs` (from zero) of its places, reaches `removed`.
proof fn lemma_removed_cover<V: BitSetInt>(puz: Sudoku<V>, row: bool, v: nat, item: Ctr<V>, secs: Seq<usize>,
    removed: Seq<IndexValuePair<BitSet<V>>>)
    requires
        puz.grid.size.spec_house() <= V::width(),
        fish_lines(puz, row, v, item),
        secs.len() == asc_from(item.indices.0.spec_nat(), 1, V::width()).len(),
        forall|k: int| 0 <= k < secs.len() ==> #[trigger] secs[k] + 1 == asc_from(item.indices.0.spec_nat(), 1, V::width())[k],
        forall|x: nat, b2: int| #![trigger secs[b2], may_hold(puz, row, v, x, (secs[b2] + 1) as nat)]
            1 <= x <= puz.grid.size.spec_house() && 0 <= b2 < secs.len() && !item.values@.contains(x)
            && may_hold(puz, row, v, x, (secs[b2] + 1) as nat)
            ==> exists|k: int| 0 <= k < removed.len()
                && (#[trigger] removed[k]).index.inner_index == line_cell(puz.grid.size, row, (x - 1) as nat, secs[b2] as nat),
    ensures
        removed_complete(puz, row, v, item, removed),
{
    let h = puz.grid.size.spec_house();
    assert forall|x: nat, q: nat| 1 <= x <= h && !item.values@.contains(x) && item.indices@.contains(q)
        && #[trigger] may_hold(puz, row, v, x, q) implies exists|k: int| 0 <= k < removed.len()
            && (#[trigger] removed[k]).index.inner_index == line_cell(puz.grid.size, row, (x - 1) as nat, (q - 1) as nat) by {
        assert(1 <= q <= h);
        let b2 = lemma_asc_covers(item.indices, q);
        assert(secs[b2] + 1 == q);
        assert(may_hold(puz, row, v, x, (secs[b2] + 1) as nat));
    }
}

/// Every cell of the fish that may hold its value, in the lists `prims` of its lines and
/// `secs` (from zero) of its places, reaches `used`.
proof fn lemma_used_cover<V: BitSetInt>(puz: Sudoku<V>, row: bool, v: nat, item: Ctr<V>, prims: Seq<usize>,
    secs: Seq<usize>, used: Seq<IndexValuePair<BitSet<V>>>)
    requires
        puz.grid.size.spec_house() <= V::width(),
        fish_lines(puz, row, v, item),
        prims.len() == asc_from(item.values.0.spec_nat(), 1, V::width()).len(),
        forall|k: int| 0 <= k < prims.len() ==> #[trigger] prims[k] == asc_from(item.values.0.spec_nat(), 1, V::width())[k],
        secs.len() == asc_from(item.indices.0.spec_nat(), 1, V::width()).len(),
        forall|k: int| 0 <= k < secs.len() ==> #[trigger] secs[k] + 1 == asc_from(item.indices.0.spec_nat(), 1, V::width())[k],
        forall|a2: int, b2: int| #![trigger prims[a2], secs[b2]] 0 <= a2 < prims.len() && 0 <= b2 < secs.len()
            && may_hold(puz, row, v, prims[a2] as nat, (secs[b2] + 1) as nat)
            ==> exists|k: int| 0 <= k < used.len()
                && (#[trigger] used[k]).index.inner_index == line_cell(puz.grid.size, row, (prims[a2] - 1) as nat, secs[b2] as nat),
    ensures
        used_complete(puz, row, v, item, used),
{
    let h = puz.grid.size.spec_house();
    assert forall|x: nat, q: nat| item.values@.contains(x) && item.indices@.contains(q)
        && #[trigger] may_hold(puz, row, v, x, q) implies exists|k: int| 0 <= k < used.len()
            && (#[trigger] used[k]).index.inner_index == line_cell(puz.grid.size, row, (x - 1) as nat, (q - 1) as nat) by {
        assert(1 <= q <= h);
        let b2 = lemma_asc_covers(item.indices, q);
        assert(secs[b2] + 1 == q);
        assert(1 <= x <= h);
        let a2 = lemma_asc_covers(item.values, x);
        assert(prims[a2] == x);
        assert(may_hold(puz, row, v, prims[a2] as nat, (secs[b2] + 1) as nat));
    }
}

/// Each value of a bit set stands somewhere in the ascending list of its values.
proof fn lemma_asc_covers<V: BitSetInt>(b: BitSet<V>, x: nat) -> (k: int)
    requires
        b@.contains(x),
        1 <= x <= V::width(),
    ensures
        0 <= k < asc_from(b.0.spec_nat(), 1, V::width()).len(),
        asc_from(b.0.spec_nat(), 1, V::width())[k] == x,
{
    assert(crate::bitset::bitset::values_of(b.0.spec_nat()).contains(x));
    lemma_asc_from_contains(b.0.spec_nat(), 1, V::width(), x);
    let sq = asc_from(b.0.spec_nat(), 1, V::width());
    assert(sq.contains(x));
    choose|k: int| 0 <= k < sq.len() && sq[k] == x
}

/// The records that the search of a fish makes: each cell of the fish that may hold the
/// value, and each cell at its places in the other lines that may hold it.
proof fn lemma_fish_records<V: BitSetInt>(puz: Sudoku<V>, row: bool, v: nat, n: nat, item: Ctr<V>,
    prims: Seq<usize>, secs: Seq<usize>, used: Seq<IndexValuePair<BitSet<V>>>, removed: Seq<IndexValuePair<BitSet<V>>>)
    requires
        puz.grid.size.spec_house() <= V::width(),
        fish_lines(puz, row, v, item),
        fish_seen(puz, row, v, item),
        item.wf(),
        item.ind_count == n,
        popcnt(item.values.0.spec_nat()) == n,
        prims.len() == asc_from(item.values.0.spec_nat(), 1, V::width()).len(),
        forall|k: int| 0 <= k < prims.len() ==> #[trigger] prims[k] == asc_from(item.values.0.spec_nat(), 1, V::width())[k],
        secs.len() == asc_from(item.indices.0.spec_nat(), 1, V::width()).len(),
        forall|k: int| 0 <= k < secs.len() ==> #[trigger] secs[k] + 1 == asc_from(item.indices.0.spec_nat(), 1, V::width())[k],
        removed_sound(puz, row, v, item, removed),
        forall|x: nat, b2: int| #![trigger secs[b2], may_hold(puz, row, v, x, (secs[b2] + 1) as nat)]
            1 <= x <= puz.grid.size.spec_house() && 0 <= b2 < secs.len() && !item.values@.contains(x)
            && may_hold(puz, row, v, x, (secs[b2] + 1) as nat)
            ==> exists|k: int| 0 <= k < removed.len()
                && (#[trigger] removed[k]).index.inner_index == line_cell(puz.grid.size, row, (x - 1) as nat, secs[b2] as nat),
        used_sound(puz, row, v, item, used),
        forall|a2: int, b2: int| #![trigger prims[a2], secs[b2]] 0 <= a2 < prims.len() && 0 <= b2 < secs.len()
            && may_hold(puz, row, v, prims[a2] as nat, (secs[b2] + 1) as nat)
            ==> exists|k: int| 0 <= k < used.len()
                && (#[trigger] used[k]).index.inner_index == line_cell(puz.grid.size, row, (prims[a2] - 1) as nat, secs[b2] as nat),
    ensures
        fish_records(puz, row, n, used, removed),
        fish_move_for(puz, row, n, v, item, used, removed),
{
    lemma_removed_cover(puz, row, v, item, secs, removed);
    lemma_used_cover(puz, row, v, item, prims, secs, used);
    assert(fish_records_for(puz, row, v, item, used, removed));
    lemma_fish_records_intro(puz, row, v, n, item, used, removed);
    lemma_fish_move_for(puz, row, n, v, item, used, removed);
}

/// Records of the fish on the lines and places of `c` are the records of its move.
proof fn lemma_fish_move_for<V: BitSetInt>(puz: Sudoku<V>, row: bool, n: nat, val: nat, c: Ctr<V>,
    used: Seq<IndexValuePair<BitSet<V>>>, removed: Seq<IndexValuePair<BitSet<V>>>)
    requires
        fish_lines(puz, row, val, c),
        fish_seen(puz, row, val, c),
        c.wf(),
        c.ind_count == n,
        popcnt(c.values.0.spec_nat()) == n,
        fish_records_for(puz, row, val, c, used, removed),
    ensures
        fish_move_for(puz, row, n, val, c, used, removed),
{
    reveal(fish_move_for);
}

/// The counters at positions `s` make a fish that the search reports: `n` positions, each
/// with some place, and `n` places among them in all.
pub open spec fn fish_set<T: BitSetInt>(a: Seq<Ctr<T>>, s: Set<int>, n: nat) -> bool {
    &&& s.finite()
    &&& s.len() == n
    &&& forall|v: int| #[trigger] s.contains(v) ==> 0 <= v < a.len() && a[v].indices@ != Set::<nat>::empty()
    &&& tuple_places(a, s, false).len() == n
}

/// The places (from one) where value `val` may stand in one of the lines (from zero) of `s`.
pub open spec fn line_places<V: BitSetInt>(puz: Sudoku<V>, row: bool, val: nat, s: Set<int>) -> Set<nat> {
    Set::new(|p: nat| 1 <= p <= puz.grid.size.spec_house()
        && exists|x: int| #[trigger] s.contains(x) && may_hold(puz, row, val, (x + 1) as nat, p))
}

/// The lines (from zero) of `s`, rows when `row`, make a fish of `n` lines for value `val`:
/// `n` lines, in each of which `val` may stand somewhere, and `n` places for it in all.
pub open spec fn line_fish<V: BitSetInt>(puz: Sudoku<V>, row: bool, val: nat, s: Set<int>, n: nat) -> bool {
    let h = puz.grid.size.spec_house();
    &&& s.finite()
    &&& s.len() == n
    &&& forall|x: int| #[trigger] s.contains(x) ==> 0 <= x < h
        && exists|p: nat| 1 <= p <= h && #[trigger] may_hold(puz, row, val, (x + 1) as nat, p)
    &&& line_places(puz, row, val, s).len() == n
}

/// The fish on the lines `s` takes nothing: no other line may hold `val` at one of its places.
pub open spec fn fish_takes_nothing<V: BitSetInt>(puz: Sudoku<V>, row: bool, val: nat, s: Set<int>) -> bool {
    forall|x: int, p: nat| #![trigger s.contains(x), line_places(puz, row, val, s).contains(p)]
        0 <= x < puz.grid.size.spec_house() && !s.contains(x) && line_places(puz, row, val, s).contains(p)
        ==> !may_hold(puz, row, val, (x + 1) as nat, p)
}

/// No line (from one) outside the lines of `c` may hold `val` at one of the places of `c`.
pub open spec fn ctr_takes_nothing<V: BitSetInt>(puz: Sudoku<V>, row: bool, val: nat, c: Ctr<V>) -> bool {
    forall|x: nat, p: nat| 1 <= x <= puz.grid.size.spec_house() && !c.values@.contains(x) && c.indices@.contains(p)
        ==> !#[trigger] may_hold(puz, row, val, x, p)
}

/// Counters `a` that hold, for each line, where `val` may stand in it.
pub open spec fn lines_hold<V: BitSetInt>(puz: Sudoku<V>, row: bool, val: nat, a: Seq<Ctr<V>>) -> bool {
    &&& a.len() == puz.grid.size.spec_house()
    &&& forall|i: int, p: nat| 0 <= i < a.len() ==> (#[trigger] a[i].indices@.contains(p)
        <==> (1 <= p <= a.len() && may_hold(puz, row, val, (i + 1) as nat, p)))
}

/// A fish of lines is a choice of counters that the search looks at.
proof fn lemma_line_fish_set<V: BitSetInt>(puz: Sudoku<V>, row: bool, val: nat, a: Seq<Ctr<V>>, s: Set<int>, n: nat)
    requires
        lines_hold(puz, row, val, a),
        line_fish(puz, row, val, s, n),
    ensures
        fish_set(a, s, n),
{
    assert forall|v: int| #[trigger] s.contains(v) implies 0 <= v < a.len() && a[v].indices@ != Set::<nat>::empty() by {
        let p = choose|p: nat| 1 <= p <= a.len() && #[trigger] may_hold(puz, row, val, (v + 1) as nat, p);
        assert(a[v].indices@.contains(p));
    }
    assert forall|p: nat| #[trigger] tuple_places(a, s, false).contains(p) <==> line_places(puz, row, val, s).contains(p) by {
        if places_of(a, s, p) {
            let v = choose|v: int| #![trigger a[v].indices@.contains(p)] s.contains(v) && 0 <= v < a.len() && a[v].indices@.contains(p);
            assert(s.contains(v) && may_hold(puz, row, val, (v + 1) as nat, p));
        }
        if line_places(puz, row, val, s).contains(p) {
            let v = choose|v: int| #[trigger] s.contains(v) && may_hold(puz, row, val, (v + 1) as nat, p);
            assert(a[v].indices@.contains(p));
        }
    }
    assert(tuple_places(a, s, false) =~= line_places(puz, row, val, s));
}

/// A counter found for the lines `s` that takes nothing shows that the fish on `s` takes
/// nothing.
proof fn lemma_ctr_takes_nothing<V: BitSetInt>(puz: Sudoku<V>, row: bool, val: nat, a: Seq<Ctr<V>>, s: Set<int>, c: Ctr<V>)
    requires
        lines_hold(puz, row, val, a),
        hidden_tuple(a, c),
        chosen(c, a.len() as int) == s,
        ctr_takes_nothing(puz, row, val, c),
    ensures
        fish_takes_nothing(puz, row, val, s),
{
    assert forall|x: int, p: nat| 0 <= x < a.len() && !s.contains(x) && line_places(puz, row, val, s).contains(p)
        implies !may_hold(puz, row, val, (x + 1) as nat, p) by {
        assert(!c.values@.contains((x + 1) as nat));
        let v = choose|v: int| #[trigger] s.contains(v) && may_hold(puz, row, val, (v + 1) as nat, p);
        assert(a[v].indices@.contains(p));
        assert(places_of(a, chosen(c, a.len() as int), p));
        assert(c.indices@.contains(p));
    }
}

/// When the counters from `start` on have no places, no fish of `n` counters extends the `l`
/// chosen before `start` with counters from `start` on.
proof fn lemma_no_fish_left<T: BitSetInt>(a: Seq<Ctr<T>>, l: Set<int>, n: nat, start: int)
    requires
        l.finite(),
        l.len() < n,
        forall|v: int| start <= v < a.len() ==> (#[trigger] a[v]).indices@ == Set::<nat>::empty(),
    ensures
        forall|s: Set<int>| #[trigger] fish_set(a, s, n) && l.subset_of(s)
            ==> !(forall|v: int| s.contains(v) && !l.contains(v) ==> v >= start),
{
    assert forall|s: Set<int>| #[trigger] fish_set(a, s, n) && l.subset_of(s)
        implies !(forall|v: int| s.contains(v) && !l.contains(v) ==> v >= start) by {
        if !(exists|v: int| s.contains(v) && !l.contains(v)) {
            assert(s.subset_of(l));
            vstd::set_lib::lemma_len_subset(s, l);
        }
        let v = choose|v: int| s.contains(v) && !l.contains(v);
        if v >= start {
            assert(a[v].indices@ == Set::<nat>::empty());
        }
    }
}

/// The technique of a fish of `size` lines.
pub open spec fn fish_technique(size: usize) -> Technique {
    if size == 4 {
        Technique::Jellyfish
    } else if size == 3 {
        Technique::Swordfish
    } else if size == 2 {
        Technique::XWing
    } else {
        Technique::FishN(size)
    }
}

/// Fish: `size` rows (or columns) in which a value may only stand in `size` columns (rows);
/// the value goes from the rest of those columns (rows).
pub struct BasicFish<V: BitSetInt> {
    pub size: usize,
    pub phantom: PhantomData<V>,
}

impl<V: BitSetInt> BasicFish<V> {
    pub fn new(size: usize) -> (r: Self)
        ensures
            r.size == size,
    {
        BasicFish { size, phantom: PhantomData }
    }

    /// Every fish move of the solver's size, rows first; `None` when there is none or the size
    /// is below two or above half the house size.
    pub fn _hint(&self, puz: &Sudoku<V>) -> (r: Option<Vec<Move<V>>>)
        requires
            puz.wf(),
        ensures
            (self.size < 2 || self.size > puz.grid.size.spec_house() / 2) ==> r is None,
            r matches Some(v) ==> v.len() > 0 && forall|k: int| 0 <= k < v.len() ==> sound_hint(*puz, #[trigger] v[k], fish_technique(self.size))
                && v[k].value_set is None && distinct_records(v[k])
                && (basic_fish_move(*puz, true, self.size as nat, v[k]) || basic_fish_move(*puz, false, self.size as nat, v[k])),
            r is None && 2 <= self.size <= puz.grid.size.spec_house() / 2 ==> forall|row: bool, w: nat, s: Set<int>|
                1 <= w <= puz.grid.size.spec_house() && #[trigger] line_fish(*puz, row, w, s, self.size as nat)
                ==> fish_takes_nothing(*puz, row, w, s),
            2 <= self.size <= puz.grid.size.spec_house() / 2 ==> forall|row: bool, w: nat, s: Set<int>|
                1 <= w <= puz.grid.size.spec_house() && #[trigger] line_fish(*puz, row, w, s, self.size as nat)
                && !fish_takes_nothing(*puz, row, w, s)
                ==> r is Some && exists|f: int, c: Ctr<V>| 0 <= f < r->Some_0.len() && chosen(c, puz.grid.size.spec_house() as int) == s
                    && #[trigger] fish_move_for(*puz, row, self.size as nat, w, c, r->Some_0[f].used_to_solve@, r->Some_0[f].removed_potentials@),
    {
        let size = self.size;
        let max = puz.house_size();
        if size < 2 || size > max / 2 {
            return None;
        }
        let solvet = if size == 4 {
            Technique::Jellyfish
        } else if size == 3 {
            Technique::Swordfish
        } else if size == 2 {
            Technique::XWing
        } else {
            Technique::FishN(size)
        };
        let mut vec: Vec<Move<V>> = Vec::new();
        let mut d: usize = 0;
        while d < 2
            invariant
                puz.wf(),
                size == self.size,
                solvet == fish_technique(size),
                forall|k: int| 0 <= k < vec.len() ==> sound_hint(*puz, #[trigger] vec[k], solvet)
                    && vec[k].value_set is None && distinct_records(vec[k])
                    && (basic_fish_move(*puz, true, size as nat, vec[k]) || basic_fish_move(*puz, false, size as nat, vec[k])),
                d <= 2,
                vec.len() == 0 ==> forall|row: bool, w: nat, s: Set<int>| (row ==> d >= 1) && (!row ==> d >= 2)
                    && 1 <= w <= puz.grid.size.spec_house() && #[trigger] line_fish(*puz, row, w, s, size as nat)
                    ==> fish_takes_nothing(*puz, row, w, s),
                forall|row: bool, w: nat, s: Set<int>| (row ==> d >= 1) && (!row ==> d >= 2)
                    && 1 <= w <= puz.grid.size.spec_house() && #[trigger] line_fish(*puz, row, w, s, size as nat)
                    && !fish_takes_nothing(*puz, row, w, s)
                    ==> exists|f: int, c: Ctr<V>| 0 <= f < vec.len() && chosen(c, puz.grid.size.spec_house() as int) == s
                        && #[trigger] fish_move_for(*puz, row, size as nat, w, c, vec[f].used_to_solve@, vec[f].removed_potentials@),
            decreases 2 - d,
        {
            let dir: House<()> = if d == 0 { House::Row(()) } else { House::Col(()) };
            let ghost n0 = vec.len();
            let ghost vb = vec@;
            let found = Self::fish(puz, &dir, size, solvet);
            if let Some(m) = found {
                let mut k: usize = 0;
                while k < m.len()
                    invariant
                        k <= m.len(),
                        vec.len() == n0 + k,
                        n0 == vb.len(),
                        forall|q: int| 0 <= q < n0 ==> #[trigger] vec@[q] == vb[q],
                        forall|q: int| 0 <= q < k ==> (#[trigger] vec@[n0 + q]).used_to_solve@ == m[q].used_to_solve@
                            && vec@[n0 + q].removed_potentials@ == m[q].removed_potentials@,
                        k > 0 ==> vec.len() > 0,
                        forall|q: int| 0 <= q < m.len() ==> sound_hint(*puz, #[trigger] m[q], solvet)
                            && m[q].value_set is None && distinct_records(m[q]) && basic_fish_move(*puz, dir is Row, size as nat, m[q]),
                        forall|q: int| 0 <= q < vec.len() ==> sound_hint(*puz, #[trigger] vec[q], solvet)
                            && vec[q].value_set is None && distinct_records(vec[q])
                            && (basic_fish_move(*puz, true, size as nat, vec[q]) || basic_fish_move(*puz, false, size as nat, vec[q])),
                    decreases m.len() - k,
                {
                    let mv = m[k].clone_move();
                    proof {
                        assert(sound_hint(*puz, m[k as int], solvet));
                        assert(distinct_records(m[k as int]));
                        assert(basic_fish_move(*puz, dir is Row, size as nat, mv));
                    }
                    let ghost vk = vec@;
                    vec.push(mv);
                    proof {
                        let n = vec.len() - 1;
                        assert(vec[n as int] == mv);
                        assert forall|q: int| 0 <= q < n0 implies #[trigger] vec@[q] == vb[q] by {
                            assert(vec@[q] == vk[q]);
                        }
                        assert forall|q: int| 0 <= q < k + 1 implies (#[trigger] vec@[n0 + q]).used_to_solve@ == m[q].used_to_solve@
                            && vec@[n0 + q].removed_potentials@ == m[q].removed_potentials@ by {
                            if q < k {
                                assert(vec@[n0 + q] == vk[n0 + q]);
                            }
                        }
                    }
                    k = k + 1;
                }
            }
            proof {
                assert forall|row: bool, w: nat, s: Set<int>| (row ==> d + 1 >= 1) && (!row ==> d + 1 >= 2)
                    && 1 <= w <= puz.grid.size.spec_house() && #[trigger] line_fish(*puz, row, w, s, size as nat)
                    && !fish_takes_nothing(*puz, row, w, s)
                    implies exists|f: int, c: Ctr<V>| 0 <= f < vec.len() && chosen(c, puz.grid.size.spec_house() as int) == s
                        && #[trigger] fish_move_for(*puz, row, size as nat, w, c, vec[f].used_to_solve@, vec[f].removed_potentials@) by {
                    if row != (dir is Row) {
                        assert((row ==> d >= 1) && (!row ==> d >= 2));
                        let (f, c) = choose|f: int, c: Ctr<V>| 0 <= f < vb.len() && chosen(c, puz.grid.size.spec_house() as int) == s
                            && #[trigger] fish_move_for(*puz, row, size as nat, w, c, vb[f].used_to_solve@, vb[f].removed_potentials@);
                        if found is Some {
                            assert(vec@[f] == vb[f]);
                        }
                    } else {
                        let m = found->Some_0;
                        let (f, c) = choose|f: int, c: Ctr<V>| 0 <= f < m.len() && chosen(c, puz.grid.size.spec_house() as int) == s
                            && #[trigger] fish_move_for(*puz, row, size as nat, w, c, m[f].used_to_solve@, m[f].removed_potentials@);
                        assert(vec@[n0 + f].used_to_solve@ == m[f].used_to_solve@);
                    }
                }
                if vec.len() == 0 {
                    assert(n0 == 0 && found is None);
                    assert forall|row: bool, w: nat, s: Set<int>| (row ==> d + 1 >= 1) && (!row ==> d + 1 >= 2)
                        && 1 <= w <= puz.grid.size.spec_house() && #[trigger] line_fish(*puz, row, w, s, size as nat)
                        implies fish_takes_nothing(*puz, row, w, s) by {
                        if row != (dir is Row) {
                            assert((row ==> d >= 1) && (!row ==> d >= 2));
                        }
                    }
                }
            }
            d = d + 1;
        }
        if vec.len() == 0 {
            None
        } else {
            Some(vec)
        }
    }

}

/// The value and the lines and places of the fish that records of a fish move describe.
proof fn lemma_fish_records_elim<V: BitSetInt>(puz: Sudoku<V>, row: bool, n: nat,
    used: Seq<IndexValuePair<BitSet<V>>>, removed: Seq<IndexValuePair<BitSet<V>>>) -> (r: (nat, Ctr<V>))
    requires
        fish_records(puz, row, n, used, removed),
    ensures
        fish_lines(puz, row, r.0, r.1),
        fish_seen(puz, row, r.0, r.1),
        r.1.wf(),
        popcnt(r.1.values.0.spec_nat()) == r.1.ind_count,
        removed_sound(puz, row, r.0, r.1, removed),
{
    reveal(fish_records);
    choose|val: nat, c: Ctr<V>| #![trigger fish_lines(puz, row, val, c)]
        fish_lines(puz, row, val, c) && fish_seen(puz, row, val, c) && c.wf() && c.ind_count == n
        && popcnt(c.values.0.spec_nat()) == n && fish_records_for(puz, row, val, c, used, removed)
}

/// A fish move takes out of a cell no value that the unique solution puts there.
pub proof fn lemma_basic_fish_sound<V: BitSetInt>(puz: Sudoku<V>, row: bool, n: nat, m: Move<V>)
    requires
        puz.wf(),
        keeps_solution(puz),
        m.value_set is None,
        basic_fish_move(puz, row, n, m),
    ensures
        sol_sound(puz, m),
{
    let (val, c) = lemma_fish_records_elim(puz, row, n, m.used_to_solve@, m.removed_potentials@);
    crate::bitset::bitset::lemma_values_len(c.indices);
    crate::bitset::bitset::lemma_values_len(c.values);
    lemma_fish_all_placed(puz, row, val, c);
    lemma_fish_onto(puz, row, val, c.values@, c.indices@);
    lemma_fish_removed(puz, row, val, c.values@, c.indices@, m);
}

/// The solution puts `val` at a place of `pl` in line `x` (both counted from one).
#[verifier::opaque]
pub open spec fn fish_placed<V: BitSetInt>(puz: Sudoku<V>, row: bool, val: nat, pl: Set<nat>, x: nat) -> bool {
    exists|p: nat| pl.contains(p)
        && gval(unique_grid(puz.solution)->Some_0, line_cell(puz.grid.size, row, (x - 1) as nat, (p - 1) as nat) as int) == val
}

/// The line of a fish, counted from one, as a house.
pub open spec fn line_house_of(row: bool, x: nat) -> House<nat> {
    if row {
        House::Row((x - 1) as nat)
    } else {
        House::Col((x - 1) as nat)
    }
}

/// The solution puts the value of a fish at a place of the fish in each of its lines.
proof fn lemma_fish_all_placed<V: BitSetInt>(puz: Sudoku<V>, row: bool, val: nat, c: Ctr<V>)
    requires
        puz.wf(),
        keeps_solution(puz),
        fish_lines(puz, row, val, c),
        fish_seen(puz, row, val, c),
    ensures
        forall|x: nat| #[trigger] c.values@.contains(x) ==> 1 <= x <= puz.grid.size.spec_house(),
        forall|p: nat| #[trigger] c.indices@.contains(p) ==> 1 <= p <= puz.grid.size.spec_house(),
        forall|x: nat| #[trigger] c.values@.contains(x) ==> fish_placed(puz, row, val, c.indices@, x),
{
    assert forall|x: nat| #[trigger] c.values@.contains(x) implies fish_placed(puz, row, val, c.indices@, x) by {
        let p = lemma_fish_place(puz, row, val, c, x);
        reveal(fish_placed);
    }
}

/// Where the value stands at each place of the fish in one of its lines, the records that take
/// it out of those places in other lines take out no value of the solution.
proof fn lemma_fish_removed<V: BitSetInt>(puz: Sudoku<V>, row: bool, val: nat, xs: Set<nat>, pl: Set<nat>, m: Move<V>)
    requires
        puz.wf(),
        keeps_solution(puz),
        m.value_set is None,
        forall|x: nat| #[trigger] xs.contains(x) ==> 1 <= x <= puz.grid.size.spec_house(),
        forall|q: nat| #[trigger] pl.contains(q) ==> exists|x: nat| xs.contains(x)
            && gval(unique_grid(puz.solution)->Some_0, line_cell(puz.grid.size, row, (x - 1) as nat, (q - 1) as nat) as int) == val,
        forall|k: int| 0 <= k < m.removed_potentials@.len() ==> {
            let p = #[trigger] m.removed_potentials@[k];
            &&& p.value@ == Set::<nat>::empty().insert(val)
            &&& exists|x: nat, q: nat| 1 <= x <= puz.grid.size.spec_house() && 1 <= q <= puz.grid.size.spec_house()
                && !xs.contains(x) && pl.contains(q)
                && p.index.inner_index == line_cell(puz.grid.size, row, (x - 1) as nat, (q - 1) as nat)
        },
    ensures
        sol_sound(puz, m),
{
    let g = unique_grid(puz.solution)->Some_0;
    let size = puz.grid.size;
    let h = size.spec_house();
    assert forall|k: int, x: nat| 0 <= k < m.removed_potentials@.len() && #[trigger] m.removed_potentials@[k].value@.contains(x)
        implies x != gval(g, m.removed_potentials@[k].index.inner_index as int) by {
        let pr = m.removed_potentials@[k];
        assert(x == val);
        let (x1, q) = choose|x1: nat, q: nat| 1 <= x1 <= h && 1 <= q <= h && !xs.contains(x1) && pl.contains(q)
            && pr.index.inner_index == line_cell(size, row, (x1 - 1) as nat, (q - 1) as nat);
        let x2 = choose|x2: nat| xs.contains(x2) && gval(g, line_cell(size, row, (x2 - 1) as nat, (q - 1) as nat) as int) == val;
        lemma_line_pair(puz, row, x1, x2, q);
    }
}

/// Two cells at the same place of two lines of one direction share a house, and the solution
/// gives them two values.
pub proof fn lemma_line_pair<V: BitSetInt>(puz: Sudoku<V>, row: bool, x1: nat, x2: nat, q: nat)
    requires
        puz.wf(),
        keeps_solution(puz),
        1 <= x1 <= puz.grid.size.spec_house(),
        1 <= x2 <= puz.grid.size.spec_house(),
        1 <= q <= puz.grid.size.spec_house(),
        x1 != x2,
    ensures
        gval(unique_grid(puz.solution)->Some_0, line_cell(puz.grid.size, row, (x1 - 1) as nat, (q - 1) as nat) as int)
            != gval(unique_grid(puz.solution)->Some_0, line_cell(puz.grid.size, row, (x2 - 1) as nat, (q - 1) as nat) as int),
{
    let size = puz.grid.size;
    let c1 = line_cell(size, row, (x1 - 1) as nat, (q - 1) as nat);
    let c2 = line_cell(size, row, (x2 - 1) as nat, (q - 1) as nat);
    lemma_line_cell(size, row, (x1 - 1) as nat, (q - 1) as nat);
    lemma_line_cell(size, row, (x2 - 1) as nat, (q - 1) as nat);
    if c1 == c2 {
        lemma_line_cell_inj(size, row, (x1 - 1) as nat, (q - 1) as nat, (x2 - 1) as nat, (q - 1) as nat);
    }
    lemma_sol_differs(puz, c1 as int, c2 as int);
}

/// The solution puts the value of a fish at a place of the fish in each line of the fish.
proof fn lemma_fish_place<V: BitSetInt>(puz: Sudoku<V>, row: bool, val: nat, c: Ctr<V>, x: nat) -> (p: nat)
    requires
        puz.wf(),
        keeps_solution(puz),
        fish_lines(puz, row, val, c),
        fish_seen(puz, row, val, c),
        c.values@.contains(x),
    ensures
        c.indices@.contains(p),
        gval(unique_grid(puz.solution)->Some_0, line_cell(puz.grid.size, row, (x - 1) as nat, (p - 1) as nat) as int) == val,
{
    let size = puz.grid.size;
    let h = size.spec_house();
    reveal(fish_seen);
    let p0 = choose|p: nat| 1 <= p <= h && #[trigger] may_hold(puz, row, val, x, p);
    let hh = line_house_of(row, x);
    assert(house_ok(size, hh));
    assert(house_cells(size, hh)[p0 - 1] == line_cell(size, row, (x - 1) as nat, (p0 - 1) as nat));
    let q = lemma_sol_possible(puz, hh, p0 - 1, val);
    let p = (q + 1) as nat;
    assert(house_cells(size, hh)[q] == line_cell(size, row, (x - 1) as nat, (p - 1) as nat));
    assert(may_hold(puz, row, val, x, p));
    assert(c.indices@.contains(p));
    p
}

/// As many places as lines, and the value at a place of each line: the value stands at each
/// place in one of the lines.
pub proof fn lemma_fish_onto<V: BitSetInt>(puz: Sudoku<V>, row: bool, val: nat, xs: Set<nat>, pl: Set<nat>)
    requires
        puz.wf(),
        keeps_solution(puz),
        xs.finite(),
        pl.finite(),
        xs.len() == pl.len(),
        forall|x: nat| #[trigger] xs.contains(x) ==> 1 <= x <= puz.grid.size.spec_house(),
        forall|p: nat| #[trigger] pl.contains(p) ==> 1 <= p <= puz.grid.size.spec_house(),
        forall|x: nat| #[trigger] xs.contains(x) ==> fish_placed(puz, row, val, pl, x),
    ensures
        forall|q: nat| #[trigger] pl.contains(q) ==> exists|x: nat| xs.contains(x)
            && gval(unique_grid(puz.solution)->Some_0, line_cell(puz.grid.size, row, (x - 1) as nat, (q - 1) as nat) as int) == val,
{
    let g = unique_grid(puz.solution)->Some_0;
    let size = puz.grid.size;
    let f = |x: nat| choose|p: nat| pl.contains(p) && gval(g, line_cell(size, row, (x - 1) as nat, (p - 1) as nat) as int) == val;
    assert forall|x: nat| #[trigger] xs.contains(x) implies pl.contains(f(x))
        && gval(g, line_cell(size, row, (x - 1) as nat, (f(x) - 1) as nat) as int) == val by {
        reveal(fish_placed);
    }
    assert(vstd::relations::injective_on(f, xs)) by {
        assert forall|x1: nat, x2: nat| xs.contains(x1) && xs.contains(x2) && #[trigger] f(x1) == #[trigger] f(x2) implies x1 == x2 by {
            if x1 != x2 {
                lemma_line_pair(puz, row, x1, x2, f(x1));
            }
        }
    }
    lemma_onto(xs, pl, f);
    assert forall|q: nat| #[trigger] pl.contains(q) implies exists|x: nat| xs.contains(x)
        && gval(g, line_cell(size, row, (x - 1) as nat, (q - 1) as nat) as int) == val by {
        let x = choose|x: nat| xs.contains(x) && f(x) == q;
    }
}

impl<V: BitSetInt> TechStruct<V> for BasicFish<V> {
    open spec fn spec_technique(&self) -> Technique {
        fish_technique(self.size)
    }

    /// No hint of the technique: every fish of its size takes nothing out.
    open spec fn spec_finds_nothing(&self, puz: Sudoku<V>) -> bool {
        2 <= self.size <= puz.grid.size.spec_house() / 2 ==> forall|row: bool, w: nat, s: Set<int>|
            1 <= w <= puz.grid.size.spec_house() && #[trigger] line_fish(puz, row, w, s, self.size as nat)
            ==> fish_takes_nothing(puz, row, w, s)
    }

    /// The first fish move, as the human solver asks for it.
    fn tech_hint(&self, puz: &Sudoku<V>) -> (r: Option<Move<V>>)
        ensures
            r matches Some(m) ==> sound_hint(*puz, m, fish_technique(self.size)) && m.value_set is None
                && distinct_records(m),
            r is None && 2 <= self.size <= puz.grid.size.spec_house() / 2 ==> forall|row: bool, w: nat, s: Set<int>|
                1 <= w <= puz.grid.size.spec_house() && #[trigger] line_fish(*puz, row, w, s, self.size as nat)
                ==> fish_takes_nothing(*puz, row, w, s),
    {
        match self._hint(puz) {
            Some(v) => {
                let first = v[0].clone_move();
                proof {
                    assert(sound_hint(*puz, v[0], fish_technique(self.size)));
                    assert(distinct_records(v[0]));
                    if keeps_solution(*puz) {
                        if basic_fish_move(*puz, true, self.size as nat, v[0]) {
                            lemma_basic_fish_sound(*puz, true, self.size as nat, v[0]);
                        } else {
                            lemma_basic_fish_sound(*puz, false, self.size as nat, v[0]);
                        }
                    }
                }
                Some(first)
            },
            None => None,
        }
    }
}

impl<V: BitSetInt> BasicFish<V> {

    /// The fish moves of `size` lines in the direction of `house` (rows or columns), value by
    /// value; each takes a value out of at least one cell.  `None` when there is none.
    #[verifier::rlimit(100)]
    pub fn fish(puz: &Sudoku<V>, house: &House<()>, size: usize, method: Technique) -> (r: Option<Vec<Move<V>>>)
        requires
            puz.wf(),
            !(*house is Box),
        ensures
            r matches Some(v) ==> v.len() > 0 && forall|k: int| 0 <= k < v.len() ==> sound_hint(*puz, #[trigger] v[k], method)
                && v[k].value_set is None && distinct_records(v[k]) && basic_fish_move(*puz, *house is Row, size as nat, v[k]),
            r is None ==> forall|w: nat, s: Set<int>| 1 <= w <= puz.grid.size.spec_house()
                && #[trigger] line_fish(*puz, *house is Row, w, s, size as nat) ==> fish_takes_nothing(*puz, *house is Row, w, s),
            forall|w: nat, s: Set<int>| 1 <= w <= puz.grid.size.spec_house()
                && #[trigger] line_fish(*puz, *house is Row, w, s, size as nat) && !fish_takes_nothing(*puz, *house is Row, w, s)
                ==> r is Some && exists|f: int, c: Ctr<V>| 0 <= f < r->Some_0.len() && chosen(c, puz.grid.size.spec_house() as int) == s
                    && #[trigger] fish_move_for(*puz, *house is Row, size as nat, w, c, r->Some_0[f].used_to_solve@, r->Some_0[f].removed_potentials@),
    {
        let max = puz.house_size();
        let sz = puz.sudoku_size();
        let row = match house {
            House::Row(_) => true,
            _ => false,
        };
        let mut vec: Vec<Move<V>> = Vec::new();
        proof { sz.lemma_sizes(); }
        for v in 1..max + 1
            invariant
                puz.wf(),
                sz == puz.grid.size,
                max == sz.spec_house(),
                max <= V::width(),
                sz.spec_total() <= 10000,
                row == (*house is Row),
                !(*house is Box),
                forall|k: int| 0 <= k < vec.len() ==> sound_hint(*puz, #[trigger] vec[k], method)
                    && vec[k].value_set is None && distinct_records(vec[k]) && basic_fish_move(*puz, row, size as nat, vec[k]),
                vec.len() == 0 ==> forall|w: nat, s: Set<int>| 1 <= w < v && #[trigger] line_fish(*puz, row, w, s, size as nat)
                    ==> fish_takes_nothing(*puz, row, w, s),
                forall|w: nat, s: Set<int>| 1 <= w < v && #[trigger] line_fish(*puz, row, w, s, size as nat)
                    && !fish_takes_nothing(*puz, row, w, s)
                    ==> exists|f: int, c: Ctr<V>| 0 <= f < vec.len() && chosen(c, max as int) == s
                        && #[trigger] fish_move_for(*puz, row, size as nat, w, c, vec[f].used_to_solve@, vec[f].removed_potentials@),
        {
            proof { V::lemma_range(V::one_spec()); }
            let val = Bit::from_value(V::from_usize(v));
            let tuplectr = Self::lines_of_value(puz, row, val);
            let ghost a = tuplectr.array@;
            proof {
                assert(lines_hold(*puz, row, v as nat, a));
            }
            let combos = Self::basic_combo(&tuplectr, size, max);
            if let Some(t) = combos {
                for j in 0..t.len()
                    invariant
                        puz.wf(),
                        sz == puz.grid.size,
                        max == sz.spec_house(),
                        max <= V::width(),
                        sz.spec_total() <= 10000,
                        row == (*house is Row),
                        !(*house is Box),
                        val.wf(),
                        val@ == v,
                        1 <= v <= max,
                        a == tuplectr.array@,
                        a.len() == max,
                        forall|i: int, p: nat| 0 <= i < a.len() ==> (#[trigger] a[i].indices@.contains(p)
                            <==> (1 <= p <= max && may_hold(*puz, row, val@, (i + 1) as nat, p))),
                        forall|i: int| 0 <= i < a.len() ==> (#[trigger] a[i]).values@ == Set::<nat>::empty().insert((i + 1) as nat),
                        forall|k: int| 0 <= k < t.len() ==> (#[trigger] t[k]).wf() && ctr_seen(a, t[k])
                            && hidden_tuple(a, t[k]) && t[k].ind_count == size && popcnt(t[k].values.0.spec_nat()) == size,
                        forall|k: int| 0 <= k < vec.len() ==> sound_hint(*puz, #[trigger] vec[k], method)
                            && vec[k].value_set is None && distinct_records(vec[k]) && basic_fish_move(*puz, row, size as nat, vec[k]),
                        vec.len() == 0 ==> forall|w: nat, s: Set<int>| 1 <= w < v && #[trigger] line_fish(*puz, row, w, s, size as nat)
                            ==> fish_takes_nothing(*puz, row, w, s),
                        vec.len() == 0 ==> forall|k: int| 0 <= k < j ==> ctr_takes_nothing(*puz, row, v as nat, #[trigger] t[k]),
                        forall|w: nat, s: Set<int>| 1 <= w < v && #[trigger] line_fish(*puz, row, w, s, size as nat)
                            && !fish_takes_nothing(*puz, row, w, s)
                            ==> exists|f: int, c: Ctr<V>| 0 <= f < vec.len() && chosen(c, max as int) == s
                                && #[trigger] fish_move_for(*puz, row, size as nat, w, c, vec[f].used_to_solve@, vec[f].removed_potentials@),
                        forall|k: int| 0 <= k < j && !ctr_takes_nothing(*puz, row, v as nat, #[trigger] t[k])
                            ==> exists|f: int| 0 <= f < vec.len() && fish_move_for(*puz, row, size as nat, v as nat, t[k], vec[f].used_to_solve@, vec[f].removed_potentials@),
                {
                    let item = t[j];
                    proof {
                        assert(hidden_tuple(a, item));
                        let ch = chosen(item, a.len() as int);
                        assert forall|p: nat| #[trigger] item.indices@.contains(p) <==> (1 <= p <= max
                            && exists|x: nat| #![trigger may_hold(*puz, row, v as nat, x, p)] item.values@.contains(x) && may_hold(*puz, row, v as nat, x, p)) by {
                            if item.indices@.contains(p) {
                                assert(places_of(a, ch, p));
                                let w = choose|w: int| #![trigger a[w].indices@.contains(p)] ch.contains(w) && 0 <= w < a.len() && a[w].indices@.contains(p);
                                assert(item.values@.contains((w + 1) as nat) && may_hold(*puz, row, v as nat, (w + 1) as nat, p));
                            }
                            if 1 <= p <= max && exists|x: nat| #![trigger may_hold(*puz, row, v as nat, x, p)] item.values@.contains(x) && may_hold(*puz, row, v as nat, x, p) {
                                let x = choose|x: nat| #![trigger may_hold(*puz, row, v as nat, x, p)] item.values@.contains(x) && may_hold(*puz, row, v as nat, x, p);
                                let w = x - 1;
                                assert(ch.contains(w));
                                assert(a[w].indices@.contains(p));
                                assert(places_of(a, ch, p));
                            }
                        }
                        assert(fish_lines(*puz, row, v as nat, item));
                    }
                    let mut themove: Move<V> = Move::new();
                    themove.method = Some(method);
                    let other_dir = Self::switch_dir(house);
                    let prims = item.value_integer_iter();
                    let secs = item.index_iter();
                    let ghost vals = item.values.0.spec_nat();
                    let ghost inds = item.indices.0.spec_nat();
                    proof {
                        V::lemma_range(item.values.0);
                        V::lemma_range(item.indices.0);
                        assert forall|q: int| 0 <= q < prims.len() implies 1 <= #[trigger] prims[q] <= max
                            && item.values@.contains(prims[q] as nat) by {
                            let sq = asc_from(vals, 1, V::width());
                            let x = prims[q] as nat;
                            assert(sq[q] == x);
                            assert(sq.contains(x));
                            lemma_asc_from_contains(vals, 1, V::width(), x);
                            assert(crate::bitset::bitset::values_of(vals).contains(x));
                        }
                        assert forall|q: int| 0 <= q < secs.len() implies #[trigger] secs[q] < max
                            && item.indices@.contains((secs[q] + 1) as nat) by {
                            let sq = asc_from(inds, 1, V::width());
                            let x = (secs[q] + 1) as nat;
                            assert(secs[q] + 1 == sq[q]);
                            assert(sq[q] == x);
                            assert(sq.contains(x));
                            lemma_asc_from_contains(inds, 1, V::width(), x);
                            assert(crate::bitset::bitset::values_of(inds).contains(x));
                            assert(item.indices@.contains(x));
                            assert(1 <= x <= max);
                        }
                        assert forall|q1: int, q2: int| 0 <= q1 < q2 < secs.len() implies #[trigger] secs[q1] < #[trigger] secs[q2] by {
                            lemma_asc_from_increasing(inds, 1, V::width(), q1, q2);
                            assert(secs[q1] + 1 == asc_from(inds, 1, V::width())[q1]);
                            assert(secs[q2] + 1 == asc_from(inds, 1, V::width())[q2]);
                        }
                    }
                    for a1 in 0..prims.len()
                        invariant
                            sz == puz.grid.size,
                            max == sz.spec_house(),
                            forall|q: int| 0 <= q < prims.len() ==> 1 <= #[trigger] prims[q] <= max,
                            forall|q: int| 0 <= q < secs.len() ==> #[trigger] secs[q] < max,
                            puz.wf(),
                            sz.spec_total() <= 10000,
                            row == (*house is Row),
                            !(*house is Box),
                            themove.method == Some(method),
                            !themove.manual,
                            themove.value_set is None,
                            themove.removed_potentials@.len() == 0,
                            forall|k: int| 0 <= k < themove.used_to_solve@.len() ==> {
                                let p = #[trigger] themove.used_to_solve@[k];
                                &&& p.value@ == Set::<nat>::empty().insert(v as nat)
                                &&& exists|x: nat, q: nat| item.values@.contains(x) && item.indices@.contains(q) && may_hold(*puz, row, v as nat, x, q)
                                    && p.index.inner_index == line_cell(sz, row, (x - 1) as nat, (q - 1) as nat)
                            },
                            val.wf(),
                            val@ == v,
                            forall|q: int| 0 <= q < prims.len() ==> item.values@.contains(#[trigger] prims[q] as nat),
                            forall|q: int| 0 <= q < secs.len() ==> item.indices@.contains((#[trigger] secs[q] + 1) as nat),
                            forall|a2: int, b2: int| #![trigger prims[a2], secs[b2]] 0 <= a2 < a1 && 0 <= b2 < secs.len()
                                && may_hold(*puz, row, v as nat, prims[a2] as nat, (secs[b2] + 1) as nat)
                                ==> exists|k: int| 0 <= k < themove.used_to_solve@.len()
                                    && (#[trigger] themove.used_to_solve@[k]).index.inner_index == line_cell(sz, row, (prims[a2] - 1) as nat, secs[b2] as nat),
                    {
                        for b1 in 0..secs.len()
                            invariant
                                sz == puz.grid.size,
                                max == sz.spec_house(),
                                a1 < prims.len(),
                                1 <= prims[a1 as int] <= max,
                                forall|q: int| 0 <= q < secs.len() ==> #[trigger] secs[q] < max,
                                puz.wf(),
                                sz.spec_total() <= 10000,
                                row == (*house is Row),
                                !(*house is Box),
                                themove.method == Some(method),
                                !themove.manual,
                                themove.value_set is None,
                                themove.removed_potentials@.len() == 0,
                                forall|q: int| 0 <= q < prims.len() ==> 1 <= #[trigger] prims[q] <= max,
                                forall|k: int| 0 <= k < themove.used_to_solve@.len() ==> {
                                    let p = #[trigger] themove.used_to_solve@[k];
                                    &&& p.value@ == Set::<nat>::empty().insert(v as nat)
                                    &&& exists|x: nat, q: nat| item.values@.contains(x) && item.indices@.contains(q) && may_hold(*puz, row, v as nat, x, q)
                                        && p.index.inner_index == line_cell(sz, row, (x - 1) as nat, (q - 1) as nat)
                                },
                                val.wf(),
                                val@ == v,
                                forall|q: int| 0 <= q < prims.len() ==> item.values@.contains(#[trigger] prims[q] as nat),
                                forall|q: int| 0 <= q < secs.len() ==> item.indices@.contains((#[trigger] secs[q] + 1) as nat),
                                forall|a2: int, b2: int| #![trigger prims[a2], secs[b2]] 0 <= a2 < prims.len() && 0 <= b2 < secs.len()
                                    && (a2 < a1 || (a2 == a1 && b2 < b1))
                                    && may_hold(*puz, row, v as nat, prims[a2] as nat, (secs[b2] + 1) as nat)
                                    ==> exists|k: int| 0 <= k < themove.used_to_solve@.len()
                                        && (#[trigger] themove.used_to_solve@[k]).index.inner_index == line_cell(sz, row, (prims[a2] - 1) as nat, secs[b2] as nat),
                        {
                            let coord = Self::index_from_what(house, prims[a1] - 1, secs[b1], sz);
                            proof {
                                lemma_line_cell(sz, row, (prims[a1 as int] - 1) as nat, secs[b1 as int] as nat);
                                assert(coord == line_cell(sz, row, (prims[a1 as int] - 1) as nat, secs[b1 as int] as nat));
                                assert(may_hold(*puz, row, v as nat, prims[a1 as int] as nat, (secs[b1 as int] + 1) as nat)
                                    == puz.cells()[coord as int].flags.poss@.contains(v as nat));
                            }
                            let ghost ubefore = themove.used_to_solve@;
                            if puz.grid.items[coord].poss_contains(val) {
                                themove.add_used_to_solve(puz.upgrade_index(coord), BitSet::from_bit(val));
                                proof {
                                    let n = ubefore.len() as int;
                                    let x = prims[a1 as int] as nat;
                                    let q = (secs[b1 as int] + 1) as nat;
                                    assert(item.values@.contains(x) && item.indices@.contains(q) && may_hold(*puz, row, v as nat, x, q)
                                        && themove.used_to_solve@[n].index.inner_index == line_cell(sz, row, (x - 1) as nat, (q - 1) as nat));
                                }
                            }
                            proof {
                                assert forall|k: int| 0 <= k < ubefore.len() implies #[trigger] themove.used_to_solve@[k] == ubefore[k] by {}
                                assert forall|a2: int, b2: int| #![trigger prims[a2], secs[b2]] 0 <= a2 < prims.len() && 0 <= b2 < secs.len()
                                    && (a2 < a1 || (a2 == a1 && b2 < b1 + 1))
                                    && may_hold(*puz, row, v as nat, prims[a2] as nat, (secs[b2] + 1) as nat)
                                    implies exists|k: int| 0 <= k < themove.used_to_solve@.len()
                                        && (#[trigger] themove.used_to_solve@[k]).index.inner_index == line_cell(sz, row, (prims[a2] - 1) as nat, secs[b2] as nat) by {
                                    if a2 == a1 && b2 == b1 {
                                        let n = ubefore.len() as int;
                                        assert(themove.used_to_solve@[n].index.inner_index == coord);
                                    } else {
                                        let k = choose|k: int| 0 <= k < ubefore.len()
                                            && (#[trigger] ubefore[k]).index.inner_index == line_cell(sz, row, (prims[a2] - 1) as nat, secs[b2] as nat);
                                        assert(themove.used_to_solve@[k] == ubefore[k]);
                                    }
                                }
                            }
                        }
                    }
                    let ghost used0 = themove.used_to_solve@;
                    let ghost mut recs: Seq<(nat, int)> = Seq::empty();
                    for b in 0..secs.len()
                        invariant
                            puz.wf(),
                            sz == puz.grid.size,
                            max == sz.spec_house(),
                            max <= V::width(),
                            sz.spec_total() <= 10000,
                            row == (*house is Row),
                            other_dir is Row <==> !row,
                            !(other_dir is Box),
                            val.wf(),
                            val@ == v,
                            1 <= v <= max,
                            forall|q: int| 0 <= q < secs.len() ==> #[trigger] secs[q] < max
                                && item.indices@.contains((secs[q] + 1) as nat),
                            forall|q1: int, q2: int| 0 <= q1 < q2 < secs.len() ==> #[trigger] secs[q1] < #[trigger] secs[q2],
                            themove.method == Some(method),
                            !themove.manual,
                            themove.value_set is None,
                            recs.len() == themove.removed_potentials@.len(),
                            themove.used_to_solve@ == used0,
                            forall|k: int| 0 <= k < recs.len() ==> {
                                let p = #[trigger] themove.removed_potentials@[k];
                                &&& recs[k].0 < max
                                &&& 0 <= recs[k].1 < b
                                &&& !item.values@.contains(recs[k].0 + 1)
                                &&& p.index.inner_index == line_cell(sz, row, recs[k].0, secs[recs[k].1] as nat)
                                &&& p.index.inner_index < sz.spec_total()
                                &&& p.value@ == Set::<nat>::empty().insert(v as nat)
                                &&& puz.cells()[p.index.inner_index as int].flags.poss@.contains(v as nat)
                            },
                            distinct_records(themove),
                            themove.removed_potentials@.len() == 0 ==> forall|x: nat, p: nat| 1 <= x <= max && !item.values@.contains(x)
                                && (exists|q: int| 0 <= q < b && #[trigger] secs[q] + 1 == p) ==> !#[trigger] may_hold(*puz, row, v as nat, x, p),
                            forall|x: nat, b2: int| #![trigger secs[b2], may_hold(*puz, row, v as nat, x, (secs[b2] + 1) as nat)]
                                1 <= x <= max && 0 <= b2 < b && !item.values@.contains(x)
                                && may_hold(*puz, row, v as nat, x, (secs[b2] + 1) as nat)
                                ==> exists|k: int| 0 <= k < themove.removed_potentials@.len()
                                    && (#[trigger] themove.removed_potentials@[k]).index.inner_index == line_cell(sz, row, (x - 1) as nat, secs[b2] as nat),
                    {
                        let s = secs[b];
                        let ghost sp: nat = (s + 1) as nat;
                        let cells = puz.grid.enum_house_iter(&Self::add_to_house(&other_dir, s), sz);
                        proof {
                            assert forall|k: int| 0 <= k < max implies #[trigger] cells[k] == line_cell(sz, row, k as nat, s as nat) by {
                                lemma_line_cell(sz, row, k as nat, s as nat);
                                if row {
                                    assert(house_cells(sz, House::Col(s as nat))[k] == line_cell(sz, row, k as nat, s as nat));
                                    assert(cells@[k] == house_cells(sz, House::Col(s as nat))[k] as usize);
                                } else {
                                    assert(house_cells(sz, House::Row(s as nat))[k] == line_cell(sz, row, k as nat, s as nat));
                                    assert(cells@[k] == house_cells(sz, House::Row(s as nat))[k] as usize);
                                }
                            }
                        }
                        for i in 0..cells.len()
                            invariant
                                puz.wf(),
                                sz == puz.grid.size,
                                max == sz.spec_house(),
                                max <= V::width(),
                                sz.spec_total() <= 10000,
                                row == (*house is Row),
                                other_dir is Row <==> !row,
                                !(other_dir is Box),
                                val.wf(),
                                val@ == v,
                                1 <= v <= max,
                                b < secs.len(),
                                s == secs[b as int],
                                s < max,
                                cells.len() == max,
                                forall|k: int| 0 <= k < max ==> #[trigger] cells[k] == line_cell(sz, row, k as nat, s as nat),
                                forall|q: int| 0 <= q < secs.len() ==> #[trigger] secs[q] < max
                                    && item.indices@.contains((secs[q] + 1) as nat),
                                forall|q1: int, q2: int| 0 <= q1 < q2 < secs.len() ==> #[trigger] secs[q1] < #[trigger] secs[q2],
                                themove.method == Some(method),
                                !themove.manual,
                                themove.value_set is None,
                                recs.len() == themove.removed_potentials@.len(),
                                themove.used_to_solve@ == used0,
                                forall|k: int| 0 <= k < recs.len() ==> {
                                    let p = #[trigger] themove.removed_potentials@[k];
                                    &&& recs[k].0 < max
                                    &&& 0 <= recs[k].1 <= b
                                    &&& (recs[k].1 < b || recs[k].0 < i)
                                    &&& !item.values@.contains(recs[k].0 + 1)
                                    &&& p.index.inner_index == line_cell(sz, row, recs[k].0, secs[recs[k].1] as nat)
                                    &&& p.index.inner_index < sz.spec_total()
                                    &&& p.value@ == Set::<nat>::empty().insert(v as nat)
                                    &&& puz.cells()[p.index.inner_index as int].flags.poss@.contains(v as nat)
                                },
                                distinct_records(themove),
                                sp == s + 1,
                                themove.removed_potentials@.len() == 0 ==> forall|x: nat, p: nat| 1 <= x <= max && !item.values@.contains(x)
                                    && (exists|q: int| 0 <= q < b && #[trigger] secs[q] + 1 == p) ==> !#[trigger] may_hold(*puz, row, v as nat, x, p),
                                themove.removed_potentials@.len() == 0 ==> forall|x: nat| 1 <= x <= i && !item.values@.contains(x)
                                    ==> !#[trigger] may_hold(*puz, row, v as nat, x, sp),
                                forall|x: nat, b2: int| #![trigger secs[b2], may_hold(*puz, row, v as nat, x, (secs[b2] + 1) as nat)]
                                    1 <= x <= max && 0 <= b2 < secs.len() && (b2 < b || (b2 == b && x <= i)) && !item.values@.contains(x)
                                    && may_hold(*puz, row, v as nat, x, (secs[b2] + 1) as nat)
                                    ==> exists|k: int| 0 <= k < themove.removed_potentials@.len()
                                        && (#[trigger] themove.removed_potentials@[k]).index.inner_index == line_cell(sz, row, (x - 1) as nat, secs[b2] as nat),
                        {
                            proof {
                                lemma_line_cell(sz, row, i as nat, s as nat);
                                assert(may_hold(*puz, row, v as nat, (i + 1) as nat, sp) == puz.cells()[cells[i as int] as int].flags.poss@.contains(v as nat));
                            }
                            let ghost rbefore = themove.removed_potentials@;
                            if puz.grid.items[cells[i]].poss_contains(val) && !item.contains_index_value(i) {
                                let coord = Self::index_from_what(&other_dir, s, i, sz);
                                let ghost before = themove.removed_potentials@;
                                let ghost old_recs = recs;
                                themove.add_removed_potential(puz.upgrade_index(coord), BitSet::from_bit(val));
                                proof {
                                    recs = recs.push((i as nat, b as int));
                                    let n = before.len() as int;
                                    assert(coord == cells[i as int]);
                                    assert forall|k1: int, k2: int| 0 <= k1 < k2 < themove.removed_potentials@.len()
                                        implies (#[trigger] themove.removed_potentials@[k1]).index.inner_index
                                            != (#[trigger] themove.removed_potentials@[k2]).index.inner_index by {
                                        if k2 == n {
                                            assert(themove.removed_potentials@[k1] == before[k1]);
                                            let (x1, b2) = old_recs[k1];
                                            if before[k1].index.inner_index == coord {
                                                lemma_line_cell_inj(sz, row, x1, secs[b2] as nat, i as nat, s as nat);
                                                if b2 < b {
                                                    assert(secs[b2] < secs[b as int]);
                                                }
                                            }
                                        } else {
                                            assert(themove.removed_potentials@[k1] == before[k1]);
                                            assert(themove.removed_potentials@[k2] == before[k2]);
                                        }
                                    }
                                    assert forall|k: int| 0 <= k < recs.len() implies {
                                        let p = #[trigger] themove.removed_potentials@[k];
                                        &&& recs[k].0 < max
                                        &&& 0 <= recs[k].1 <= b
                                        &&& (recs[k].1 < b || recs[k].0 < i + 1)
                                        &&& !item.values@.contains(recs[k].0 + 1)
                                        &&& p.index.inner_index == line_cell(sz, row, recs[k].0, secs[recs[k].1] as nat)
                                        &&& p.index.inner_index < sz.spec_total()
                                        &&& p.value@ == Set::<nat>::empty().insert(v as nat)
                                        &&& puz.cells()[p.index.inner_index as int].flags.poss@.contains(v as nat)
                                    } by {
                                        if k < n {
                                            assert(themove.removed_potentials@[k] == before[k]);
                                            assert(recs[k] == old_recs[k]);
                                        }
                                    }
                                }
                            }
                            proof {
                                assert forall|k: int| 0 <= k < rbefore.len() implies #[trigger] themove.removed_potentials@[k] == rbefore[k] by {}
                                assert forall|x: nat, b2: int| #![trigger secs[b2], may_hold(*puz, row, v as nat, x, (secs[b2] + 1) as nat)]
                                    1 <= x <= max && 0 <= b2 < secs.len() && (b2 < b || (b2 == b && x <= i + 1)) && !item.values@.contains(x)
                                    && may_hold(*puz, row, v as nat, x, (secs[b2] + 1) as nat)
                                    implies exists|k: int| 0 <= k < themove.removed_potentials@.len()
                                        && (#[trigger] themove.removed_potentials@[k]).index.inner_index == line_cell(sz, row, (x - 1) as nat, secs[b2] as nat) by {
                                    if b2 == b && x == i + 1 {
                                        let n = rbefore.len() as int;
                                        assert(themove.removed_potentials@[n].index.inner_index == line_cell(sz, row, i as nat, s as nat));
                                    } else {
                                        let k = choose|k: int| 0 <= k < rbefore.len()
                                            && (#[trigger] rbefore[k]).index.inner_index == line_cell(sz, row, (x - 1) as nat, secs[b2] as nat);
                                        assert(themove.removed_potentials@[k] == rbefore[k]);
                                    }
                                }
                            }
                        }
                        proof {
                            if themove.removed_potentials@.len() == 0 {
                                assert forall|x: nat, p: nat| 1 <= x <= max && !item.values@.contains(x)
                                    && (exists|q: int| 0 <= q < b + 1 && #[trigger] secs[q] + 1 == p) implies !#[trigger] may_hold(*puz, row, v as nat, x, p) by {
                                    let q = choose|q: int| 0 <= q < b + 1 && #[trigger] secs[q] + 1 == p;
                                    if q == b {
                                        assert(p == sp);
                                    } else {
                                        assert(exists|q: int| 0 <= q < b && #[trigger] secs[q] + 1 == p);
                                    }
                                }
                            }
                        }
                    }
                    if themove.removed_potentials_vec().len() != 0 {
                        proof {
                            assert(themove.removed_potentials@[0].value@.contains(v as nat));
                            assert forall|k: int| 0 <= k < themove.removed_potentials@.len() implies {
                                let p = #[trigger] themove.removed_potentials@[k];
                                &&& p.value@ == Set::<nat>::empty().insert(v as nat)
                                &&& exists|x: nat, q: nat| 1 <= x <= max && 1 <= q <= max && !item.values@.contains(x) && item.indices@.contains(q)
                                    && p.index.inner_index == line_cell(sz, row, (x - 1) as nat, (q - 1) as nat)
                            } by {
                                let (x0, b0) = recs[k];
                                let x = x0 + 1;
                                let q = secs[b0] + 1;
                                assert(item.indices@.contains(q as nat));
                                assert(themove.removed_potentials@[k].index.inner_index == line_cell(sz, row, (x - 1) as nat, (q - 1) as nat));
                            }
                            assert(fish_lines(*puz, row, v as nat, item));
                            assert(ctr_seen(a, item));
                            lemma_fish_seen(*puz, row, v as nat, a, item);
                            assert(crate::hint::removals_fit(puz.cells(), themove.removed_potentials@));
                            lemma_fish_records(*puz, row, v as nat, size as nat, item, prims@, secs@,
                                themove.used_to_solve@, themove.removed_potentials@);
                        }
                        let ghost vbefore = vec@;
                        vec.push(themove);
                        proof {
                            let n = vec.len() - 1;
                            assert(vec[n as int] == themove);
                            assert forall|w: nat, s: Set<int>| 1 <= w < v && #[trigger] line_fish(*puz, row, w, s, size as nat)
                                && !fish_takes_nothing(*puz, row, w, s)
                                implies exists|f: int, c: Ctr<V>| 0 <= f < vec.len() && chosen(c, max as int) == s
                                    && #[trigger] fish_move_for(*puz, row, size as nat, w, c, vec[f].used_to_solve@, vec[f].removed_potentials@) by {
                                let (f, c) = choose|f: int, c: Ctr<V>| 0 <= f < vbefore.len() && chosen(c, max as int) == s
                                    && #[trigger] fish_move_for(*puz, row, size as nat, w, c, vbefore[f].used_to_solve@, vbefore[f].removed_potentials@);
                                assert(vec[f] == vbefore[f]);
                            }
                            assert forall|k: int| 0 <= k < j + 1 && !ctr_takes_nothing(*puz, row, v as nat, #[trigger] t[k])
                                implies exists|f: int| 0 <= f < vec.len() && fish_move_for(*puz, row, size as nat, v as nat, t[k], vec[f].used_to_solve@, vec[f].removed_potentials@) by {
                                if k < j {
                                    let f = choose|f: int| 0 <= f < vbefore.len() && fish_move_for(*puz, row, size as nat, v as nat, t[k], vbefore[f].used_to_solve@, vbefore[f].removed_potentials@);
                                    assert(vec[f] == vbefore[f]);
                                } else {
                                    assert(fish_move_for(*puz, row, size as nat, v as nat, t[k], vec[n as int].used_to_solve@, vec[n as int].removed_potentials@));
                                }
                            }
                        }
                    } else {
                        proof {
                            assert forall|x: nat, p: nat| 1 <= x <= max && !item.values@.contains(x) && item.indices@.contains(p)
                                implies !#[trigger] may_hold(*puz, row, v as nat, x, p) by {
                                let ch = chosen(item, a.len() as int);
                                assert(places_of(a, ch, p));
                                let w = choose|w: int| #![trigger a[w].indices@.contains(p)] ch.contains(w) && 0 <= w < a.len() && a[w].indices@.contains(p);
                                assert(1 <= p <= max);
                                assert(crate::bitset::bitset::values_of(inds).contains(p));
                                lemma_asc_from_contains(inds, 1, V::width(), p);
                                let sq = asc_from(inds, 1, V::width());
                                assert(sq.contains(p));
                                let q = choose|q: int| 0 <= q < sq.len() && sq[q] == p;
                                assert(secs[q] + 1 == p);
                            }
                            assert(ctr_takes_nothing(*puz, row, v as nat, item));
                        }
                    }
                }
            }
            proof {
                if vec.len() == 0 {
                    assert forall|s: Set<int>| #[trigger] line_fish(*puz, row, v as nat, s, size as nat)
                        implies fish_takes_nothing(*puz, row, v as nat, s) by {
                        lemma_line_fish_set(*puz, row, v as nat, a, s, size as nat);
                        let t = combos->Some_0;
                        let k = choose|k: int| 0 <= k < t.len() && #[trigger] chosen(t[k], a.len() as int) == s;
                        assert(ctr_takes_nothing(*puz, row, v as nat, t[k]));
                        lemma_ctr_takes_nothing(*puz, row, v as nat, a, s, t[k]);
                    }
                }
                assert forall|w: nat, s: Set<int>| 1 <= w < v + 1 && #[trigger] line_fish(*puz, row, w, s, size as nat)
                    && !fish_takes_nothing(*puz, row, w, s)
                    implies exists|f: int, c: Ctr<V>| 0 <= f < vec.len() && chosen(c, max as int) == s
                        && #[trigger] fish_move_for(*puz, row, size as nat, w, c, vec[f].used_to_solve@, vec[f].removed_potentials@) by {
                    if w == v {
                        lemma_line_fish_set(*puz, row, v as nat, a, s, size as nat);
                        let t = combos->Some_0;
                        let k = choose|k: int| 0 <= k < t.len() && #[trigger] chosen(t[k], a.len() as int) == s;
                        if ctr_takes_nothing(*puz, row, v as nat, t[k]) {
                            lemma_ctr_takes_nothing(*puz, row, v as nat, a, s, t[k]);
                        }
                        let f = choose|f: int| 0 <= f < vec.len() && fish_move_for(*puz, row, size as nat, v as nat, t[k], vec[f].used_to_solve@, vec[f].removed_potentials@);
                        assert(chosen(t[k], max as int) == s);
                    }
                }
            }
        }
        if vec.len() == 0 {
            None
        } else {
            Some(vec)
        }
    }

    /// The other direction of a row or column.
    fn switch_dir(house: &House<()>) -> (r: House<()>)
        requires
            !(*house is Box),
        ensures
            *house is Row ==> r is Col,
            *house is Col ==> r is Row,
    {
        match house {
            House::Row(()) => House::Col(()),
            _ => House::Row(()),
        }
    }

    /// The row or column `rcb` in the direction of `house`.
    fn add_to_house(house: &House<()>, rcb: usize) -> (r: House<usize>)
        requires
            !(*house is Box),
        ensures
            *house is Row ==> r == House::Row(rcb),
            *house is Col ==> r == House::Col(rcb),
    {
        match house {
            House::Row(()) => House::Row(rcb),
            _ => House::Col(rcb),
        }
    }

    /// The flat index of place `secondary` of house `primary` of the kind of `house`.
    pub fn index_from_what<C>(house: &House<C>, primary: usize, secondary: usize, size: SudokuSize) -> (r: usize)
        requires
            primary < size.spec_house(),
            secondary < size.spec_house(),
        ensures
            r == match *house {
                House::Row(_) => cell_row(size, primary as nat, secondary as nat),
                House::Col(_) => cell_col(size, primary as nat, secondary as nat),
                House::Box(_) => cell_box(size, primary as nat, secondary as nat),
            },
    {
        match house {
            House::Row(_) => {
                let c = Row::new(primary, secondary, size);
                proof { c.lemma_house(); }
                c.to_usize()
            },
            House::Col(_) => {
                let c = Col::new(primary, secondary, size);
                proof { c.lemma_house(); }
                c.to_usize()
            },
            House::Box(_) => {
                let c = GridBox::new(primary, secondary, size);
                proof { c.lemma_house(); }
                c.to_usize()
            },
        }
    }

    /// A counter per line (rows when `row`): counter `i` counts value `i + 1` at the places of
    /// line `i` where `val` may stand.
    fn lines_of_value(puz: &Sudoku<V>, row: bool, val: Bit<V>) -> (r: TupleCtr<V>)
        requires
            puz.wf(),
            val.wf(),
            val@ >= 1,
        ensures
            r.wf(),
            r.array.len() == puz.grid.size.spec_house(),
            forall|i: int, p: nat| 0 <= i < r.array.len() ==> (#[trigger] r.array[i].indices@.contains(p)
                <==> (1 <= p <= puz.grid.size.spec_house() && may_hold(*puz, row, val@, (i + 1) as nat, p))),
    {
        let size = puz.sudoku_size();
        let max = puz.house_size();
        let dir: House<()> = if row { House::Row(()) } else { House::Col(()) };
        let mut tuplectr: TupleCtr<V> = TupleCtr::new(size);
        proof { size.lemma_sizes(); }
        for i in 0..max
            invariant
                puz.wf(),
                size == puz.grid.size,
                max == size.spec_house(),
                max <= V::width(),
                size.spec_total() <= 10000,
                val.wf(),
                val@ >= 1,
                dir is Row <==> row,
                !(dir is Box),
                tuplectr.wf(),
                tuplectr.array.len() == max,
                forall|v: int, p: nat| 0 <= v < max ==> (#[trigger] tuplectr.array[v].indices@.contains(p)
                    <==> (v < i && 1 <= p <= max && may_hold(*puz, row, val@, (v + 1) as nat, p))),
        {
            let cells = puz.grid.enum_house_iter(&Self::add_to_house(&dir, i), size);
            proof { V::lemma_range(V::one_spec()); }
            let primary: BitSet<V> = BitSet::from_value(V::from_usize(i + 1));
            proof {
                assert forall|k: int| 0 <= k < max implies #[trigger] cells[k] == line_cell(size, row, i as nat, k as nat) by {
                    lemma_line_cell(size, row, i as nat, k as nat);
                    if row {
                        assert(house_cells(size, House::Row(i as nat))[k] == line_cell(size, row, i as nat, k as nat));
                        assert(cells@[k] == house_cells(size, House::Row(i as nat))[k] as usize);
                    } else {
                        assert(house_cells(size, House::Col(i as nat))[k] == line_cell(size, row, i as nat, k as nat));
                        assert(cells@[k] == house_cells(size, House::Col(i as nat))[k] as usize);
                    }
                }
            }
            for s in 0..cells.len()
                invariant
                    puz.wf(),
                    size == puz.grid.size,
                    max == size.spec_house(),
                    max <= V::width(),
                    size.spec_total() <= 10000,
                    val.wf(),
                    val@ >= 1,
                    i < max,
                    cells.len() == max,
                    forall|k: int| 0 <= k < max ==> #[trigger] cells[k] == line_cell(size, row, i as nat, k as nat),
                    primary@ == Set::<nat>::empty().insert((i + 1) as nat),
                    tuplectr.wf(),
                    tuplectr.array.len() == max,
                    forall|v: int, p: nat| 0 <= v < max ==> (#[trigger] tuplectr.array[v].indices@.contains(p)
                        <==> ((v < i && 1 <= p <= max && may_hold(*puz, row, val@, (v + 1) as nat, p))
                            || (v == i && 1 <= p <= s && may_hold(*puz, row, val@, (v + 1) as nat, p)))),
            {
                proof {
                    lemma_line_cell(size, row, i as nat, s as nat);
                }
                let ghost before = tuplectr.array@;
                let ghost hit = may_hold(*puz, row, val@, (i + 1) as nat, (s + 1) as nat);
                proof {
                    assert(cells[s as int] == line_cell(size, row, i as nat, s as nat));
                    assert(hit == puz.cells()[cells[s as int] as int].flags.poss@.contains(val@));
                }
                if puz.grid.items[cells[s]].poss().contains(val) {
                    tuplectr.insert(s, primary);
                    proof {
                        assert(hit);
                        assert forall|v: int, p: nat| 0 <= v < max implies (#[trigger] tuplectr.array[v].indices@.contains(p)
                            <==> ((v < i && 1 <= p <= max && may_hold(*puz, row, val@, (v + 1) as nat, p))
                                || (v == i && 1 <= p <= s + 1 && may_hold(*puz, row, val@, (v + 1) as nat, p)))) by {
                            assert(before[v].indices@.contains(p) <==> ((v < i && 1 <= p <= max && may_hold(*puz, row, val@, (v + 1) as nat, p))
                                || (v == i && 1 <= p <= s && may_hold(*puz, row, val@, (v + 1) as nat, p))));
                            assert(primary@.contains((v + 1) as nat) <==> v == i);
                        }
                    }
                } else {
                    proof {
                        assert(!hit);
                        assert forall|v: int, p: nat| 0 <= v < max implies (#[trigger] tuplectr.array[v].indices@.contains(p)
                            <==> ((v < i && 1 <= p <= max && may_hold(*puz, row, val@, (v + 1) as nat, p))
                                || (v == i && 1 <= p <= s + 1 && may_hold(*puz, row, val@, (v + 1) as nat, p)))) by {
                            assert(before[v].indices@.contains(p) <==> ((v < i && 1 <= p <= max && may_hold(*puz, row, val@, (v + 1) as nat, p))
                                || (v == i && 1 <= p <= s && may_hold(*puz, row, val@, (v + 1) as nat, p))));
                        }
                    }
                }
            }
        }
        tuplectr
    }

    /// The choices of `size` nonempty counters whose places together number `size`.
    fn basic_combo(tuples: &TupleCtr<V>, size: usize, max: usize) -> (r: Option<Vec<Ctr<V>>>)
        requires
            tuples.wf(),
            tuples.array.len() == max,
        ensures
            r matches Some(v) ==> v.len() > 0 && forall|k: int| 0 <= k < v.len() ==> (#[trigger] v[k]).wf()
                && ctr_seen(tuples.array@, v[k])
                && hidden_tuple(tuples.array@, v[k]) && v[k].ind_count == size && popcnt(v[k].values.0.spec_nat()) == size,
            forall|s: Set<int>| #[trigger] fish_set(tuples.array@, s, size as nat)
                ==> (r matches Some(v) && exists|k: int| 0 <= k < v.len() && #[trigger] chosen(v[k], tuples.array.len() as int) == s),
    {
        let start: Ctr<V> = Ctr::new(Bit::zero());
        proof {
            assert(start.values@ =~= Set::<nat>::empty()) by {
                crate::bitset::bitset::lemma_count_zero_empty(start.values);
            }
            assert(popcnt(start.values.0.spec_nat()) == 0);
        }
        Self::basic_combo_rec(tuples, size, start, 0, None, max, Ghost(Set::<int>::empty()))
    }

    /// Extends the choice `current_val` (counters `l`, `current_size` of them) with counters
    /// after `current_ind`, each taken or passed over in turn.
    #[verifier::spinoff_prover]
    #[verifier::rlimit(40)]
    fn basic_combo_rec(
        tuples: &TupleCtr<V>,
        size: usize,
        current_val: Ctr<V>,
        current_size: usize,
        current_ind: Option<usize>,
        max: usize,
        Ghost(l): Ghost<Set<int>>,
    ) -> (r: Option<Vec<Ctr<V>>>)
        requires
            tuples.wf(),
            tuples.array.len() == max,
            current_ind matches Some(c) ==> c < max,
            forall|v: int| #[trigger] l.contains(v) ==> 0 <= v < (match current_ind { None => 0int, Some(c) => c + 1 }),
            counts(tuples.array@, current_val, l),
            forall|v: int| l.contains(v) ==> (#[trigger] tuples.array[v]).indices@ != Set::<nat>::empty(),
            popcnt(current_val.values.0.spec_nat()) == current_size,
            l.finite(),
            l.len() == current_size,
            current_size <= size,
        ensures
            r matches Some(v) ==> v.len() > 0 && forall|k: int| 0 <= k < v.len() ==> (#[trigger] v[k]).wf()
                && ctr_seen(tuples.array@, v[k])
                && hidden_tuple(tuples.array@, v[k]) && v[k].ind_count == size && popcnt(v[k].values.0.spec_nat()) == size,
            forall|s: Set<int>| #[trigger] fish_set(tuples.array@, s, size as nat) && l.subset_of(s)
                && (forall|v: int| s.contains(v) && !l.contains(v) ==> v >= next_pos(current_ind))
                ==> (r matches Some(v) && exists|k: int| 0 <= k < v.len() && #[trigger] chosen(v[k], tuples.array.len() as int) == s),
        decreases max - (match current_ind { None => 0int, Some(c) => c + 1 }),
    {
        let ghost a = tuples.array@;
        let ghost start: int = match current_ind { None => 0int, Some(c) => c + 1 };
        proof {
            assert forall|s: Set<int>| #[trigger] fish_set(a, s, size as nat) && l.subset_of(s) implies current_size <= size by {
                vstd::set_lib::lemma_len_subset(l, s);
            }
        }
        if current_size == size {
            proof {
                assert(current_val.indices@ =~= tuple_places(a, l, false));
                crate::bitset::bitset::lemma_values_len(current_val.indices);
                assert forall|s: Set<int>| #[trigger] fish_set(a, s, size as nat) && l.subset_of(s) implies s == l by {
                    lemma_subset_same_len(l, s);
                }
            }
            if current_val.ind_count as usize == size {
                proof {
                    assert(chosen(current_val, a.len() as int) =~= l);
                    assert(ctr_seen(a, current_val));
                }
                let one = vec![current_val];
                let res = Some(one);
                proof {
                    assert(one@[0] == current_val);
                    assert forall|s: Set<int>| #[trigger] fish_set(tuples.array@, s, size as nat) && l.subset_of(s)
                        && (forall|v: int| s.contains(v) && !l.contains(v) ==> v >= next_pos(current_ind))
                        implies (res matches Some(v) && exists|k: int| 0 <= k < v.len() && #[trigger] chosen(v[k], tuples.array.len() as int) == s) by {
                        assert(s == l);
                        let v = res->Some_0;
                        assert(v[0] == current_val);
                        assert(chosen(v[0], tuples.array.len() as int) == s);
                    }
                }
                return res;
            }
            proof {
                assert forall|s: Set<int>| #[trigger] fish_set(a, s, size as nat) && l.subset_of(s) implies false by {
                    assert(s == l);
                }
            }
            return None;
        }
        let mut ind: usize = match current_ind {
            None => 0,
            Some(v) => v + 1,
        };
        proof {
            assert forall|s: Set<int>| #[trigger] fish_set(a, s, size as nat) && l.subset_of(s)
                implies exists|v: int| s.contains(v) && !l.contains(v) by {
                if !(exists|v: int| s.contains(v) && !l.contains(v)) {
                    assert(s.subset_of(l));
                    vstd::set_lib::lemma_len_subset(s, l);
                }
            }
        }
        if ind == max {
            proof {
                lemma_no_fish_left(a, l, size as nat, start);
            }
            return None;
        }
        while tuples.array[ind].ind_count == 0
            invariant
                start <= ind < max,
                tuples.array.len() == max,
                tuples.wf(),
                a == tuples.array@,
                forall|v: int| start <= v < ind ==> (#[trigger] a[v]).indices@ == Set::<nat>::empty(),
                l.finite(),
                l.len() == current_size,
                current_size < size,
                start == next_pos(current_ind),
            decreases max - ind,
        {
            proof {
                crate::bitset::bitset::lemma_count_zero_empty(a[ind as int].indices);
            }
            ind = ind + 1;
            if ind == max {
                proof {
                    lemma_no_fish_left(a, l, size as nat, start);
                }
                return None;
            }
        }
        let merged = current_val.merge(&tuples.array[ind]);
        let ghost l2 = l.insert(ind as int);
        proof {
            assert(a[ind as int].values@ == Set::<nat>::empty().insert((ind + 1) as nat));
            assert forall|x: nat| #[trigger] merged.values@.contains(x) <==> (x >= 1 && l2.contains(x - 1)) by {
                assert(current_val.values@.contains(x) <==> (x >= 1 && l.contains(x - 1)));
            }
            assert forall|p: nat| #[trigger] merged.indices@.contains(p) <==> places_of(a, l2, p) by {
                assert(current_val.indices@.contains(p) <==> places_of(a, l, p));
                if places_of(a, l2, p) {
                    let v = choose|v: int| #![trigger a[v].indices@.contains(p)] l2.contains(v) && 0 <= v < a.len() && a[v].indices@.contains(p);
                    if v != ind {
                        assert(l.contains(v) && a[v].indices@.contains(p));
                    }
                }
                if places_of(a, l, p) {
                    let v = choose|v: int| #![trigger a[v].indices@.contains(p)] l.contains(v) && 0 <= v < a.len() && a[v].indices@.contains(p);
                    assert(l2.contains(v) && a[v].indices@.contains(p));
                }
                if a[ind as int].indices@.contains(p) {
                    assert(l2.contains(ind as int));
                }
            }
            assert(!current_val.values@.contains((ind + 1) as nat));
            assert(merged.values@ =~= current_val.values@.insert((ind + 1) as nat));
            lemma_popcnt_insert_value(current_val.values, merged.values, (ind + 1) as nat);
            V::lemma_range(current_val.values.0);
            crate::bitset::traits::lemma_popcnt_bound(current_val.values.0.spec_nat(), V::width());
        }
        let mut vec: Vec<Ctr<V>> = Vec::new();
        proof {
            assert(!l.contains(ind as int));
            crate::bitset::bitset::lemma_values_len(a[ind as int].indices);
            assert(a[ind as int].wf());
            assert(a[ind as int].indices@.len() != 0);
        }
        let left = Self::basic_combo_rec(tuples, size, merged, current_size + 1, Some(ind), max, Ghost(l2));
        if let Some(mut t) = left {
            vec.append(&mut t);
        }
        let ghost mid = vec@;
        let right = Self::basic_combo_rec(tuples, size, current_val, current_size, Some(ind), max, Ghost(l));
        if let Some(mut t) = right {
            vec.append(&mut t);
        }
        proof {
            assert forall|s: Set<int>| #[trigger] fish_set(a, s, size as nat) && l.subset_of(s)
                && (forall|v: int| s.contains(v) && !l.contains(v) ==> v >= next_pos(current_ind))
                implies exists|k: int| 0 <= k < vec.len() && #[trigger] chosen(vec[k], tuples.array.len() as int) == s by {
                assert forall|v: int| s.contains(v) && !l.contains(v) && v != ind implies v >= ind + 1 by {
                    if v < ind {
                        assert(a[v].indices@ == Set::<nat>::empty());
                    }
                }
                if s.contains(ind as int) {
                    assert(l2.subset_of(s));
                    let t = left->Some_0;
                    let k = choose|k: int| 0 <= k < t.len() && #[trigger] chosen(t[k], tuples.array.len() as int) == s;
                    assert(vec@[k] == t@[k]);
                } else {
                    let t = right->Some_0;
                    let k = choose|k: int| 0 <= k < t.len() && #[trigger] chosen(t[k], tuples.array.len() as int) == s;
                    assert(vec@[mid.len() + k] == t@[k]);
                }
            }
        }
        if vec.len() == 0 {
            proof {
                assert forall|s: Set<int>| #[trigger] fish_set(a, s, size as nat) && l.subset_of(s)
                    && (forall|v: int| s.contains(v) && !l.contains(v) ==> v >= next_pos(current_ind)) implies false by {
                    let k = choose|k: int| 0 <= k < vec.len() && #[trigger] chosen(vec[k], tuples.array.len() as int) == s;
                }
            }
            None
        } else {
            let ghost vv = vec@;
            let res = Some(vec);
            proof {
                assert forall|s: Set<int>| #[trigger] fish_set(tuples.array@, s, size as nat) && l.subset_of(s)
                    && (forall|v: int| s.contains(v) && !l.contains(v) ==> v >= next_pos(current_ind))
                    implies (res matches Some(v) && exists|k: int| 0 <= k < v.len() && #[trigger] chosen(v[k], tuples.array.len() as int) == s) by {
                    let k = choose|k: int| 0 <= k < vv.len() && #[trigger] chosen(vv[k], tuples.array.len() as int) == s;
                    let v = res->Some_0;
                    assert(v[k] == vv[k]);
                }
            }
            res
        }
    }
}

} // verus!
