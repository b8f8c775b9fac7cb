use vstd::prelude::*;
use core::marker::PhantomData;
use crate::bitset::traits::{BitSetInt, bit_of, popcnt, lemma_low_bit, lemma_zero_bits, low_bit};
use crate::bitset::bitset::{BitSet, values_of};
use crate::errors::SudError;
use crate::grid::grid::Grid;
use crate::hint::{Hint, applicable};
use crate::human_calcs::{TechStruct, tech_ok};
use crate::human_calcs::humansolve::tech_index::TechniqIndex;
use crate::human_calcs::technique::Technique;
use crate::move_change::{Move, IndexValuePair};
use crate::square::square::Square;
use crate::sudoku::state::{no_clash, cells_ok, cell_ok, empty_count, pots_for};
use crate::sudoku::sudoku::Sudoku;
use crate::sudoku::edit::{set_done, same_move, pots_removed};
use crate::solution::same_solution;
use crate::text::{decimal, push_decimal, push_text};
use crate::sudoku::access::unique_grid;
use crate::brute::same_entries;
use crate::human_calcs::kept::{keeps_solution, gval, filled_as, lemma_keeps_copy, lemma_step_keeps, lemma_empty_cell};

verus! {

/// The list is ordered by difficulty, easiest first.
pub open spec fn by_difficulty(s: Seq<Technique>) -> bool {
    forall|i: int, j: int| 0 <= i <= j < s.len() ==> #[trigger] s[i].spec_tenths() <= #[trigger] s[j].spec_tenths()
}

/// Techniques of equal difficulty in `s` come in the order they have in `orig`.
pub open spec fn keeps_ties(orig: Seq<Technique>, s: Seq<Technique>) -> bool {
    forall|a: int, b: int| 0 <= a < b < s.len() && #[trigger] s[a].spec_tenths() == #[trigger] s[b].spec_tenths()
        ==> exists|i: int, j: int| 0 <= i < j < orig.len() && orig[i] == s[a] && orig[j] == s[b]
}

/// Sorts the techniques by difficulty, keeping the order of techniques of equal difficulty.
pub fn sort_by_difficulty(v: &mut Vec<Technique>)
    ensures
        final(v).len() == old(v).len(),
        by_difficulty(final(v)@),
        forall|t: Technique| old(v)@.contains(t) <==> #[trigger] final(v)@.contains(t),
        keeps_ties(old(v)@, final(v)@),
{
    let n = v.len();
    let ghost orig = v@;
    let ghost mut idx: Seq<int> = Seq::new(n as nat, |k: int| k);
    let mut i: usize = 1;
    if n == 0 {
        return;
    }
    while i < n
        invariant
            1 <= i <= n,
            n == v.len(),
            by_difficulty(v@.subrange(0, i as int)),
            forall|t: Technique| orig.contains(t) <==> #[trigger] v@.contains(t),
            orig.len() == n,
            idx.len() == n,
            forall|a: int| 0 <= a < n ==> 0 <= #[trigger] idx[a] < n && v@[a] == orig[idx[a]],
            forall|a: int, b: int| 0 <= a < b < n && #[trigger] v@[a].spec_tenths() == #[trigger] v@[b].spec_tenths() ==> idx[a] < idx[b],
        decreases n - i,
    {
        let mut j: usize = i;
        proof {
            assert forall|a: int, b: int| 0 <= a <= b <= i && a != j && b != j implies #[trigger] v@[a].spec_tenths() <= #[trigger] v@[b].spec_tenths() by {
                assert(v@.subrange(0, i as int)[a] == v@[a]);
                assert(v@.subrange(0, i as int)[b] == v@[b]);
            }
        }
        while j > 0 && v[j - 1].difficulty_tenths() > v[j].difficulty_tenths()
            invariant
                0 <= j <= i < n,
                n == v.len(),
                forall|a: int, b: int| 0 <= a <= b <= i && a != j && b != j ==> #[trigger] v@[a].spec_tenths() <= #[trigger] v@[b].spec_tenths(),
                forall|a: int| j < a <= i ==> v@[j as int].spec_tenths() < #[trigger] v@[a].spec_tenths(),
                forall|t: Technique| orig.contains(t) <==> #[trigger] v@.contains(t),
                orig.len() == n,
                idx.len() == n,
                forall|a: int| 0 <= a < n ==> 0 <= #[trigger] idx[a] < n && v@[a] == orig[idx[a]],
                forall|a: int, b: int| 0 <= a < b < n && #[trigger] v@[a].spec_tenths() == #[trigger] v@[b].spec_tenths() ==> idx[a] < idx[b],
            decreases j,
        {
            let a = v[j - 1];
            let b = v[j];
            let ghost before = v@;
            let ghost old_idx = idx;
            v.set(j - 1, b);
            v.set(j, a);
            proof {
                idx = idx.update(j - 1, old_idx[j as int]).update(j as int, old_idx[j - 1]);
                assert forall|a2: int| 0 <= a2 < n implies 0 <= #[trigger] idx[a2] < n && v@[a2] == orig[idx[a2]] by {
                    if a2 == j - 1 {
                        assert(v@[a2] == before[j as int]);
                    } else if a2 == j {
                        assert(v@[a2] == before[j - 1]);
                    } else {
                        assert(v@[a2] == before[a2]);
                    }
                }
                assert forall|a2: int, b2: int| 0 <= a2 < b2 < n && #[trigger] v@[a2].spec_tenths() == #[trigger] v@[b2].spec_tenths()
                    implies idx[a2] < idx[b2] by {
                    let oa = if a2 == j - 1 { j as int } else if a2 == j { j - 1 } else { a2 };
                    let ob = if b2 == j - 1 { j as int } else if b2 == j { j - 1 } else { b2 };
                    assert(v@[a2] == before[oa]);
                    assert(v@[b2] == before[ob]);
                    assert(idx[a2] == old_idx[oa]);
                    assert(idx[b2] == old_idx[ob]);
                    if oa < ob {
                        assert(before[oa].spec_tenths() == before[ob].spec_tenths());
                    } else {
                        assert(a2 == j - 1 && b2 == j);
                    }
                }
                assert forall|t: Technique| before.contains(t) <==> #[trigger] v@.contains(t) by {
                    if before.contains(t) {
                        let k = choose|k: int| 0 <= k < before.len() && before[k] == t;
                        if k == j - 1 {
                            assert(v@[j as int] == t);
                        } else if k == j {
                            assert(v@[j - 1] == t);
                        } else {
                            assert(v@[k] == t);
                        }
                    }
                    if v@.contains(t) {
                        let k = choose|k: int| 0 <= k < v@.len() && v@[k] == t;
                        if k == j - 1 {
                            assert(before[j as int] == t);
                        } else if k == j {
                            assert(before[j - 1] == t);
                        } else {
                            assert(before[k] == t);
                        }
                    }
                }
            }
            j = j - 1;
        }
        proof {
            let s2 = v@.subrange(0, i + 1);
            assert forall|a: int, b: int| 0 <= a <= b < s2.len() implies #[trigger] s2[a].spec_tenths() <= #[trigger] s2[b].spec_tenths() by {
                assert(s2[a] == v@[a]);
                assert(s2[b] == v@[b]);
                if a != j && b == j && a < j {
                    assert(v@[a].spec_tenths() <= v@[j - 1].spec_tenths());
                }
            }
        }
        i = i + 1;
    }
    proof {
        assert(v@.subrange(0, n as int) =~= v@);
        assert forall|a: int, b: int| 0 <= a < b < v@.len() && #[trigger] v@[a].spec_tenths() == #[trigger] v@[b].spec_tenths()
            implies exists|i2: int, j2: int| 0 <= i2 < j2 < orig.len() && orig[i2] == v@[a] && orig[j2] == v@[b] by {
            assert(idx[a] < idx[b]);
            assert(orig[idx[a]] == v@[a]);
            assert(orig[idx[b]] == v@[b]);
        }
    }
}

/// Tries the techniques from the easiest on and applies what they find.
pub struct HumanSolver<V: BitSetInt> {
    pub methods: Vec<Technique>,
    pub current: usize,
    pub marker: PhantomData<V>,
}

impl<V: BitSetInt> HumanSolver<V> {
    /// The techniques in order of difficulty.
    pub open spec fn wf(&self) -> bool {
        &&& by_difficulty(self.methods@)
        &&& forall|t: Technique| Technique::spec_listed().contains(t) <==> #[trigger] self.methods@.contains(t)
    }

    /// A solver with every technique, easiest first.
    pub fn new() -> (r: HumanSolver<V>)
        ensures
            r.wf(),
            r.current == 0,
            r.methods.len() == Technique::spec_listed().len(),
            by_difficulty(r.methods@),
            forall|t: Technique| Technique::spec_listed().contains(t) <==> #[trigger] r.methods@.contains(t),
            keeps_ties(Technique::spec_listed(), r.methods@),
    {
        let mut methods = Technique::iterator();
        sort_by_difficulty(&mut methods);
        HumanSolver { methods, current: 0, marker: PhantomData }
    }

    /// A copy of the solver.
    pub fn clone_solver(&self) -> (r: HumanSolver<V>)
        ensures
            r.methods@ == self.methods@,
            r.current == self.current,
    {
        let mut methods: Vec<Technique> = Vec::new();
        for i in 0..self.methods.len()
            invariant
                methods@ == self.methods@.subrange(0, i as int),
        {
            methods.push(self.methods[i]);
            proof { assert(methods@ =~= self.methods@.subrange(0, i + 1)); }
        }
        proof { assert(methods@ =~= self.methods@); }
        HumanSolver { methods, current: self.current, marker: PhantomData }
    }

    /// The technique at place `ind` of the order, if any.
    pub fn method(&self, ind: usize) -> (r: Option<Technique>)
        ensures
            ind < self.methods.len() ==> r == Some(self.methods@[ind as int]),
            ind >= self.methods.len() ==> r is None,
    {
        if ind < self.methods.len() {
            Some(self.methods[ind])
        } else {
            None
        }
    }
}

impl<V: BitSetInt> Default for HumanSolver<V> {
    fn default() -> (r: Self)
        ensures
            r.wf(),
            r.current == 0,
    {
        HumanSolver::new()
    }
}

/// Every one bit of `y` is a one bit of `x`.
pub open spec fn bits_within(x: nat, y: nat) -> bool {
    forall|i: nat| #[trigger] bit_of(y, i) ==> bit_of(x, i)
}

/// `x` has a one bit that `y` lacks.
pub open spec fn bits_fewer(x: nat, y: nat) -> bool {
    exists|i: nat| #[trigger] bit_of(x, i) && !bit_of(y, i)
}

/// Fewer bits give no more ones, and strictly fewer when one is missing.
pub proof fn lemma_popcnt_subset(x: nat, y: nat)
    requires
        bits_within(x, y),
    ensures
        popcnt(y) <= popcnt(x),
        bits_fewer(x, y) ==> popcnt(y) < popcnt(x),
    decreases x,
{
    if x == 0 {
        assert forall|i: nat| !bit_of(x, i) by {
            lemma_zero_bits(i);
        }
        if y != 0 {
            lemma_low_bit(y);
            assert(bit_of(y, low_bit(y)));
        }
    } else {
        assert forall|i: nat| #[trigger] bit_of(y / 2, i) implies bit_of(x / 2, i) by {
            assert(bit_of(y, i + 1));
        }
        lemma_popcnt_subset(x / 2, y / 2);
        assert(bit_of(y, 0) ==> bit_of(x, 0));
        if bits_fewer(x, y) {
            let i = choose|i: nat| #[trigger] bit_of(x, i) && !bit_of(y, i);
            if i > 0 {
                assert(bit_of(x / 2, (i - 1) as nat) && !bit_of(y / 2, (i - 1) as nat));
                assert(bits_fewer(x / 2, y / 2));
            }
        }
    }
}

/// The number of possible values left over all the cells.
pub open spec fn poss_total<V: BitSetInt>(cells: Seq<Square<V>>) -> nat
    decreases cells.len(),
{
    if cells.len() == 0 {
        0
    } else {
        poss_total(cells.drop_last()) + popcnt(cells.last().flags.poss.0.spec_nat())
    }
}

/// Cells that lose possible values leave no more of them in all, and fewer when one cell
/// loses one.
pub proof fn lemma_poss_total_fewer<V: BitSetInt>(a: Seq<Square<V>>, b: Seq<Square<V>>)
    requires
        a.len() == b.len(),
        forall|j: int| 0 <= j < a.len() ==> bits_within(a[j].flags.poss.0.spec_nat(), #[trigger] b[j].flags.poss.0.spec_nat()),
    ensures
        poss_total(b) <= poss_total(a),
        (exists|j: int| 0 <= j < a.len() && bits_fewer(a[j].flags.poss.0.spec_nat(), #[trigger] b[j].flags.poss.0.spec_nat()))
            ==> poss_total(b) < poss_total(a),
    decreases a.len(),
{
    if a.len() > 0 {
        let n = a.len() - 1;
        let a2 = a.drop_last();
        let b2 = b.drop_last();
        assert forall|j: int| 0 <= j < a2.len() implies bits_within(a2[j].flags.poss.0.spec_nat(), #[trigger] b2[j].flags.poss.0.spec_nat()) by {
            assert(a2[j] == a[j]);
            assert(b2[j] == b[j]);
            assert(bits_within(a[j].flags.poss.0.spec_nat(), b[j].flags.poss.0.spec_nat()));
        }
        lemma_poss_total_fewer(a2, b2);
        assert(bits_within(a[n].flags.poss.0.spec_nat(), b[n].flags.poss.0.spec_nat()));
        lemma_popcnt_subset(a[n].flags.poss.0.spec_nat(), b[n].flags.poss.0.spec_nat());
        if exists|j: int| 0 <= j < a.len() && bits_fewer(a[j].flags.poss.0.spec_nat(), #[trigger] b[j].flags.poss.0.spec_nat()) {
            let j = choose|j: int| 0 <= j < a.len() && bits_fewer(a[j].flags.poss.0.spec_nat(), #[trigger] b[j].flags.poss.0.spec_nat());
            if j < n {
                assert(a2[j] == a[j]);
                assert(b2[j] == b[j]);
                assert(bits_fewer(a2[j].flags.poss.0.spec_nat(), b2[j].flags.poss.0.spec_nat()));
            }
        }
    }
}

/// A value of a record is among the values the records take out of its cell.
pub proof fn lemma_pots_for_has<V: BitSetInt>(pairs: Seq<IndexValuePair<BitSet<V>>>, k: int, v: nat)
    requires
        0 <= k < pairs.len(),
        pairs[k].value@.contains(v),
    ensures
        pots_for(pairs, pairs[k].index.inner_index as int).contains(v),
    decreases pairs.len(),
{
    if k < pairs.len() - 1 {
        assert(pairs.drop_last()[k] == pairs[k]);
        lemma_pots_for_has(pairs.drop_last(), k, v);
    }
}

/// Every move names one of the techniques, as its solver tags them.
pub open spec fn moves_named<V: BitSetInt>(methods: Seq<Technique>, moves: Seq<Move<V>>) -> bool {
    forall|k: int| 0 <= k < moves.len() ==> exists|i: int| 0 <= i < methods.len()
        && (#[trigger] moves[k]).method == Some(methods[i].solved_by())
}

/// Making a hint that the puzzle can take leaves fewer empty cells, or as many and fewer
/// possible values; the values in the cells stay.
proof fn lemma_hint_progress<V: BitSetInt>(before: Sudoku<V>, after: Sudoku<V>, h: Move<V>, t: Technique, m: Move<V>)
    requires
        before.wf(),
        after.wf(),
        tech_ok(before, h, t),
        applicable(before, h),
        h.value_set matches Some(p) ==> crate::sudoku::edit::set_done(before, after, p.index.inner_index as nat, p.value, h.method, m),
        h.value_set is None ==> crate::sudoku::edit::same_move(m, h) && crate::sudoku::edit::pots_removed(before, after, h),
    ensures
        after.unsolved < before.unsolved || (after.unsolved == before.unsolved && poss_total(after.cells()) < poss_total(before.cells())),
        after.grid.size == before.grid.size,
        after.cells().len() == before.cells().len(),
        forall|j: int| 0 <= j < before.cells().len() && (#[trigger] before.cells()[j]).value is Some ==> after.cells()[j].value == before.cells()[j].value,
        m.method == h.method,
{
    let size = before.grid.size;
    match h.value_set {
        Some(p) => {
            let t2 = p.index.inner_index as int;
            assert(cell_ok(before.cells()[t2], t2, size));
            assert(before.cells()[t2].flags.poss@.contains(p.value.spec_nat()));
            assert(before.cells()[t2].value is None);
            assert(crate::sudoku::edit::set_done(before, after, t2 as nat, p.value, h.method, m));
            assert forall|j: int| 0 <= j < before.cells().len() && (#[trigger] before.cells()[j]).value is Some
                implies after.cells()[j].value == before.cells()[j].value by {
                assert(j != t2);
                assert(after.cells()[j].value == before.cells()[j].value);
            }

        },
        None => {
            assert(t != Technique::Guess);
            let a = before.cells();
            let b = after.cells();
            let k = choose|k: int| 0 <= k < h.removed_potentials@.len() && (#[trigger] h.removed_potentials@[k]).value@ != Set::<nat>::empty();
            let pk = h.removed_potentials@[k];
            let v = pk.value@.choose();
            if !pk.value@.contains(v) {
                assert(pk.value@ =~= Set::<nat>::empty());
            }
            let j0 = pk.index.inner_index as int;
            lemma_pots_for_has(h.removed_potentials@, k, v);
            assert forall|j: int| 0 <= j < a.len() implies bits_within(a[j].flags.poss.0.spec_nat(), #[trigger] b[j].flags.poss.0.spec_nat()) by {
                assert forall|i: nat| #[trigger] bit_of(b[j].flags.poss.0.spec_nat(), i) implies bit_of(a[j].flags.poss.0.spec_nat(), i) by {
                    assert(values_of(b[j].flags.poss.0.spec_nat()).contains(i + 1));
                    assert(values_of(a[j].flags.poss.0.spec_nat()).contains(i + 1));
                }
            }
            assert(a[j0].flags.poss@.contains(v));
            assert(!b[j0].flags.poss@.contains(v));
            assert(values_of(a[j0].flags.poss.0.spec_nat()).contains(v));
            assert(bit_of(a[j0].flags.poss.0.spec_nat(), (v - 1) as nat));
            assert(!values_of(b[j0].flags.poss.0.spec_nat()).contains(v));
            assert(bits_fewer(a[j0].flags.poss.0.spec_nat(), b[j0].flags.poss.0.spec_nat()));
            lemma_poss_total_fewer(a, b);
            assert forall|j: int| 0 <= j < before.cells().len() && (#[trigger] before.cells()[j]).value is Some
                implies after.cells()[j].value == before.cells()[j].value by {
                assert(crate::sudoku::state::same_but_poss(a[j], b[j]));
            }
        },
    }
}

/// The techniques at places `0..i` of `methods` find no hint in the puzzle.
pub open spec fn none_before<V: BitSetInt>(methods: Seq<Technique>, puz: Sudoku<V>, i: int) -> bool {
    forall|j: int| 0 <= j < i ==> (#[trigger] methods[j]).spec_solver::<V>().spec_finds_nothing(puz)
}

/// The hint is one that the techniques at places `0..max`, tried in order, give first: the
/// technique at some place gives it and those before it find nothing.
pub open spec fn first_hint<V: BitSetInt>(methods: Seq<Technique>, puz: Sudoku<V>, m: Move<V>, max: int) -> bool {
    exists|i: int| 0 <= i < max && #[trigger] tech_ok(puz, m, methods[i].solved_by()) && none_before(methods, puz, i)
}

/// Making hint `h` on `before` gives `after` and the recorded move `m`.
pub open spec fn hint_step<V: BitSetInt>(before: Sudoku<V>, after: Sudoku<V>, h: Move<V>, m: Move<V>) -> bool {
    &&& applicable(before, h)
    &&& (h.value_set matches Some(p) ==> set_done(before, after, p.index.inner_index as nat, p.value, h.method, m))
    &&& (h.value_set is None ==> same_move(m, h) && pots_removed(before, after, h))
}

/// The puzzles `states` follow one another by making, each time, a hint that the techniques
/// at places `0..max`, in order, give first; `moves` records them.
pub open spec fn hint_run<V: BitSetInt>(methods: Seq<Technique>, max: int, states: Seq<Sudoku<V>>, hints: Seq<Move<V>>, moves: Seq<Move<V>>) -> bool {
    &&& states.len() == hints.len() + 1
    &&& moves.len() == hints.len()
    &&& forall|k: int| 0 <= k < hints.len() ==> first_hint(methods, states[k], #[trigger] hints[k], max)
        && hint_step(states[k], states[k + 1], hints[k], moves[k])
}

/// Making first hints of the techniques at places `0..max` from (a copy of) `puz` records
/// `moves` and ends in `last`.
pub open spec fn run_to<V: BitSetInt>(methods: Seq<Technique>, max: int, puz: Sudoku<V>, moves: Seq<Move<V>>, last: Sudoku<V>) -> bool {
    exists|states: Seq<Sudoku<V>>, hints: Seq<Move<V>>| #[trigger] hint_run(methods, max, states, hints, moves)
        && states[0].cells() == puz.cells() && states[0].grid.size == puz.grid.size
        && same_solution(states[0].solution, puz.solution) && states.last() == last
}

/// Making first hints from `puz` records `moves` and fills every cell, ending with `cells`.
pub open spec fn solved_by_run<V: BitSetInt>(methods: Seq<Technique>, puz: Sudoku<V>, moves: Seq<Move<V>>, cells: Seq<Square<V>>) -> bool {
    exists|last: Sudoku<V>| #[trigger] run_to(methods, methods.len() as int, puz, moves, last) && empty_count(last.cells()) == 0 && last.cells() == cells
}

/// Making first hints from `puz` reaches a puzzle with an empty cell where no technique finds
/// a hint, or where the first hint cannot be made.
pub open spec fn stuck_run<V: BitSetInt>(methods: Seq<Technique>, puz: Sudoku<V>) -> bool {
    exists|moves: Seq<Move<V>>, last: Sudoku<V>| #[trigger] run_to(methods, methods.len() as int, puz, moves, last) && empty_count(last.cells()) > 0
        && (none_before(methods, last, methods.len() as int)
            || exists|m: Move<V>| #[trigger] first_hint(methods, last, m, methods.len() as int) && !applicable(last, m))
}

/// No cell is empty.
pub open spec fn solved_state<V: BitSetInt>(puz: Sudoku<V>) -> bool {
    empty_count(puz.cells()) == 0
}

/// Where making hints with the techniques at places `0..max` stops: the puzzle is solved,
/// none of them finds a hint, or the hint they give first cannot be made or is of technique
/// `stop`.
pub open spec fn stops_at<V: BitSetInt>(methods: Seq<Technique>, puz: Sudoku<V>, max: int, stop: Option<Technique>) -> bool {
    ||| solved_state(puz)
    ||| none_before(methods, puz, max)
    ||| exists|m: Move<V>| #[trigger] first_hint(methods, puz, m, max)
        && (!applicable(puz, m) || (stop is Some && m.method == stop))
}

/// A first hint that the puzzle cannot take is the guess: the value of the unique solution in
/// the cell with the fewest possible values, not possible there.  Every other technique gives
/// only hints the puzzle can take.
pub proof fn lemma_unmakeable_hint_is_guess<V: BitSetInt>(methods: Seq<Technique>, puz: Sudoku<V>, m: Move<V>, max: int)
    requires
        first_hint(methods, puz, m, max),
        !applicable(puz, m),
    ensures
        crate::human_calcs::guess::guess_move(puz, m),
{
    let i = choose|i: int| 0 <= i < max && #[trigger] tech_ok(puz, m, methods[i].solved_by()) && none_before(methods, puz, i);
    assert(tech_ok(puz, m, methods[i].solved_by()));
}

/// The number of techniques that a place names, none when it names no place.
pub open spec fn up_to(place: Option<usize>) -> int {
    match place {
        Some(max) => max as int,
        None => 0,
    }
}

impl<V: BitSetInt> HumanSolver<V> {
    /// The first hint found by the techniques at places `0..max` of the order, tried from the
    /// easiest on; `None` when none of them finds one.
    fn next_bones(&self, puz: &Sudoku<V>, max: usize) -> (r: Option<Hint<V>>)
        requires
            puz.wf(),
            max <= self.methods.len(),
        ensures
            r matches Some(h) ==> exists|i: int| 0 <= i < max && #[trigger] tech_ok(*puz, h.0, self.methods@[i].solved_by()),
            r matches Some(h) ==> first_hint(self.methods@, *puz, h.0, max as int),
            r is None ==> none_before(self.methods@, *puz, max as int),
    {
        let mut current: usize = 0;
        while current < max
            invariant
                puz.wf(),
                max <= self.methods.len(),
                none_before(self.methods@, *puz, current as int),
            decreases max - current,
        {
            let solver: crate::human_calcs::technique::TechSolver<V> = self.methods[current].solver();
            if let Some(m) = solver.tech_hint(puz) {
                proof {
                    assert(tech_ok(*puz, m, self.methods@[current as int].solved_by()));
                    assert(first_hint(self.methods@, *puz, m, max as int));
                }
                return Some(Hint(m));
            } else {
                proof {
                    assert(solver.spec_finds_nothing(*puz));
                    assert(self.methods@[current as int].spec_solver::<V>().spec_finds_nothing(*puz));
                }
                current = current + 1;
            }
        }
        None
    }

    /// Returns the next hint.  Starts with the easiest technique and goes on to harder ones.
    pub fn next(&self, puz: &Sudoku<V>) -> (r: Option<Hint<V>>)
        requires
            puz.wf(),
        ensures
            r matches Some(h) ==> exists|i: int| 0 <= i < self.methods.len() && #[trigger] tech_ok(*puz, h.0, self.methods@[i].solved_by()),
            r matches Some(h) ==> first_hint(self.methods@, *puz, h.0, self.methods.len() as int),
            r is None ==> none_before(self.methods@, *puz, self.methods.len() as int),
    {
        self.next_bones(puz, self.methods.len())
    }

    /// Returns the next hint of the techniques before the one `technique` stands for.
    pub fn next_up_to<I: TechniqIndex>(&self, puz: &Sudoku<V>, technique: I) -> (r: Option<Hint<V>>)
        requires
            puz.wf(),
        ensures
            r matches Some(h) ==> exists|i: int| 0 <= i < self.methods.len() && #[trigger] tech_ok(*puz, h.0, self.methods@[i].solved_by()),
            r matches Some(h) ==> first_hint(self.methods@, *puz, h.0, up_to(technique.spec_index(self.methods@))),
            r is None ==> none_before(self.methods@, *puz, up_to(technique.spec_index(self.methods@))),
    {
        if let Some(max) = technique.tech_index(self.methods.as_slice()) {
            self.next_bones(puz, max)
        } else {
            None
        }
    }

    /// Solves a copy of the puzzle with hints, the easiest technique first each time: the
    /// grid it ends with and the moves made.  `HumanSolveError` when no technique finds a
    /// hint, or a hint cannot be made.  With every technique, a puzzle that can still take its
    /// unique solution is always solved, and solved to that solution.
    pub fn solve(&self, puz: &Sudoku<V>) -> (r: Result<(Grid<Square<V>>, Vec<Move<V>>), SudError>)
        requires
            puz.wf(),
        ensures
            r matches Ok(res) ==> {
                &&& res.0.size == puz.grid.size
                &&& cells_ok(res.0.items@, puz.grid.size)
                &&& empty_count(res.0.items@) == 0
                &&& no_clash(res.0.items@, puz.grid.size)
                &&& forall|j: int| 0 <= j < puz.cells().len() && (#[trigger] puz.cells()[j]).value is Some
                    ==> res.0.items@[j].value == puz.cells()[j].value
                &&& moves_named(self.methods@, res.1@)
            },
            r matches Err(e) ==> e == SudError::HumanSolveError,
            r matches Ok(res) ==> solved_by_run(self.methods@, *puz, res.1@, res.0.items@),
            r is Err ==> stuck_run(self.methods@, *puz),
            self.wf() && keeps_solution(*puz) ==> r is Ok && filled_as(r->Ok_0.0.items@, unique_grid(puz.solution)->Some_0),
    {
        let ghost kept = self.wf() && keeps_solution(*puz);
        let mut work = puz.clone_sudoku();
        proof {
            if kept {
                lemma_keeps_copy(*puz, work);
            }
        }
        let mut ret: Vec<Move<V>> = Vec::new();
        let ghost mut states: Seq<Sudoku<V>> = seq![work];
        let ghost mut hints: Seq<Move<V>> = Seq::empty();
        proof {
            assert(hint_run(self.methods@, self.methods.len() as int, states, hints, ret@));
        }
        while work.remaining() > 0
            invariant
                hint_run(self.methods@, self.methods.len() as int, states, hints, ret@),
                states[0].cells() == puz.cells(),
                states[0].grid.size == puz.grid.size,
                same_solution(states[0].solution, puz.solution),
                states.last() == work,
                work.wf(),
                work.grid.size == puz.grid.size,
                work.cells().len() == puz.cells().len(),
                forall|j: int| 0 <= j < puz.cells().len() && (#[trigger] puz.cells()[j]).value is Some
                    ==> work.cells()[j].value == puz.cells()[j].value,
                moves_named(self.methods@, ret@),
                kept == (self.wf() && keeps_solution(*puz)),
                kept ==> keeps_solution(work)
                    && same_entries(unique_grid(work.solution)->Some_0, unique_grid(puz.solution)->Some_0),
            decreases work.unsolved, poss_total(work.cells()),
        {
            if let Some(amove) = self.next(&work) {
                let ghost before = work;
                let ghost h = amove.0;
                let ghost i = choose|i: int| 0 <= i < self.methods.len() && #[trigger] tech_ok(before, h, self.methods@[i].solved_by());
                match amove.try_apply(&mut work) {
                    Ok(m) => {
                        proof {
                            lemma_hint_progress(before, work, h, self.methods@[i].solved_by(), m);
                            if kept {
                                lemma_step_keeps(before, work, h, m);
                            }
                        }
                        let ghost prev = ret@;
                        ret.push(m);
                        proof {
                            let old_states = states;
                            let old_hints = hints;
                            states = states.push(work);
                            hints = hints.push(h);
                            assert forall|k: int| 0 <= k < hints.len() implies first_hint(self.methods@, states[k], #[trigger] hints[k], self.methods.len() as int)
                                && hint_step(states[k], states[k + 1], hints[k], ret@[k]) by {
                                if k < old_hints.len() {
                                    assert(old_hints[k] == hints[k]);
                                    assert(states[k] == old_states[k] && states[k + 1] == old_states[k + 1]);
                                    assert(ret@[k] == prev[k]);
                                } else {
                                    assert(states[k] == before);
                                }
                            }
                        }
                        proof {
                            assert forall|k: int| 0 <= k < ret@.len() implies exists|i2: int| 0 <= i2 < self.methods.len()
                                && (#[trigger] ret@[k]).method == Some(self.methods@[i2].solved_by()) by {
                                if k < prev.len() {
                                    assert(ret@[k] == prev[k]);
                                } else {
                                    assert(ret@[k].method == Some(self.methods@[i].solved_by()));
                                }
                            }
                        }
                    },
                    Err(e) => {
                        proof {
                            assert(!applicable(work, h));
                            assert(first_hint(self.methods@, work, h, self.methods.len() as int));
                            assert(run_to(self.methods@, self.methods.len() as int, *puz, ret@, work));
                            if kept {
                                lemma_unmakeable_hint_is_guess(self.methods@, work, h, self.methods.len() as int);
                                let j = lemma_empty_cell(work.cells());
                                assert(work.cells()[j] == work.cells()[j]);
                                assert(work.cells()[j].flags.poss@.contains(gval(unique_grid(work.solution)->Some_0, j)));
                                crate::human_calcs::guess::lemma_guess_applicable(work, h, j);
                            }
                        }
                        return Err(e);
                    },
                }
            } else {
                proof {
                    assert(run_to(self.methods@, self.methods.len() as int, *puz, ret@, work));
                    if kept {
                        assert(self.methods@.contains(Technique::Guess));
                        let gi = choose|gi: int| 0 <= gi < self.methods.len() && self.methods@[gi] == Technique::Guess;
                        assert(self.methods@[gi].spec_solver::<V>().spec_finds_nothing(work));
                    }
                }
                return Err(SudError::HumanSolveError);
            }
        }
        proof {
            assert(empty_count(work.cells()) == 0);
        }
        let grid = work.grid;
        proof {
            assert(grid.items@ == work.cells());
            assert(grid.size == puz.grid.size);
            assert(cells_ok(grid.items@, puz.grid.size));
            assert(empty_count(grid.items@) == 0);
            assert(forall|j: int| 0 <= j < puz.cells().len() && (#[trigger] puz.cells()[j]).value is Some
                    ==> grid.items@[j].value == puz.cells()[j].value);
            assert(run_to(self.methods@, self.methods.len() as int, *puz, ret@, work));
            if kept {
                crate::sudoku::state::lemma_empty_count_zero(work.cells());
                assert forall|i: int| 0 <= i < grid.items@.len() implies ((#[trigger] grid.items@[i]).value matches Some(b)
                    && b@ == gval(unique_grid(puz.solution)->Some_0, i)) by {
                    assert(work.cells()[i] == grid.items@[i]);
                    assert(unique_grid(work.solution)->Some_0.items[i].spec_nat() == unique_grid(puz.solution)->Some_0.items[i].spec_nat());
                }
            }
        }
        Ok((grid, ret))
    }

    /// Makes hints on the puzzle until it is solved, no hint is found or cannot be made, or
    /// the next hint is one of `technique`; no hint of `technique` is made.
    pub fn solve_to(&self, puz: &mut Sudoku<V>, technique: Technique)
        requires
            old(puz).wf(),
        ensures
            final(puz).wf(),
            final(puz).grid.size == old(puz).grid.size,
            forall|j: int| 0 <= j < old(puz).cells().len() && (#[trigger] old(puz).cells()[j]).value is Some
                ==> final(puz).cells()[j].value == old(puz).cells()[j].value,
            stops_at(self.methods@, *final(puz), self.methods.len() as int, Some(technique)),
            exists|moves: Seq<Move<V>>| #[trigger] run_to(self.methods@, self.methods.len() as int, *old(puz), moves, *final(puz))
                && forall|k: int| 0 <= k < moves.len() ==> (#[trigger] moves[k]).method != Some(technique),
    {
        let ghost start = *puz;
        let ghost mut states: Seq<Sudoku<V>> = seq![start];
        let ghost mut hints: Seq<Move<V>> = Seq::empty();
        let ghost mut mvs: Seq<Move<V>> = Seq::empty();
        proof {
            assert(hint_run(self.methods@, self.methods.len() as int, states, hints, mvs));
        }
        while !puz.is_solved()
            invariant
                hint_run(self.methods@, self.methods.len() as int, states, hints, mvs),
                states[0] == start,
                states.last() == *puz,
                start == *old(puz),
                puz.wf(),
                puz.grid.size == start.grid.size,
                puz.cells().len() == start.cells().len(),
                forall|j: int| 0 <= j < start.cells().len() && (#[trigger] start.cells()[j]).value is Some
                    ==> puz.cells()[j].value == start.cells()[j].value,
                forall|k: int| 0 <= k < mvs.len() ==> (#[trigger] mvs[k]).method != Some(technique),
            decreases puz.unsolved, poss_total(puz.cells()),
        {
            if let Some(m) = self.next(puz) {
                if *m.inner().technique() == Some(technique) {
                    proof {
                        assert(first_hint(self.methods@, *puz, m.0, self.methods.len() as int));
                        assert(run_to(self.methods@, self.methods.len() as int, start, mvs, *puz));
                    }
                    return;
                }
                let ghost before = *puz;
                let ghost h = m.0;
                let ghost i = choose|i: int| 0 <= i < self.methods.len() && #[trigger] tech_ok(before, h, self.methods@[i].solved_by());
                match m.try_apply(puz) {
                    Ok(mv) => {
                        proof {
                            lemma_hint_progress(before, *puz, h, self.methods@[i].solved_by(), mv);
                            let old_states = states;
                            let old_hints = hints;
                            let old_mvs = mvs;
                            states = states.push(*puz);
                            hints = hints.push(h);
                            mvs = mvs.push(mv);
                            assert forall|k: int| 0 <= k < mvs.len() implies (#[trigger] mvs[k]).method != Some(technique) by {
                                if k < old_mvs.len() {
                                    assert(mvs[k] == old_mvs[k]);
                                }
                            }
                            assert forall|k: int| 0 <= k < hints.len() implies first_hint(self.methods@, states[k], #[trigger] hints[k], self.methods.len() as int)
                                && hint_step(states[k], states[k + 1], hints[k], mvs[k]) by {
                                if k < old_hints.len() {
                                    assert(old_hints[k] == hints[k]);
                                    assert(states[k] == old_states[k] && states[k + 1] == old_states[k + 1]);
                                    assert(mvs[k] == old_mvs[k]);
                                } else {
                                    assert(states[k] == before);
                                }
                            }
                        }
                    },
                    Err(_) => {
                        proof {
                            assert(run_to(self.methods@, self.methods.len() as int, start, mvs, *puz));
                            assert(first_hint(self.methods@, *puz, h, self.methods.len() as int));
                            assert(!applicable(*puz, h));
                        }
                        return;
                    },
                }
            } else {
                proof {
                    assert(run_to(self.methods@, self.methods.len() as int, start, mvs, *puz));
                }
                return;
            }
        }
        proof {
            assert(run_to(self.methods@, self.methods.len() as int, start, mvs, *puz));
        }
    }

    /// Makes hints of the techniques before `technique` on the puzzle until it is solved, or
    /// none is found or can be made.
    pub fn solve_up_to(&self, puz: &mut Sudoku<V>, technique: Technique)
        requires
            old(puz).wf(),
        ensures
            final(puz).wf(),
            final(puz).grid.size == old(puz).grid.size,
            forall|j: int| 0 <= j < old(puz).cells().len() && (#[trigger] old(puz).cells()[j]).value is Some
                ==> final(puz).cells()[j].value == old(puz).cells()[j].value,
            stops_at(self.methods@, *final(puz), up_to(technique.spec_index(self.methods@)), None),
            exists|moves: Seq<Move<V>>| #[trigger] run_to(self.methods@, up_to(technique.spec_index(self.methods@)), *old(puz), moves, *final(puz)),
    {
        let ghost start = *puz;
        let ghost mut states: Seq<Sudoku<V>> = seq![start];
        let ghost mut hints: Seq<Move<V>> = Seq::empty();
        let ghost mut mvs: Seq<Move<V>> = Seq::empty();
        proof {
            assert(hint_run(self.methods@, up_to(technique.spec_index(self.methods@)), states, hints, mvs));
        }
        while !puz.is_solved()
            invariant
                hint_run(self.methods@, up_to(technique.spec_index(self.methods@)), states, hints, mvs),
                states[0] == start,
                states.last() == *puz,
                start == *old(puz),
                puz.wf(),
                puz.grid.size == start.grid.size,
                puz.cells().len() == start.cells().len(),
                forall|j: int| 0 <= j < start.cells().len() && (#[trigger] start.cells()[j]).value is Some
                    ==> puz.cells()[j].value == start.cells()[j].value,
            decreases puz.unsolved, poss_total(puz.cells()),
        {
            if let Some(m) = self.next_up_to(puz, technique) {
                let ghost before = *puz;
                let ghost h = m.0;
                let ghost i = choose|i: int| 0 <= i < self.methods.len() && #[trigger] tech_ok(before, h, self.methods@[i].solved_by());
                match m.try_apply(puz) {
                    Ok(mv) => {
                        proof {
                            lemma_hint_progress(before, *puz, h, self.methods@[i].solved_by(), mv);
                            let old_states = states;
                            let old_hints = hints;
                            let old_mvs = mvs;
                            states = states.push(*puz);
                            hints = hints.push(h);
                            mvs = mvs.push(mv);
                            assert forall|k: int| 0 <= k < hints.len() implies first_hint(self.methods@, states[k], #[trigger] hints[k], up_to(technique.spec_index(self.methods@)))
                                && hint_step(states[k], states[k + 1], hints[k], mvs[k]) by {
                                if k < old_hints.len() {
                                    assert(old_hints[k] == hints[k]);
                                    assert(states[k] == old_states[k] && states[k + 1] == old_states[k + 1]);
                                    assert(mvs[k] == old_mvs[k]);
                                } else {
                                    assert(states[k] == before);
                                }
                            }
                        }
                    },
                    Err(_) => {
                        proof {
                            assert(run_to(self.methods@, up_to(technique.spec_index(self.methods@)), start, mvs, *puz));
                            assert(first_hint(self.methods@, *puz, h, up_to(technique.spec_index(self.methods@))));
                            assert(!applicable(*puz, h));
                        }
                        return;
                    },
                }
            } else {
                proof {
                    assert(run_to(self.methods@, up_to(technique.spec_index(self.methods@)), start, mvs, *puz));
                }
                return;
            }
        }
        proof {
            assert(run_to(self.methods@, up_to(technique.spec_index(self.methods@)), start, mvs, *puz));
        }
    }
}

/// The names of the techniques, as a developer sees them, separated by `, `.
pub open spec fn names_text(ts: Seq<Technique>) -> Seq<char>
    decreases ts.len(),
{
    if ts.len() == 0 {
        Seq::<char>::empty()
    } else if ts.len() == 1 {
        ts[0].debug_name()
    } else {
        names_text(ts.drop_last()) + ", "@ + ts.last().debug_name()
    }
}

/// The text of a solver as a developer sees it: its techniques in order and its place.
pub open spec fn solver_text(methods: Seq<Technique>, current: nat) -> Seq<char> {
    "HumanSolver:\nmethods: ["@ + names_text(methods) + "]\ncurrent: "@ + decimal(current)
}

impl<V: BitSetInt> HumanSolver<V> {
    /// The solver's techniques in order and its place, as a developer sees them.
    pub fn debug_text(&self) -> (r: String)
        ensures
            r@ == solver_text(self.methods@, self.current as nat),
    {
        let mut s = String::new();
        push_text(&mut s, "HumanSolver:\nmethods: [");
        let ghost head = s@;
        let n = self.methods.len();
        for i in 0..n
            invariant
                n == self.methods@.len(),
                s@ == head + names_text(self.methods@.subrange(0, i as int)),
        {
            if i > 0 {
                push_text(&mut s, ", ");
            }
            self.methods[i].push_debug_name(&mut s);
            proof {
                let sub = self.methods@.subrange(0, i + 1);
                assert(sub.drop_last() =~= self.methods@.subrange(0, i as int));
                if i == 0 {
                    assert(self.methods@.subrange(0, 0 as int) =~= Seq::<Technique>::empty());
                }
                assert(s@ =~= head + names_text(sub));
            }
        }
        push_text(&mut s, "]\ncurrent: ");
        push_decimal(&mut s, self.current as u128);
        proof {
            assert(self.methods@.subrange(0, n as int) =~= self.methods@);
            assert(s@ =~= solver_text(self.methods@, self.current as nat));
        }
        s
    }
}

} // verus!
