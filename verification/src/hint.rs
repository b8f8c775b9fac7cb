use vstd::prelude::*;
use crate::bitset::traits::BitSetInt;
use crate::bitset::bitset::BitSet;
use crate::errors::SudError;
use crate::move_change::{Move, IndexValuePair};
use crate::bitset::bit::Bit;
use crate::sudoku::edit::{same_move, set_done, pots_removed, pot_removed, fits_width};
use crate::sudoku::state::{pots_for, same_but_poss, lemma_pots_push, empty_count};
use crate::bitset::bitsetiter::{asc_from, lemma_asc_from_contains, lemma_asc_from_increasing};
use crate::square::square::Square;
use crate::sudoku::state::cell_ok;
use crate::sudoku::sudoku::Sudoku;

verus! {

/// Every record of `pairs` names a cell of `cells` and only values still possible there.
pub open spec fn removals_fit<V: BitSetInt>(cells: Seq<crate::square::square::Square<V>>, pairs: Seq<IndexValuePair<BitSet<V>>>) -> bool {
    forall|k: int| 0 <= k < pairs.len() ==> (#[trigger] pairs[k]).index.inner_index < cells.len()
        && pairs[k].value@.subset_of(cells[pairs[k].index.inner_index as int].flags.poss@)
}

/// The move can be made on the puzzle: the value it sets is possible in its cell, or the
/// values it takes out are possible in theirs.
pub open spec fn applicable<V: BitSetInt>(s: Sudoku<V>, m: Move<V>) -> bool {
    match m.value_set {
        Some(p) => p.index.inner_index < s.cells().len()
            && s.cells()[p.index.inner_index as int].flags.poss@.contains(p.value.spec_nat()),
        None => removals_fit(s.cells(), m.removed_potentials@),
    }
}

/// A move that has not been made yet.  Applying the hint makes it.
#[derive(Debug, Clone)]
pub struct Hint<V: BitSetInt>(pub Move<V>);

impl<V: BitSetInt> Sudoku<V> {
    /// Whether the move can be made on the puzzle.
    pub fn is_applicable(&self, m: &Move<V>) -> (r: bool)
        requires
            self.wf(),
        ensures
            r == applicable(*self, *m),
    {
        match m.value_set {
            Some(p) => {
                let t = p.index.inner_index;
                if t >= self.grid.items.len() {
                    return false;
                }
                proof {
                    assert(cell_ok(self.cells()[t as int], t as int, self.grid.size));
                    self.grid.size.lemma_sizes();
                }
                if !fits_width(p.value) {
                    return false;
                }
                self.grid.items[t].poss_contains(Bit::from_value(p.value))
            },
            None => {
                let n = self.grid.items.len();
                for k in 0..m.removed_potentials.len()
                    invariant
                        n == self.grid.items.len(),
                        m.value_set is None,
                        forall|q: int| 0 <= q < k ==> (#[trigger] m.removed_potentials@[q]).index.inner_index < n
                            && m.removed_potentials@[q].value@.subset_of(self.cells()[m.removed_potentials@[q].index.inner_index as int].flags.poss@),
                {
                    let pair = m.removed_potentials[k];
                    let t = pair.index.inner_index;
                    proof {
                        assert(m.removed_potentials@[k as int] == pair);
                    }
                    if t >= n {
                        return false;
                    }
                    let rest = pair.value.difference(*self.grid.items[t].poss());
                    if !rest.eq_set(BitSet::empty()) {
                        proof {
                            assert(!pair.value@.subset_of(self.cells()[t as int].flags.poss@)) by {
                                assert(rest@ != Set::<nat>::empty());
                                let x = rest@.choose();
                                if pair.value@.subset_of(self.cells()[t as int].flags.poss@) {
                                    assert(rest@ =~= Set::<nat>::empty());
                                }
                            }
                        }
                        return false;
                    }
                    proof {
                        assert(pair.value@.subset_of(self.cells()[t as int].flags.poss@)) by {
                            assert forall|x: nat| pair.value@.contains(x) implies self.cells()[t as int].flags.poss@.contains(x) by {
                                if !self.cells()[t as int].flags.poss@.contains(x) {
                                    assert(rest@.contains(x));
                                }
                            }
                        }
                    }
                }
                true
            },
        }
    }
}

impl<V: BitSetInt> Hint<V> {
    /// The move the hint stands for.
    pub fn inner(&self) -> (r: &Move<V>)
        ensures
            *r == self.0,
    {
        &self.0
    }

    /// Consumes the hint, applies it to the puzzle and returns the move made: the value it
    /// names is set, with its technique, or the values it names are taken out.
    pub fn apply(self, sudoku: &mut Sudoku<V>) -> (r: Move<V>)
        requires
            old(sudoku).wf(),
            applicable(*old(sudoku), self.0),
        ensures
            final(sudoku).wf(),
            self.0.value_set matches Some(p) ==> set_done(*old(sudoku), *final(sudoku), p.index.inner_index as nat, p.value, self.0.method, r),
            self.0.value_set is None ==> same_move(r, self.0) && pots_removed(*old(sudoku), *final(sudoku), self.0),
    {
        match self.0.value_set {
            Some(value) => {
                let tech = *self.0.technique();
                match sudoku.set_with_technique(value.index(), *value.value(), tech) {
                    Ok(m) => m,
                    Err(_) => {
                        proof { assert(false); }
                        Move::new()
                    },
                }
            },
            None => {
                match sudoku.remove_potentials_from_hint(self) {
                    Ok(m) => m,
                    Err(_) => {
                        proof { assert(false); }
                        Move::new()
                    },
                }
            },
        }
    }

    /// Applies the hint if it can be made on the puzzle; `SudError::HumanSolveError` (and the
    /// puzzle unchanged) when it cannot.
    pub fn try_apply(self, sudoku: &mut Sudoku<V>) -> (r: Result<Move<V>, SudError>)
        requires
            old(sudoku).wf(),
        ensures
            final(sudoku).wf(),
            !applicable(*old(sudoku), self.0) ==> r == Err::<Move<V>, SudError>(SudError::HumanSolveError) && *final(sudoku) == *old(sudoku),
            applicable(*old(sudoku), self.0) ==> (r matches Ok(m) && (self.0.value_set matches Some(p)
                ==> set_done(*old(sudoku), *final(sudoku), p.index.inner_index as nat, p.value, self.0.method, m))
                && (self.0.value_set is None ==> same_move(m, self.0) && pots_removed(*old(sudoku), *final(sudoku), self.0))),
    {
        if sudoku.is_applicable(&self.0) {
            Ok(self.apply(sudoku))
        } else {
            Err(SudError::HumanSolveError)
        }
    }
}

/// No two records of the move name the same cell.
pub open spec fn distinct_records<V: BitSetInt>(m: Move<V>) -> bool {
    forall|k1: int, k2: int| 0 <= k1 < k2 < m.removed_potentials@.len()
        ==> (#[trigger] m.removed_potentials@[k1]).index.inner_index != (#[trigger] m.removed_potentials@[k2]).index.inner_index
}

/// The values at the first `i` places of the list.
pub open spec fn first_of(vals: Seq<nat>, i: int) -> Set<nat> {
    Set::new(|x: nat| exists|q: int| 0 <= q < i && vals[q] == x)
}

impl<V: BitSetInt> Move<V> {
    /// Makes the move on the puzzle: the value it names is set with its technique, or each
    /// value it takes out is taken out by hand, one move each.  Returns the move made when a
    /// value is set, else the move itself.
    pub fn apply(self, puz: &mut Sudoku<V>) -> (r: Move<V>)
        requires
            old(puz).wf(),
            applicable(*old(puz), self),
            self.value_set is None ==> distinct_records(self),
        ensures
            final(puz).wf(),
            self.value_set matches Some(p) ==> set_done(*old(puz), *final(puz), p.index.inner_index as nat, p.value, self.method, r),
            self.value_set is None ==> same_move(r, self) && final(puz).grid.size == old(puz).grid.size
                && final(puz).cells().len() == old(puz).cells().len()
                && (forall|j: int| 0 <= j < final(puz).cells().len() ==> #[trigger] same_but_poss(old(puz).cells()[j], final(puz).cells()[j]))
                && (forall|j: int| 0 <= j < final(puz).cells().len() ==> (#[trigger] final(puz).cells()[j]).flags.poss@
                    == old(puz).cells()[j].flags.poss@.difference(pots_for(self.removed_potentials@, j)))
                && final(puz).unsolved == old(puz).unsolved
                && final(puz).moves@.len() >= old(puz).moves@.len(),
    {
        match self.value_set {
            Some(value) => {
                match puz.set_with_technique(value.index, value.value, self.method) {
                    Ok(m) => {
                        return m;
                    },
                    Err(_) => {
                        proof { assert(false); }
                        return Move::new();
                    },
                }
            },
            None => {},
        }
        let ghost start = puz.cells();
        let ghost pairs = self.removed_potentials@;
        let ghost size = puz.grid.size;
        for k in 0..self.removed_potentials.len()
            invariant
                puz.wf(),
                pairs == self.removed_potentials@,
                removals_fit(start, pairs),
                distinct_records(self),
                puz.grid.size == size,
                puz.cells().len() == start.len(),
                start.len() == size.spec_total(),
                forall|j: int| 0 <= j < start.len() ==> #[trigger] same_but_poss(start[j], puz.cells()[j]),
                forall|j: int| 0 <= j < start.len() ==> (#[trigger] puz.cells()[j]).flags.poss@
                    == start[j].flags.poss@.difference(pots_for(pairs.subrange(0, k as int), j)),
                puz.unsolved == old(puz).unsolved,
                puz.moves@.len() >= old(puz).moves@.len(),
                old(puz).cells() == start,
        {
            let pair = self.removed_potentials[k];
            let t = pair.index.inner_index;
            proof {
                assert(pairs[k as int] == pair);
                assert(pairs.subrange(0, k + 1) =~= pairs.subrange(0, k as int).push(pair));
                assert(pots_for(pairs.subrange(0, k as int), t as int) =~= Set::<nat>::empty()) by {
                    lemma_pots_other(pairs, k as int, t as int);
                }
                V::lemma_range(pair.value.0);
            }
            let bits = pair.value.to_bits();
            let ghost mid = puz.cells();
            let ghost vals = asc_from(pair.value.0.spec_nat(), 1, V::width());
            for i in 0..bits.len()
                invariant
                    puz.wf(),
                    bits.len() == vals.len(),
                    forall|q: int| 0 <= q < bits.len() ==> bits[q].wf() && #[trigger] bits[q]@ == vals[q],
                    vals == asc_from(pair.value.0.spec_nat(), 1, V::width()),
                    puz.grid.size == size,
                    puz.cells().len() == start.len(),
                    t < start.len(),
                    pair.value@.subset_of(start[t as int].flags.poss@),
                    mid.len() == start.len(),
                    mid[t as int].flags.poss@ == start[t as int].flags.poss@,
                    forall|j: int| 0 <= j < start.len() && j != t ==> #[trigger] puz.cells()[j] == mid[j],
                    same_but_poss(mid[t as int], puz.cells()[t as int]),
                    puz.cells()[t as int].flags.poss@ == mid[t as int].flags.poss@.difference(first_of(vals, i as int)),
                    puz.unsolved == old(puz).unsolved,
                    puz.moves@.len() >= old(puz).moves@.len(),
            {
                let v = bits[i].to_value();
                proof {
                    lemma_asc_from_contains(pair.value.0.spec_nat(), 1, V::width(), vals[i as int]);
                    assert(pair.value@.contains(v.spec_nat()));
                    assert(!first_of(vals, i as int).contains(v.spec_nat())) by {
                        if first_of(vals, i as int).contains(v.spec_nat()) {
                            let q = choose|q: int| 0 <= q < i && vals[q] == v.spec_nat();
                            lemma_asc_from_increasing(pair.value.0.spec_nat(), 1, V::width(), q, i as int);
                        }
                    }
                    size.lemma_sizes();
                }
                let ghost before = puz.cells();
                let res = puz.remove_potential(t, v);
                proof {
                    assert(first_of(vals, i + 1) =~= first_of(vals, i as int).insert(v.spec_nat())) by {
                        assert forall|x: nat| first_of(vals, i + 1).contains(x) implies first_of(vals, i as int).insert(v.spec_nat()).contains(x) by {
                            let q = choose|q: int| 0 <= q < i + 1 && vals[q] == x;
                            if q < i {
                                assert(first_of(vals, i as int).contains(x));
                            }
                        }
                        assert forall|x: nat| first_of(vals, i as int).insert(v.spec_nat()).contains(x) implies first_of(vals, i + 1).contains(x) by {
                            if x == v.spec_nat() {
                                assert(vals[i as int] == x);
                            } else {
                                let q = choose|q: int| 0 <= q < i && vals[q] == x;
                                assert(0 <= q < i + 1 && vals[q] == x);
                            }
                        }
                    }
                    assert(puz.cells()[t as int].flags.poss@ =~= mid[t as int].flags.poss@.difference(first_of(vals, i + 1)));
                }
            }
            proof {
                assert(first_of(vals, vals.len() as int) =~= pair.value@) by {
                    assert forall|x: nat| first_of(vals, vals.len() as int).contains(x) <==> pair.value@.contains(x) by {
                        lemma_asc_from_contains(pair.value.0.spec_nat(), 1, V::width(), x);
                        if pair.value@.contains(x) {
                            crate::bitset::bitset::lemma_values_bounded(pair.value.0);
                            assert(vals.contains(x));
                            let q = choose|q: int| 0 <= q < vals.len() && vals[q] == x;
                            assert(first_of(vals, vals.len() as int).contains(x));
                        }
                        if first_of(vals, vals.len() as int).contains(x) {
                            let q = choose|q: int| 0 <= q < vals.len() && vals[q] == x;
                            assert(vals.contains(x));
                        }
                    }
                }
                assert forall|j: int| 0 <= j < start.len() implies #[trigger] same_but_poss(start[j], puz.cells()[j]) by {
                    assert(same_but_poss(start[j], mid[j]));
                }
                assert forall|j: int| 0 <= j < start.len() implies (#[trigger] puz.cells()[j]).flags.poss@
                    == start[j].flags.poss@.difference(pots_for(pairs.subrange(0, k + 1), j)) by {
                    lemma_pots_push(pairs.subrange(0, k as int), pair, j);
                    assert(same_but_poss(start[j], mid[j]));
                    if j == t {
                        assert(puz.cells()[j].flags.poss@ =~= start[j].flags.poss@.difference(pots_for(pairs.subrange(0, k + 1), j)));
                    } else {
                        assert(puz.cells()[j].flags.poss@ =~= start[j].flags.poss@.difference(pots_for(pairs.subrange(0, k + 1), j)));
                    }
                }
            }
        }
        proof {
            assert(pairs.subrange(0, pairs.len() as int) =~= pairs);
        }
        self
    }
}

/// A cell named by no record before place `k` loses nothing to those records.
proof fn lemma_pots_other<V: BitSetInt>(pairs: Seq<IndexValuePair<BitSet<V>>>, k: int, t: int)
    requires
        0 <= k < pairs.len(),
        pairs[k].index.inner_index == t,
        forall|k1: int, k2: int| 0 <= k1 < k2 < pairs.len() ==> (#[trigger] pairs[k1]).index.inner_index != (#[trigger] pairs[k2]).index.inner_index,
    ensures
        pots_for(pairs.subrange(0, k), t) == Set::<nat>::empty(),
    decreases k,
{
    if k > 0 {
        let s = pairs.subrange(0, k);
        assert(s.drop_last() =~= pairs.subrange(0, k - 1));
        lemma_pots_other_prefix(pairs, k, k - 1, t);
    } else {
        assert(pairs.subrange(0, 0) =~= Seq::<IndexValuePair<BitSet<V>>>::empty());
    }
}

/// The records before place `m` (below `k`) take nothing out of the cell of record `k`.
proof fn lemma_pots_other_prefix<V: BitSetInt>(pairs: Seq<IndexValuePair<BitSet<V>>>, k: int, m: int, t: int)
    requires
        0 <= m < k < pairs.len(),
        pairs[k].index.inner_index == t,
        forall|k1: int, k2: int| 0 <= k1 < k2 < pairs.len() ==> (#[trigger] pairs[k1]).index.inner_index != (#[trigger] pairs[k2]).index.inner_index,
    ensures
        pots_for(pairs.subrange(0, m + 1), t) == Set::<nat>::empty(),
    decreases m,
{
    let s = pairs.subrange(0, m + 1);
    assert(s.drop_last() =~= pairs.subrange(0, m));
    assert(s.last() == pairs[m]);
    assert(pairs[m].index.inner_index != pairs[k].index.inner_index);
    let prev = pots_for(pairs.subrange(0, m), t);
    if m > 0 {
        lemma_pots_other_prefix(pairs, k, m - 1, t);
        assert(pairs.subrange(0, (m - 1) + 1) == pairs.subrange(0, m));
    } else {
        assert(pairs.subrange(0, 0).len() == 0);
    }
    assert(prev == Set::<nat>::empty());
    assert(pots_for(s, t) == prev.union(Set::<nat>::empty()));
    assert(pots_for(s, t) =~= Set::<nat>::empty());
}

} // verus!
