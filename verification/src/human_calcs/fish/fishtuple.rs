use vstd::prelude::*;
use crate::bitset::traits::{BitSetInt, popcnt, bit_of, lemma_popcnt_add_bit};
use crate::bitset::bit::Bit;
use crate::bitset::bitset::{BitSet, values_of};
use crate::bitset::bitsetiter::asc_from;
use crate::grid::gridcoord::lemma_rc;
use crate::grid::types::{cell_row, cell_col, row_of, col_of};
use crate::sudoku::sudoku::Sudoku;
use crate::sudokusize::SudokuSize;

verus! {

/// Cell `s` of line `i`: of row `i` when `row`, else of column `i`.
pub open spec fn line_cell(size: SudokuSize, row: bool, i: nat, s: nat) -> nat {
    if row {
        cell_row(size, i, s)
    } else {
        cell_col(size, i, s)
    }
}

/// Value `val` may stand at place `p` of line `x`, both counted from one.
pub open spec fn may_hold<V: BitSetInt>(puz: Sudoku<V>, row: bool, val: nat, x: nat, p: nat) -> bool {
    puz.cells()[line_cell(puz.grid.size, row, (x - 1) as nat, (p - 1) as nat) as int].flags.poss@.contains(val)
}

/// Where a cell of a line lies: inside the grid, and at its row and column.
pub proof fn lemma_line_cell(size: SudokuSize, row: bool, i: nat, s: nat)
    requires
        i < size.spec_house(),
        s < size.spec_house(),
    ensures
        line_cell(size, row, i, s) < size.spec_total(),
        row_of(size, line_cell(size, row, i, s)) == if row { i } else { s },
        col_of(size, line_cell(size, row, i, s)) == if row { s } else { i },
{
    if row {
        lemma_rc(size, i, s);
    } else {
        lemma_rc(size, s, i);
    }
}

/// Two places of lines of the same direction are one cell only when they are the same place.
pub proof fn lemma_line_cell_inj(size: SudokuSize, row: bool, i: nat, s: nat, j: nat, t: nat)
    requires
        i < size.spec_house(),
        s < size.spec_house(),
        j < size.spec_house(),
        t < size.spec_house(),
        line_cell(size, row, i, s) == line_cell(size, row, j, t),
    ensures
        i == j,
        s == t,
{
    lemma_line_cell(size, row, i, s);
    lemma_line_cell(size, row, j, t);
}

/// Adding a value that was not there adds one to the count.
pub proof fn lemma_popcnt_insert_value<T: BitSetInt>(x: BitSet<T>, y: BitSet<T>, v: nat)
    requires
        v >= 1,
        !x@.contains(v),
        y@ == x@.insert(v),
    ensures
        popcnt(y.0.spec_nat()) == popcnt(x.0.spec_nat()) + 1,
{
    let k = (v - 1) as nat;
    assert(values_of(x.0.spec_nat()).contains(v) == bit_of(x.0.spec_nat(), k));
    assert forall|i: nat| #[trigger] bit_of(y.0.spec_nat(), i) == (bit_of(x.0.spec_nat(), i) || i == k) by {
        assert(values_of(y.0.spec_nat()).contains(i + 1) == bit_of(y.0.spec_nat(), i));
        assert(values_of(x.0.spec_nat()).contains(i + 1) == bit_of(x.0.spec_nat(), i));
        assert(y@.contains(i + 1) == (x@.contains(i + 1) || i + 1 == v));
    }
    lemma_popcnt_add_bit(x.0.spec_nat(), y.0.spec_nat(), k);
}

/// One value in a set counted by `popcnt` as one is the only value.
pub proof fn lemma_popcnt_one(x: nat, a: nat, b: nat)
    requires
        popcnt(x) == 1,
        bit_of(x, a),
        bit_of(x, b),
    ensures
        a == b,
    decreases x,
{
    if x % 2 == 1 {
        crate::bitset::traits::lemma_popcnt_zero(x / 2);
        if a > 0 {
            assert(bit_of(x / 2, (a - 1) as nat));
        }
        if b > 0 {
            assert(bit_of(x / 2, (b - 1) as nat));
        }
    } else {
        assert(x != 0);
        lemma_popcnt_one(x / 2, (a - 1) as nat, (b - 1) as nat);
    }
}

/// A set counted as one holds a single value.
pub proof fn lemma_single_value<T: BitSetInt>(s: BitSet<T>, a: nat, b: nat)
    requires
        popcnt(s.0.spec_nat()) == 1,
        s@.contains(a),
        s@.contains(b),
    ensures
        a == b,
{
    assert(values_of(s.0.spec_nat()).contains(a));
    assert(values_of(s.0.spec_nat()).contains(b));
    lemma_popcnt_one(s.0.spec_nat(), (a - 1) as nat, (b - 1) as nat);
}

/// A set counting at least one value lists a first value, and holds it.
pub proof fn lemma_first_value<T: BitSetInt>(s: BitSet<T>)
    requires
        popcnt(s.0.spec_nat()) >= 1,
    ensures
        asc_from(s.0.spec_nat(), 1, T::width()).len() > 0,
        s@.contains(asc_from(s.0.spec_nat(), 1, T::width())[0]),
{
    let x = s.0.spec_nat();
    assert(x != 0);
    crate::human_calcs::hints::lemma_nonzero_values(s.0);
    let sq = asc_from(x, 1, T::width());
    assert(sq.contains(sq[0]));
    crate::bitset::bitsetiter::lemma_asc_from_contains(x, 1, T::width(), sq[0]);
    assert(values_of(x).contains(sq[0]));
}

/// A set of a value holds it, and counts at least one.
pub proof fn lemma_holds_counts<T: BitSetInt>(s: BitSet<T>, v: nat)
    requires
        s@.contains(v),
    ensures
        popcnt(s.0.spec_nat()) >= 1,
{
    let x = s.0.spec_nat();
    assert(values_of(x).contains(v));
    if x == 0 {
        crate::bitset::traits::lemma_zero_bits((v - 1) as nat);
    }
    if popcnt(x) == 0 {
        crate::bitset::traits::lemma_popcnt_zero(x);
    }
}

/// Lines and the places where a value may stand in them: `primary` holds the lines (line `i`
/// as `i + 1`), `indices` the places (place `s` as `s + 1`), each with its count.
#[derive(Clone, Copy, Debug)]
pub struct FishCtr<T: BitSetInt> {
    pub primary: BitSet<T>,
    pub pri_count: u32,
    pub indices: BitSet<T>,
    pub ind_count: u32,
}

impl<T: BitSetInt> FishCtr<T> {
    /// The counts match the sets.
    pub open spec fn wf(&self) -> bool {
        &&& self.pri_count == popcnt(self.primary.0.spec_nat())
        &&& self.ind_count == popcnt(self.indices.0.spec_nat())
    }

    /// The counter of the line of `val`, at no place yet.
    pub fn new(val: Bit<T>) -> (r: FishCtr<T>)
        ensures
            r.wf(),
            r.primary.0 == val.0,
            r.indices@ == Set::<nat>::empty(),
            r.ind_count == 0,
    {
        let bs: BitSet<T> = BitSet::from_bit(val);
        let e: BitSet<T> = BitSet::empty();
        proof {
            assert(e@ =~= Set::<nat>::empty()) by {
                crate::bitset::bitset::lemma_count_zero_empty(e);
            }
        }
        FishCtr { primary: bs, pri_count: bs.count_u32(), indices: e, ind_count: 0 }
    }

    /// The number of places.
    pub fn icount(&self) -> (r: u32)
        ensures
            r == self.ind_count,
    {
        self.ind_count
    }

    /// The lines and places of both.
    pub fn merge(&self, other: &FishCtr<T>) -> (r: FishCtr<T>)
        ensures
            r.wf(),
            r.primary@ == self.primary@.union(other.primary@),
            r.indices@ == self.indices@.union(other.indices@),
    {
        let c_ind = self.indices.union(other.indices);
        let p = self.primary.union(other.primary);
        FishCtr { primary: p, pri_count: p.count_u32(), indices: c_ind, ind_count: c_ind.count_u32() }
    }

    /// The lines of `self`, at its places that `other` does not have.
    pub fn merge_disjoint_ind_only(&self, other: &FishCtr<T>) -> (r: FishCtr<T>)
        ensures
            r.primary == self.primary,
            r.pri_count == self.pri_count,
            r.indices@ == self.indices@.difference(other.indices@),
            r.ind_count == popcnt(r.indices.0.spec_nat()),
    {
        let c_ind = self.indices.difference(other.indices);
        FishCtr { primary: self.primary, pri_count: self.pri_count, indices: c_ind, ind_count: c_ind.count_u32() }
    }

    /// The lines of both, at the places that both have.
    pub fn add_primary_intersect_indicies(&self, other: &FishCtr<T>) -> (r: FishCtr<T>)
        ensures
            r.wf(),
            r.primary@ == self.primary@.union(other.primary@),
            r.indices@ == self.indices@.intersect(other.indices@),
    {
        let c_ind = self.indices.intersect(other.indices);
        let p = self.primary.union(other.primary);
        FishCtr { primary: p, pri_count: p.count_u32(), indices: c_ind, ind_count: c_ind.count_u32() }
    }

    /// Adds place `index` (held as `index + 1`).
    pub fn insert_index(&mut self, index: usize)
        requires
            old(self).ind_count == popcnt(old(self).indices.0.spec_nat()),
            index + 1 <= T::width(),
        ensures
            final(self).ind_count == popcnt(final(self).indices.0.spec_nat()),
            final(self).primary == old(self).primary,
            final(self).pri_count == old(self).pri_count,
            final(self).indices@ == old(self).indices@.insert((index + 1) as nat),
    {
        let old_ind = self.indices;
        proof {
            T::lemma_range(T::one_spec());
        }
        let indexbit = T::from_usize(index + 1);
        let b = Bit::from_value(indexbit);
        self.indices = self.indices.insert(b);
        if !old_ind.eq_set(self.indices) {
            proof {
                assert(!old_ind@.contains(b@)) by {
                    if old_ind@.contains(b@) {
                        assert(self.indices@ =~= old_ind@);
                    }
                }
                crate::square::possibilities::lemma_popcnt_insert(old_ind, self.indices, b);
                T::lemma_range(self.indices.0);
                crate::bitset::traits::lemma_popcnt_bound(self.indices.0.spec_nat(), T::width());
            }
            self.ind_count = self.ind_count + 1;
        } else {
            proof {
                crate::bitset::bitset::lemma_view_inj(old_ind, self.indices);
            }
        }
    }

    /// The places, counted from zero, in increasing order.
    pub fn index_iter(&self) -> (r: Vec<usize>)
        ensures
            r.len() == asc_from(self.indices.0.spec_nat(), 1, T::width()).len(),
            forall|k: int| 0 <= k < r.len() ==> #[trigger] r[k] + 1 == asc_from(self.indices.0.spec_nat(), 1, T::width())[k],
    {
        ones_from_zero(&self.indices)
    }

    /// The lines, counted from zero, in increasing order.
    pub fn primary_iter(&self) -> (r: Vec<usize>)
        ensures
            r.len() == asc_from(self.primary.0.spec_nat(), 1, T::width()).len(),
            forall|k: int| 0 <= k < r.len() ==> #[trigger] r[k] + 1 == asc_from(self.primary.0.spec_nat(), 1, T::width())[k],
    {
        ones_from_zero(&self.primary)
    }

    /// Whether both have the same lines and the same places.
    pub fn same(&self, other: &FishCtr<T>) -> (r: bool)
        ensures
            r == (self.primary == other.primary && self.indices == other.indices),
    {
        self.primary.eq_set(other.primary) && self.indices.eq_set(other.indices)
    }
}

impl<T: BitSetInt> PartialEq for FishCtr<T> {
    fn eq(&self, other: &Self) -> (r: bool) {
        self.same(other)
    }
}

impl<T: BitSetInt> vstd::std_specs::cmp::PartialEqSpecImpl for FishCtr<T> {
    open spec fn obeys_eq_spec() -> bool {
        true
    }

    open spec fn eq_spec(&self, other: &Self) -> bool {
        self.primary == other.primary && self.indices == other.indices
    }
}

/// The values of a set less one, in increasing order.
fn ones_from_zero<T: BitSetInt>(set: &BitSet<T>) -> (r: Vec<usize>)
    ensures
        r.len() == asc_from(set.0.spec_nat(), 1, T::width()).len(),
        forall|k: int| 0 <= k < r.len() ==> #[trigger] r[k] + 1 == asc_from(set.0.spec_nat(), 1, T::width())[k],
{
    let bits = set.to_bits();
    let mut out: Vec<usize> = Vec::new();
    proof { T::lemma_range(set.0); }
    for i in 0..bits.len()
        invariant
            out.len() == i,
            bits.len() == asc_from(set.0.spec_nat(), 1, T::width()).len(),
            forall|k: int| 0 <= k < bits.len() ==> bits[k].wf() && #[trigger] bits[k]@ == asc_from(set.0.spec_nat(), 1, T::width())[k],
            forall|k: int| 0 <= k < i ==> #[trigger] out[k] + 1 == asc_from(set.0.spec_nat(), 1, T::width())[k],
            T::width() <= 128,
    {
        proof {
            crate::bitset::bitsetiter::lemma_asc_from_contains(set.0.spec_nat(), 1, T::width(), bits[i as int]@);
            assert(asc_from(set.0.spec_nat(), 1, T::width()).contains(bits[i as int]@));
        }
        let v = bits[i].to_value();
        let u = match v.try_usize() {
            Some(u) => u,
            None => 1,
        };
        out.push(u - 1);
    }
    out
}

/// One counter per line: counter `v` holds line `v` (as `v + 1`) and counts its places.
#[derive(Clone, Debug)]
pub struct FishTupleCtr<T: BitSetInt> {
    pub array: Vec<FishCtr<T>>,
}

impl<T: BitSetInt> FishTupleCtr<T> {
    /// Counter `v` holds line `v + 1`.
    pub open spec fn wf(&self) -> bool {
        &&& self.array.len() <= T::width()
        &&& forall|v: int| 0 <= v < self.array.len() ==> (#[trigger] self.array[v]).wf()
            && self.array[v].primary@ == Set::<nat>::empty().insert((v + 1) as nat)
    }

    /// A counter for each line of the puzzle (as far as the type holds), at no place yet.
    pub fn new(size: SudokuSize) -> (r: FishTupleCtr<T>)
        ensures
            r.wf(),
            size.spec_house() <= T::width() ==> r.array.len() == size.spec_house(),
            forall|v: int| 0 <= v < r.array.len() ==> (#[trigger] r.array[v]).indices@ == Set::<nat>::empty(),
    {
        let mut res = FishTupleCtr { array: Vec::new() };
        let mut f: Option<Bit<T>> = Some(Bit::one());
        let house = size.house_size();
        proof {
            T::lemma_range(T::one_spec());
            size.lemma_sizes();
        }
        for i in 0..house
            invariant
                res.wf(),
                forall|v: int| 0 <= v < res.array.len() ==> (#[trigger] res.array[v]).indices@ == Set::<nat>::empty(),
                f matches Some(b) ==> b.wf() && b@ == res.array.len() + 1 && res.array.len() < T::width(),
                f is None ==> res.array.len() == T::width(),
                res.array.len() <= i,
                f is Some ==> res.array.len() == i,
                T::width() >= 8,
        {
            if let Some(item) = f {
                res.array.push(FishCtr::new(item));
                proof {
                    let n = res.array.len() - 1;
                    assert(res.array[n].primary@ =~= Set::<nat>::empty().insert((n + 1) as nat)) by {
                        crate::bitset::bitset::lemma_bit_bits(item);
                    }
                }
                f = item.inc();
            }
        }
        res
    }

    /// Counts place `index` for every line of `flag`.
    pub fn insert(&mut self, index: usize, flag: BitSet<T>)
        requires
            old(self).wf(),
            index + 1 <= T::width(),
        ensures
            final(self).wf(),
            final(self).array.len() == old(self).array.len(),
            forall|v: int| 0 <= v < final(self).array.len() ==> (#[trigger] final(self).array[v]).indices@
                == if flag@.contains((v + 1) as nat) { old(self).array[v].indices@.insert((index + 1) as nat) } else { old(self).array[v].indices@ },
    {
        let n = self.array.len();
        for i in 0..n
            invariant
                n == self.array.len(),
                self.wf(),
                index + 1 <= T::width(),
                forall|v: int| 0 <= v < i ==> (#[trigger] self.array[v]).indices@
                    == if flag@.contains((v + 1) as nat) { old(self).array[v].indices@.insert((index + 1) as nat) } else { old(self).array[v].indices@ },
                forall|v: int| i <= v < n ==> #[trigger] self.array[v] == old(self).array[v],
        {
            let common = flag.intersect(self.array[i].primary);
            if !common.eq_set(BitSet::empty()) {
                let mut c = self.array[i];
                c.insert_index(index);
                self.array.set(i, c);
                proof {
                    assert(flag@.contains((i + 1) as nat)) by {
                        assert(common@ != Set::<nat>::empty());
                        let x = common@.choose();
                        if !common@.contains(x) {
                            assert(common@ =~= Set::<nat>::empty());
                        }
                    }
                }
            } else {
                proof {
                    if flag@.contains((i + 1) as nat) {
                        assert(common@.contains((i + 1) as nat));
                    }
                }
            }
        }
    }

    /// The lines of the counters that have one of the places of `indicies`.
    pub fn primary_from_ind(&self, indicies: BitSet<T>) -> (r: BitSet<T>)
        ensures
            forall|x: nat| #[trigger] r@.contains(x) <==> exists|v: int| 0 <= v < self.array.len()
                && !(#[trigger] self.array[v].indices@).disjoint(indicies@) && self.array[v].primary@.contains(x),
    {
        let mut acc: BitSet<T> = BitSet::empty();
        proof {
            assert(acc@ =~= Set::<nat>::empty()) by {
                crate::bitset::bitset::lemma_count_zero_empty(acc);
            }
        }
        for i in 0..self.array.len()
            invariant
                forall|x: nat| #[trigger] acc@.contains(x) <==> exists|v: int| 0 <= v < i
                    && !(#[trigger] self.array[v].indices@).disjoint(indicies@) && self.array[v].primary@.contains(x),
        {
            let x = self.array[i];
            let ghost before = acc@;
            let common = x.indices.intersect(indicies);
            let e: BitSet<T> = BitSet::empty();
            let nonempty = !common.eq_set(e);
            if nonempty {
                acc = acc.union(x.primary);
            }
            proof {
                let hit = !self.array[i as int].indices@.disjoint(indicies@);
                if hit {
                    let y = choose|y: nat| self.array[i as int].indices@.contains(y) && indicies@.contains(y);
                    assert(common@.contains(y));
                }
                if nonempty {
                    let y = common@.choose();
                    if !common@.contains(y) {
                        assert(common@ =~= Set::<nat>::empty());
                    }
                    assert(hit);
                }
                assert forall|x2: nat| #[trigger] acc@.contains(x2) <==> exists|v: int| 0 <= v < i + 1
                    && !(#[trigger] self.array[v].indices@).disjoint(indicies@) && self.array[v].primary@.contains(x2) by {
                    assert(before.contains(x2) <==> exists|v: int| 0 <= v < i
                        && !(#[trigger] self.array[v].indices@).disjoint(indicies@) && self.array[v].primary@.contains(x2));
                    if exists|v: int| 0 <= v < i + 1 && !(#[trigger] self.array[v].indices@).disjoint(indicies@) && self.array[v].primary@.contains(x2) {
                        let v = choose|v: int| 0 <= v < i + 1 && !(#[trigger] self.array[v].indices@).disjoint(indicies@) && self.array[v].primary@.contains(x2);
                        if v < i {
                            assert(before.contains(x2));
                        }
                    }
                }
            }
        }
        acc
    }

    /// The counters.
    pub fn ctr_iter(&self) -> (r: &Vec<FishCtr<T>>)
        ensures
            *r == self.array,
    {
        &self.array
    }
}

} // verus!
