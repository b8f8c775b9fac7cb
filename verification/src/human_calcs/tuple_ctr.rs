use vstd::prelude::*;
use crate::bitset::traits::{BitSetInt, popcnt};
use crate::bitset::bit::Bit;
use crate::bitset::bitset::{BitSet, lemma_values_bounded};
use crate::bitset::bitsetiter::asc_from;
use crate::square::possibilities::lemma_popcnt_insert;
use crate::sudokusize::SudokuSize;
use crate::grid::gridcoord::HouseCoord;
use crate::sudoku::sudoku::{Sudoku, cells_of};
use crate::sudoku::state::cell_ok;

verus! {

/// Counts where values occur.  `values` holds the values counted and `indices` the places
/// where they occur, each place `i` held as `i + 1` since zero cannot be held.
#[derive(Clone, Copy, Debug)]
pub struct Ctr<T: BitSetInt> {
    pub values: BitSet<T>,
    pub indices: BitSet<T>,
    pub ind_count: u32,
}

impl<T: BitSetInt> Ctr<T> {
    /// The count of places is the count of the indices.
    pub open spec fn wf(&self) -> bool {
        self.ind_count == popcnt(self.indices.0.spec_nat())
    }

    /// A counter of the value of `bit`, at no place yet.
    pub fn new(bit: Bit<T>) -> (r: Ctr<T>)
        ensures
            r.wf(),
            r.values.0 == bit.0,
            r.indices@ == Set::<nat>::empty(),
            r.ind_count == 0,
    {
        Ctr { values: BitSet::from_bit(bit), indices: BitSet::empty(), ind_count: 0 }
    }

    /// The counter of the values and places of both.
    pub fn merge(&self, other: &Ctr<T>) -> (r: Ctr<T>)
        ensures
            r.wf(),
            r.values@ == self.values@.union(other.values@),
            r.indices@ == self.indices@.union(other.indices@),
    {
        let c_ind = self.indices.union(other.indices);
        Ctr { values: self.values.union(other.values), ind_count: c_ind.count_u32(), indices: c_ind }
    }

    /// Adds place `index` (held as `index + 1`).
    pub fn insert_index(&mut self, index: usize)
        requires
            old(self).wf(),
            index + 1 <= T::width(),
        ensures
            final(self).wf(),
            final(self).values == old(self).values,
            final(self).indices@ == old(self).indices@.insert((index + 1) as nat),
    {
        let old_ind = self.indices;
        proof {
            T::lemma_range(T::one_spec());
            T::lemma_range(T::one_spec());
        }
        let indexbit = T::from_usize(index + 1);
        let b = Bit::from_value(indexbit);
        self.indices = self.indices.insert(b);
        if !old_ind.eq_set(self.indices) {
            proof {
                assert(!old_ind@.contains(b@)) by {
                    if old_ind@.contains(b@) {
                        assert(self.indices@ =~= old_ind@);
                    }
                }
                lemma_popcnt_insert(old_ind, self.indices, b);
                T::lemma_range(self.indices.0);
                crate::bitset::traits::lemma_popcnt_bound(self.indices.0.spec_nat(), T::width());
            }
            self.ind_count = self.ind_count + 1;
        } else {
            proof {
                crate::bitset::bitset::lemma_view_inj(old_ind, self.indices);
            }
        }
    }

    /// Whether place `index` is counted.
    pub fn contains_index(&self, index: usize) -> (r: bool)
        requires
            index + 1 <= T::width(),
        ensures
            r == self.indices@.contains((index + 1) as nat),
    {
        proof {
            T::lemma_range(T::one_spec());
        }
        let old_ind = self.indices;
        let indexbit = T::from_usize(index + 1);
        let added = old_ind.insert(Bit::from_value(indexbit));
        proof {
            if self.indices@.contains((index + 1) as nat) {
                assert(added@ =~= old_ind@);
            } else {
                assert(added@.contains((index + 1) as nat));
            }
        }
        old_ind.eq_set(added)
    }

    /// Whether value `index + 1` is counted.
    pub fn contains_index_value(&self, index: usize) -> (r: bool)
        requires
            index + 1 <= T::width(),
        ensures
            r == self.values@.contains((index + 1) as nat),
    {
        proof {
            T::lemma_range(T::one_spec());
        }
        let old = self.values;
        let indexbit = T::from_usize(index + 1);
        let added = old.insert(Bit::from_value(indexbit));
        proof {
            if self.values@.contains((index + 1) as nat) {
                assert(added@ =~= old@);
            } else {
                assert(added@.contains((index + 1) as nat));
            }
        }
        old.eq_set(added)
    }

    /// The places counted, in increasing order.
    pub fn index_iter(&self) -> (r: Vec<usize>)
        ensures
            r.len() == asc_from(self.indices.0.spec_nat(), 1, T::width()).len(),
            forall|k: int| 0 <= k < r.len() ==> #[trigger] r[k] + 1 == asc_from(self.indices.0.spec_nat(), 1, T::width())[k],
    {
        let bits = self.indices.to_bits();
        let mut out: Vec<usize> = Vec::new();
        proof { T::lemma_range(self.indices.0); }
        for i in 0..bits.len()
            invariant
                out.len() == i,
                bits.len() == asc_from(self.indices.0.spec_nat(), 1, T::width()).len(),
                forall|k: int| 0 <= k < bits.len() ==> bits[k].wf() && #[trigger] bits[k]@ == asc_from(self.indices.0.spec_nat(), 1, T::width())[k],
                forall|k: int| 0 <= k < i ==> #[trigger] out[k] + 1 == asc_from(self.indices.0.spec_nat(), 1, T::width())[k],
                T::width() <= 128,
        {
            proof {
                crate::bitset::bitsetiter::lemma_asc_from_contains(self.indices.0.spec_nat(), 1, T::width(), bits[i as int]@);
                assert(asc_from(self.indices.0.spec_nat(), 1, T::width()).contains(bits[i as int]@));
            }
            let v = bits[i].to_value();
            let u = match v.try_usize() {
                Some(u) => u,
                None => 1,
            };
            out.push(u - 1);
        }
        out
    }

    /// The values counted, in increasing order.
    pub fn value_integer_iter(&self) -> (r: Vec<usize>)
        ensures
            r.len() == asc_from(self.values.0.spec_nat(), 1, T::width()).len(),
            forall|k: int| 0 <= k < r.len() ==> #[trigger] r[k] == asc_from(self.values.0.spec_nat(), 1, T::width())[k],
    {
        let bits = self.values.to_bits();
        let mut out: Vec<usize> = Vec::new();
        proof { T::lemma_range(self.values.0); }
        for i in 0..bits.len()
            invariant
                out.len() == i,
                bits.len() == asc_from(self.values.0.spec_nat(), 1, T::width()).len(),
                forall|k: int| 0 <= k < bits.len() ==> bits[k].wf() && #[trigger] bits[k]@ == asc_from(self.values.0.spec_nat(), 1, T::width())[k],
                forall|k: int| 0 <= k < i ==> #[trigger] out[k] == asc_from(self.values.0.spec_nat(), 1, T::width())[k],
                T::width() <= 128,
        {
            proof {
                crate::bitset::bitsetiter::lemma_asc_from_contains(self.values.0.spec_nat(), 1, T::width(), bits[i as int]@);
            }
            let v = bits[i].to_value();
            let u = match v.try_usize() {
                Some(u) => u,
                None => 0,
            };
            out.push(u);
        }
        out
    }

    /// The values of `lhs` not in `rhs`, at the places of `lhs`.
    pub fn remove_values(lhs: &Ctr<T>, rhs: &Ctr<T>) -> (r: Ctr<T>)
        ensures
            r.values@ == lhs.values@.difference(rhs.values@),
            r.indices == lhs.indices,
            r.ind_count == lhs.ind_count,
    {
        Ctr { values: lhs.values.difference(rhs.values), indices: lhs.indices, ind_count: lhs.ind_count }
    }

    /// The values of `lhs`, at the places of `lhs` not in `rhs`.
    pub fn remove_indicies(lhs: &Ctr<T>, rhs: &Ctr<T>) -> (r: Ctr<T>)
        ensures
            r.wf(),
            r.values == lhs.values,
            r.indices@ == lhs.indices@.difference(rhs.indices@),
    {
        let diff = lhs.indices.difference(rhs.indices);
        Ctr { values: lhs.values, indices: diff, ind_count: diff.count_u32() }
    }

    /// Whether the two count the same values at the same places.
    pub fn same(&self, other: &Ctr<T>) -> (r: bool)
        ensures
            r == (self.values == other.values && self.indices == other.indices),
    {
        self.values.eq_set(other.values) && self.indices.eq_set(other.indices)
    }
}

impl<T: BitSetInt> PartialEq for Ctr<T> {
    fn eq(&self, other: &Self) -> (r: bool) {
        self.same(other)
    }
}

impl<T: BitSetInt> vstd::std_specs::cmp::PartialEqSpecImpl for Ctr<T> {
    open spec fn obeys_eq_spec() -> bool {
        true
    }

    open spec fn eq_spec(&self, other: &Self) -> bool {
        self.values == other.values && self.indices == other.indices
    }
}

/// The places of the counters at positions `s` of `a`.
pub open spec fn places_of<T: BitSetInt>(a: Seq<Ctr<T>>, s: Set<int>, p: nat) -> bool {
    exists|v: int| #![trigger a[v].indices@.contains(p)] s.contains(v) && 0 <= v < a.len() && a[v].indices@.contains(p)
}

/// The counter `c` holds values `x + 1` for the positions `x` of `s`, and places as `sel`
/// tells from those of `s`.
pub open spec fn counts<T: BitSetInt>(a: Seq<Ctr<T>>, c: Ctr<T>, s: Set<int>) -> bool {
    &&& c.wf()
    &&& forall|x: nat| #[trigger] c.values@.contains(x) <==> (x >= 1 && s.contains(x - 1))
    &&& forall|p: nat| #[trigger] c.indices@.contains(p) <==> places_of(a, s, p)
}

/// The positions whose values the counter `c` holds.
pub open spec fn chosen<T: BitSetInt>(c: Ctr<T>, h: int) -> Set<int> {
    Set::new(|v: int| 0 <= v < h && c.values@.contains((v + 1) as nat))
}

/// The counter counts its places, and each of its values is possible somewhere: the counter
/// of its position in `a` has a place.
pub open spec fn ctr_seen<T: BitSetInt>(a: Seq<Ctr<T>>, c: Ctr<T>) -> bool {
    &&& c.wf()
    &&& forall|v: int| #[trigger] chosen(c, a.len() as int).contains(v) ==> a[v].indices@ != Set::<nat>::empty()
}

/// A naked tuple of the counters `a`: the values of `c` (all of positions of `a`), and the
/// places where some of them occur and no other value does.
pub open spec fn naked_tuple<T: BitSetInt>(a: Seq<Ctr<T>>, c: Ctr<T>) -> bool {
    &&& forall|x: nat| #[trigger] c.values@.contains(x) ==> 1 <= x <= a.len()
    &&& forall|p: nat| #[trigger] c.indices@.contains(p) <==> (places_of(a, chosen(c, a.len() as int), p)
        && !places_of(a, Set::new(|v: int| 0 <= v < a.len() && !chosen(c, a.len() as int).contains(v)), p))
}

/// A hidden tuple of the counters `a`: the values of `c` (all of positions of `a`), and the
/// places where some of them occur.
pub open spec fn hidden_tuple<T: BitSetInt>(a: Seq<Ctr<T>>, c: Ctr<T>) -> bool {
    &&& forall|x: nat| #[trigger] c.values@.contains(x) ==> 1 <= x <= a.len()
    &&& forall|p: nat| #[trigger] c.indices@.contains(p) <==> places_of(a, chosen(c, a.len() as int), p)
}

/// The positions of the counters that are not in `s`.
pub open spec fn others<T: BitSetInt>(a: Seq<Ctr<T>>, s: Set<int>) -> Set<int> {
    Set::new(|v: int| 0 <= v < a.len() && !s.contains(v))
}

/// The places of the tuple of positions `s`: where one of its values occurs and, for a naked
/// tuple, no other value does.
pub open spec fn tuple_places<T: BitSetInt>(a: Seq<Ctr<T>>, s: Set<int>, naked: bool) -> Set<nat> {
    Set::new(|p: nat| places_of(a, s, p) && (naked ==> !places_of(a, others(a, s), p)))
}

/// The positions `s` make a tuple that the search reports: `n` positions whose values occur
/// somewhere, some other value occurs somewhere, and the tuple has `n` places.
pub open spec fn reported<T: BitSetInt>(a: Seq<Ctr<T>>, s: Set<int>, n: nat, naked: bool) -> bool {
    &&& s.finite()
    &&& s.len() == n
    &&& forall|v: int| #[trigger] s.contains(v) ==> 0 <= v < a.len() && a[v].indices@ != Set::<nat>::empty()
    &&& exists|p: nat| #[trigger] places_of(a, others(a, s), p)
    &&& tuple_places(a, s, naked).len() == n
}

/// The first position the search has not decided on.
pub open spec fn next_pos(c: Option<usize>) -> int {
    match c {
        None => 0int,
        Some(c) => c + 1,
    }
}

/// A finite set that holds a finite set of the same size is that set.
pub proof fn lemma_subset_same_len<A>(l: Set<A>, s: Set<A>)
    requires
        s.finite(),
        l.subset_of(s),
        l.len() >= s.len(),
    ensures
        l == s,
{
    if exists|v: A| s.contains(v) && !l.contains(v) {
        let v = choose|v: A| s.contains(v) && !l.contains(v);
        vstd::set_lib::lemma_len_subset(l, s.remove(v));
        assert(false);
    }
    assert(l =~= s);
}

/// The counters of a house: counter `v` counts value `v + 1`, each counts its places.
#[derive(Clone, Debug)]
pub struct TupleCtr<T: BitSetInt> {
    pub array: Vec<Ctr<T>>,
    pub _size: SudokuSize,
}

impl<T: BitSetInt> TupleCtr<T> {
    /// Counter `v` counts value `v + 1`.
    pub open spec fn wf(&self) -> bool {
        &&& self.array.len() <= T::width()
        &&& forall|v: int| 0 <= v < self.array.len() ==> (#[trigger] self.array[v]).wf()
            && self.array[v].values@ == Set::<nat>::empty().insert((v + 1) as nat)
    }

    /// A counter for each value of the puzzle (as far as the type holds), at no place yet.
    pub fn new(size: SudokuSize) -> (r: TupleCtr<T>)
        ensures
            r.wf(),
            r._size == size,
            size.spec_house() <= T::width() ==> r.array.len() == size.spec_house(),
            forall|v: int| 0 <= v < r.array.len() ==> (#[trigger] r.array[v]).indices@ == Set::<nat>::empty()
                && r.array[v].values@ == Set::<nat>::empty().insert((v + 1) as nat),
    {
        let mut res = TupleCtr { array: Vec::new(), _size: size };
        let mut f: Option<Bit<T>> = Some(Bit::one());
        let house = size.house_size();
        proof {
            T::lemma_range(T::one_spec());
            size.lemma_sizes();
        }
        for i in 0..house
            invariant
                res._size == size,
                res.wf(),
                forall|v: int| 0 <= v < res.array.len() ==> (#[trigger] res.array[v]).indices@ == Set::<nat>::empty(),
                f matches Some(b) ==> b.wf() && b@ == res.array.len() + 1 && res.array.len() < T::width(),
                f is None ==> res.array.len() == T::width(),
                res.array.len() <= i,
                f is Some ==> res.array.len() == i,
                T::width() >= 8,
        {
            if let Some(item) = f {
                res.array.push(Ctr::new(item));
                proof {
                    let n = res.array.len() - 1;
                    assert(res.array[n].values@ =~= Set::<nat>::empty().insert((n + 1) as nat)) by {
                        crate::bitset::bitset::lemma_bit_bits(item);
                    }
                }
                f = item.inc();
            }
        }
        res
    }

    /// Counts place `index` for every value of `flag`.
    pub fn insert(&mut self, index: usize, flag: BitSet<T>)
        requires
            old(self).wf(),
            index + 1 <= T::width(),
        ensures
            final(self).wf(),
            final(self)._size == old(self)._size,
            final(self).array.len() == old(self).array.len(),
            forall|v: int| 0 <= v < final(self).array.len() ==> (#[trigger] final(self).array[v]).indices@
                == if flag@.contains((v + 1) as nat) { old(self).array[v].indices@.insert((index + 1) as nat) } else { old(self).array[v].indices@ },
    {
        let n = self.array.len();
        for i in 0..n
            invariant
                n == self.array.len(),
                self.wf(),
                self._size == old(self)._size,
                index + 1 <= T::width(),
                forall|v: int| 0 <= v < i ==> (#[trigger] self.array[v]).indices@
                    == if flag@.contains((v + 1) as nat) { old(self).array[v].indices@.insert((index + 1) as nat) } else { old(self).array[v].indices@ },
                forall|v: int| i <= v < n ==> #[trigger] self.array[v] == old(self).array[v],
        {
            let common = flag.intersect(self.array[i].values);
            if !common.eq_set(BitSet::empty()) {
                let mut c = self.array[i];
                c.insert_index(index);
                self.array.set(i, c);
                proof {
                    assert(flag@.contains((i + 1) as nat)) by {
                        assert(common@ != Set::<nat>::empty());
                        let x = common@.choose();
                        if !common@.contains(x) {
                            assert(common@ =~= Set::<nat>::empty());
                        }
                    }
                }
            } else {
                proof {
                    if flag@.contains((i + 1) as nat) {
                        assert(common@.contains((i + 1) as nat));
                    }
                }
            }
        }
    }
}

impl<T: BitSetInt> TupleCtr<T> {
    /// The tuples of `tuple_size` values: naked ones when `remove_indices`, else hidden ones.
    pub fn combo_fn(&self, tuple_size: usize, remove_indices: bool) -> (r: Vec<Ctr<T>>)
        requires
            self.wf(),
            tuple_size <= T::width(),
        ensures
            forall|k: int| 0 <= k < r.len() ==> (#[trigger] r[k]).ind_count == tuple_size && ctr_seen(self.array@, r[k])
                && (remove_indices ==> naked_tuple(self.array@, r[k]))
                && (!remove_indices ==> hidden_tuple(self.array@, r[k])),
            forall|s: Set<int>| #[trigger] reported(self.array@, s, tuple_size as nat, remove_indices)
                ==> exists|k: int| 0 <= k < r.len() && #[trigger] chosen(r[k], self.array.len() as int) == s,
            forall|i: int, j: int| 0 <= i < j < r.len()
                ==> chosen(#[trigger] r[i], self.array.len() as int) != chosen(#[trigger] r[j], self.array.len() as int),
    {
        let mut results: Vec<Ctr<T>> = Vec::new();
        let lhs = Ctr::new(Bit::zero());
        let rhs = Ctr::new(Bit::zero());
        proof {
            assert(lhs.values@ =~= Set::<nat>::empty()) by {
                crate::bitset::bitset::lemma_count_zero_empty(lhs.values);
            }
            assert(rhs.values@ =~= Set::<nat>::empty()) by {
                crate::bitset::bitset::lemma_count_zero_empty(rhs.values);
            }
        }
        self.combo_rec_fn(&mut results, remove_indices, lhs, rhs, None, 0, tuple_size, Ghost(Set::<int>::empty()), Ghost(Set::<int>::empty()));
        results
    }

    /// Adds to `tups` the tuples that extend the choice made so far: `lhs` counts the
    /// values chosen (positions `l`), `rhs` those passed over (positions `r`), and the
    /// positions from `current_ind + 1` on are still open.
    fn combo_rec_fn(
        &self,
        tups: &mut Vec<Ctr<T>>,
        remove_indices: bool,
        lhs: Ctr<T>,
        rhs: Ctr<T>,
        current_ind: Option<usize>,
        current_tuple: usize,
        tuple_size: usize,
        Ghost(l): Ghost<Set<int>>,
        Ghost(r): Ghost<Set<int>>,
    )
        requires
            self.wf(),
            tuple_size <= T::width(),
            current_tuple <= tuple_size,
            current_ind matches Some(c) ==> c < self.array.len(),
            forall|v: int| #[trigger] l.contains(v) ==> 0 <= v < (match current_ind { None => 0int, Some(c) => c + 1 }),
            forall|v: int| #[trigger] r.contains(v) ==> 0 <= v < (match current_ind { None => 0int, Some(c) => c + 1 }),
            forall|v: int| l.contains(v) ==> !#[trigger] r.contains(v),
            forall|v: int| 0 <= v < (match current_ind { None => 0int, Some(c) => c + 1 }) && !l.contains(v) && !r.contains(v)
                ==> (#[trigger] self.array[v]).indices@ == Set::<nat>::empty(),
            counts(self.array@, lhs, l),
            counts(self.array@, rhs, r),
            forall|v: int| l.contains(v) ==> (#[trigger] self.array[v]).indices@ != Set::<nat>::empty(),
            l.finite(),
            l.len() == current_tuple,
        ensures
            final(tups).len() >= old(tups).len(),
            forall|k: int| 0 <= k < old(tups).len() ==> #[trigger] final(tups)[k] == old(tups)[k],
            forall|k: int| old(tups).len() <= k < final(tups).len() ==> (#[trigger] final(tups)[k]).ind_count == tuple_size
                && ctr_seen(self.array@, final(tups)[k])
                && (remove_indices ==> naked_tuple(self.array@, final(tups)[k]))
                && (!remove_indices ==> hidden_tuple(self.array@, final(tups)[k])),
            forall|s: Set<int>| #[trigger] reported(self.array@, s, tuple_size as nat, remove_indices) && l.subset_of(s) && s.disjoint(r)
                && (forall|v: int| s.contains(v) && !l.contains(v) ==> v >= next_pos(current_ind))
                ==> exists|k: int| old(tups).len() <= k < final(tups).len() && #[trigger] chosen(final(tups)[k], self.array.len() as int) == s,
            forall|k: int| old(tups).len() <= k < final(tups).len() ==> l.subset_of(chosen(#[trigger] final(tups)[k], self.array.len() as int))
                && chosen(final(tups)[k], self.array.len() as int).disjoint(r),
            forall|i: int, j: int| old(tups).len() <= i < j < final(tups).len()
                ==> chosen(#[trigger] final(tups)[i], self.array.len() as int) != chosen(#[trigger] final(tups)[j], self.array.len() as int),
        decreases self.array.len() - (match current_ind { None => 0int, Some(c) => c + 1 }),
    {
        let ghost a = self.array@;
        let ghost n = self.array.len();
        let ghost start: int = match current_ind { None => 0int, Some(c) => c + 1 };
        let mut ind: usize = match current_ind {
            None => 0,
            Some(v) => v + 1,
        };
        loop
            invariant
                self.wf(),
                a == self.array@,
                start <= ind <= self.array.len(),
                forall|v: int| start <= v < ind ==> (#[trigger] self.array[v]).indices@ == Set::<nat>::empty(),
            ensures
                start <= ind <= self.array.len(),
                forall|v: int| start <= v < ind ==> (#[trigger] self.array[v]).indices@ == Set::<nat>::empty(),
                ind < self.array.len() ==> self.array[ind as int].ind_count != 0,
            decreases self.array.len() - ind,
        {
            if ind >= self.array.len() {
                break;
            }
            if self.array[ind].ind_count != 0 {
                break;
            }
            proof {
                crate::bitset::bitset::lemma_count_zero_empty(self.array[ind as int].indices);
            }
            ind = ind + 1;
        }
        if current_tuple == tuple_size {
            let mut r_rhs = rhs;
            let ghost rr = r;
            for i in ind..self.array.len()
                invariant
                    self.wf(),
                    a == self.array@,
                    ind <= i <= self.array.len(),
                    counts(a, r_rhs, r.union(Set::new(|v: int| ind <= v < i))),
            {
                let ghost before = r_rhs;
                r_rhs = r_rhs.merge(&self.array[i]);
                proof {
                    let s0 = r.union(Set::new(|v: int| ind <= v < i));
                    let s1 = r.union(Set::new(|v: int| ind <= v < i + 1));
                    assert forall|x: nat| #[trigger] r_rhs.values@.contains(x) <==> (x >= 1 && s1.contains(x - 1)) by {
                        if x >= 1 && x - 1 == i {
                            assert(self.array[i as int].values@.contains(x));
                        }
                    }
                    assert forall|p: nat| #[trigger] r_rhs.indices@.contains(p) <==> places_of(a, s1, p) by {
                        if r_rhs.indices@.contains(p) {
                            if before.indices@.contains(p) {
                                assert(places_of(a, s0, p));
                                let v = choose|v: int| #![trigger a[v].indices@.contains(p)] s0.contains(v) && 0 <= v < a.len() && a[v].indices@.contains(p);
                                assert(s1.contains(v));
                            } else {
                                assert(a[i as int].indices@.contains(p));
                                assert(s1.contains(i as int));
                            }
                        }
                        if places_of(a, s1, p) {
                            let v = choose|v: int| #![trigger a[v].indices@.contains(p)] s1.contains(v) && 0 <= v < a.len() && a[v].indices@.contains(p);
                            if v != i {
                                assert(s0.contains(v));
                                assert(places_of(a, s0, p));
                            }
                        }
                    }
                }
            }
            let ghost full = r.union(Set::new(|v: int| ind <= v < n));
            proof {
                assert(r.union(Set::new(|v: int| ind <= v < self.array.len())) == full);
                assert forall|p: nat| #[trigger] places_of(a, others(a, l), p) <==> places_of(a, full, p) by {
                    if places_of(a, others(a, l), p) {
                        let v = choose|v: int| #![trigger a[v].indices@.contains(p)] others(a, l).contains(v) && 0 <= v < a.len() && a[v].indices@.contains(p);
                        if v < start && !r.contains(v) {
                            assert(self.array[v].indices@ == Set::<nat>::empty());
                        }
                        if start <= v < ind {
                            assert(self.array[v].indices@ == Set::<nat>::empty());
                        }
                        assert(full.contains(v));
                    }
                    if places_of(a, full, p) {
                        let v = choose|v: int| #![trigger a[v].indices@.contains(p)] full.contains(v) && 0 <= v < a.len() && a[v].indices@.contains(p);
                        assert(others(a, l).contains(v));
                    }
                }
                assert forall|s: Set<int>| #[trigger] reported(a, s, tuple_size as nat, remove_indices) && l.subset_of(s)
                    implies s == l by {
                    lemma_subset_same_len(l, s);
                }
            }
            if r_rhs.indices.eq_set(BitSet::empty()) {
                proof {
                    assert forall|s: Set<int>| #[trigger] reported(self.array@, s, tuple_size as nat, remove_indices) && l.subset_of(s) && s.disjoint(r)
                        && (forall|v: int| s.contains(v) && !l.contains(v) ==> v >= next_pos(current_ind))
                        implies exists|k: int| old(tups).len() <= k < tups.len() && #[trigger] chosen(tups[k], self.array.len() as int) == s by {
                        assert(s == l);
                        let p = choose|p: nat| #[trigger] places_of(a, others(a, s), p);
                        assert(places_of(a, full, p));
                        assert(r_rhs.indices@.contains(p));
                    }
                }
                return;
            }
            let diff = if remove_indices {
                Ctr::remove_indicies(&lhs, &r_rhs)
            } else {
                Ctr::remove_values(&lhs, &r_rhs)
            };
            proof {
                assert(r.union(Set::new(|v: int| ind <= v < self.array.len())) == full);
                let ch = chosen(diff, n as int);
                let comp = Set::new(|v: int| 0 <= v < n && !ch.contains(v));
                assert forall|x: nat| #[trigger] diff.values@.contains(x) <==> (x >= 1 && l.contains(x - 1)) by {
                    if !remove_indices && x >= 1 && l.contains(x - 1) {
                        assert(!full.contains(x - 1));
                        assert(!r_rhs.values@.contains(x));
                    }
                }
                assert(ch =~= l);
                assert forall|p: nat| places_of(a, comp, p) <==> places_of(a, full, p) by {
                    if places_of(a, comp, p) {
                        let v = choose|v: int| #![trigger a[v].indices@.contains(p)] comp.contains(v) && 0 <= v < a.len() && a[v].indices@.contains(p);
                        if v < start && !r.contains(v) {
                            assert(self.array[v].indices@ == Set::<nat>::empty());
                        }
                        if start <= v < ind {
                            assert(self.array[v].indices@ == Set::<nat>::empty());
                        }
                        assert(full.contains(v));
                    }
                    if places_of(a, full, p) {
                        let v = choose|v: int| #![trigger a[v].indices@.contains(p)] full.contains(v) && 0 <= v < a.len() && a[v].indices@.contains(p);
                        assert(comp.contains(v));
                    }
                }
                assert forall|x: nat| #[trigger] diff.values@.contains(x) implies 1 <= x <= a.len() by {
                    assert(l.contains(x - 1));
                }
            }
            if diff.ind_count as usize == tuple_size {
                tups.push(diff);
            }
            proof {
                if tups.len() > old(tups).len() {
                    assert(tups[old(tups).len() as int] == diff);
                    assert(chosen(diff, n as int) =~= l);
                    assert(diff.wf());
                    assert(ctr_seen(a, diff));
                }
                assert forall|s: Set<int>| #[trigger] reported(self.array@, s, tuple_size as nat, remove_indices) && l.subset_of(s) && s.disjoint(r)
                    && (forall|v: int| s.contains(v) && !l.contains(v) ==> v >= next_pos(current_ind))
                    implies exists|k: int| old(tups).len() <= k < tups.len() && #[trigger] chosen(tups[k], self.array.len() as int) == s by {
                    assert(s == l);
                    let ch = chosen(diff, n as int);
                    assert(ch =~= l);
                    assert(diff.indices@ =~= tuple_places(a, l, remove_indices)) by {
                        assert(others(a, l) =~= Set::new(|v: int| 0 <= v < n && !ch.contains(v)));
                    }
                    crate::bitset::bitset::lemma_values_len(diff.indices);
                    assert(diff.ind_count == tuple_size);
                    assert(tups[old(tups).len() as int] == diff);
                    assert(chosen(tups[old(tups).len() as int], self.array.len() as int) == s);
                }
            }
            return;
        }
        if ind >= self.array.len() {
            proof {
                assert forall|s: Set<int>| #[trigger] reported(self.array@, s, tuple_size as nat, remove_indices) && l.subset_of(s) && s.disjoint(r)
                    && (forall|v: int| s.contains(v) && !l.contains(v) ==> v >= next_pos(current_ind))
                    implies exists|k: int| old(tups).len() <= k < tups.len() && #[trigger] chosen(tups[k], self.array.len() as int) == s by {
                    if !(exists|v: int| s.contains(v) && !l.contains(v)) {
                        assert(s.subset_of(l));
                        vstd::set_lib::lemma_len_subset(s, l);
                    }
                    let v = choose|v: int| s.contains(v) && !l.contains(v);
                    assert(self.array[v].indices@ == Set::<nat>::empty());
                }
            }
            return;
        }
        let added_to_left = self.array[ind].merge(&lhs);
        let added_to_right = self.array[ind].merge(&rhs);
        proof {
            let l2 = l.insert(ind as int);
            let r2 = r.insert(ind as int);
            assert forall|x: nat| #[trigger] added_to_left.values@.contains(x) <==> (x >= 1 && l2.contains(x - 1)) by {}
            assert forall|x: nat| #[trigger] added_to_right.values@.contains(x) <==> (x >= 1 && r2.contains(x - 1)) by {}
            assert forall|p: nat| #[trigger] added_to_left.indices@.contains(p) <==> places_of(a, l2, p) by {
                if added_to_left.indices@.contains(p) && !lhs.indices@.contains(p) {
                    assert(a[ind as int].indices@.contains(p));
                }
                if places_of(a, l2, p) {
                    let v = choose|v: int| #![trigger a[v].indices@.contains(p)] l2.contains(v) && 0 <= v < a.len() && a[v].indices@.contains(p);
                    if v != ind {
                        assert(places_of(a, l, p));
                    }
                }
            }
            assert forall|p: nat| #[trigger] added_to_right.indices@.contains(p) <==> places_of(a, r2, p) by {
                if added_to_right.indices@.contains(p) && !rhs.indices@.contains(p) {
                    assert(a[ind as int].indices@.contains(p));
                }
                if places_of(a, r2, p) {
                    let v = choose|v: int| #![trigger a[v].indices@.contains(p)] r2.contains(v) && 0 <= v < a.len() && a[v].indices@.contains(p);
                    if v != ind {
                        assert(places_of(a, r, p));
                    }
                }
            }
        }
        let ghost mid_len = tups.len();
        proof {
            assert(!l.contains(ind as int));
            assert(ind < self.array.len());
            crate::bitset::bitset::lemma_values_len(self.array[ind as int].indices);
            assert(self.array[ind as int].wf());
            assert(self.array[ind as int].indices@.len() != 0);
        }
        self.combo_rec_fn(tups, remove_indices, added_to_left, rhs, Some(ind), current_tuple + 1, tuple_size,
            Ghost(l.insert(ind as int)), Ghost(r));
        let ghost mid = tups@;
        self.combo_rec_fn(tups, remove_indices, lhs, added_to_right, Some(ind), current_tuple, tuple_size,
            Ghost(l), Ghost(r.insert(ind as int)));
        proof {
            assert forall|s: Set<int>| #[trigger] reported(self.array@, s, tuple_size as nat, remove_indices) && l.subset_of(s) && s.disjoint(r)
                && (forall|v: int| s.contains(v) && !l.contains(v) ==> v >= next_pos(current_ind))
                implies exists|k: int| old(tups).len() <= k < tups.len() && #[trigger] chosen(tups[k], self.array.len() as int) == s by {
                assert forall|v: int| s.contains(v) && !l.contains(v) && v != ind implies v >= ind + 1 by {
                    if v < ind {
                        assert(self.array[v].indices@ == Set::<nat>::empty());
                    }
                }
                if s.contains(ind as int) {
                    assert(l.insert(ind as int).subset_of(s));
                    let k = choose|k: int| old(tups).len() <= k < mid.len() && #[trigger] chosen(mid[k], self.array.len() as int) == s;
                    assert(tups[k] == mid[k]);
                } else {
                    assert(s.disjoint(r.insert(ind as int)));
                    let k = choose|k: int| mid.len() <= k < tups.len() && #[trigger] chosen(tups[k], self.array.len() as int) == s;
                }
            }
            assert forall|k: int| old(tups).len() <= k < tups.len() implies (#[trigger] tups[k]).ind_count == tuple_size
                && ctr_seen(self.array@, tups[k])
                && (remove_indices ==> naked_tuple(self.array@, tups[k]))
                && (!remove_indices ==> hidden_tuple(self.array@, tups[k]))
                && l.subset_of(chosen(tups[k], self.array.len() as int))
                && chosen(tups[k], self.array.len() as int).disjoint(r) by {
                if k < mid.len() {
                    assert(tups[k] == mid[k]);
                }
            }
            assert forall|i: int, j: int| old(tups).len() <= i < j < tups.len()
                implies chosen(#[trigger] tups[i], self.array.len() as int) != chosen(#[trigger] tups[j], self.array.len() as int) by {
                if j < mid.len() {
                    assert(tups[i] == mid[i] && tups[j] == mid[j]);
                } else if i < mid.len() {
                    assert(tups[i] == mid[i]);
                    assert(chosen(mid[i], self.array.len() as int).contains(ind as int));
                    assert(!chosen(tups[j], self.array.len() as int).contains(ind as int));
                }
            }
        }
    }
}

/// The counter counts its places, and each of its values is possible in some cell of the house
/// whose cells are `cells`.
pub open spec fn tuple_seen<T: BitSetInt>(puz: Sudoku<T>, cells: Seq<nat>, c: Ctr<T>) -> bool {
    &&& c.wf()
    &&& forall|x: nat| #[trigger] c.values@.contains(x) ==> exists|q: int| 0 <= q < cells.len()
        && #[trigger] puz.cells()[cells[q] as int].flags.poss@.contains(x)
}

/// Values `c` of a house whose cells are `cells`: the places (held as `p + 1`) where some of
/// them is possible and no other value is.
pub open spec fn naked_in_house<T: BitSetInt>(puz: Sudoku<T>, cells: Seq<nat>, c: Ctr<T>) -> bool {
    &&& forall|x: nat| #[trigger] c.values@.contains(x) ==> 1 <= x <= cells.len()
    &&& forall|p: nat| #[trigger] c.indices@.contains(p) <==> (1 <= p <= cells.len()
        && !puz.cells()[cells[p - 1] as int].flags.poss@.disjoint(c.values@)
        && puz.cells()[cells[p - 1] as int].flags.poss@.subset_of(c.values@))
}

/// Values `c` of a house whose cells are `cells`: the places (held as `p + 1`) where some of
/// them is possible.
pub open spec fn hidden_in_house<T: BitSetInt>(puz: Sudoku<T>, cells: Seq<nat>, c: Ctr<T>) -> bool {
    &&& forall|x: nat| #[trigger] c.values@.contains(x) ==> 1 <= x <= cells.len()
    &&& forall|p: nat| #[trigger] c.indices@.contains(p) <==> (1 <= p <= cells.len()
        && !puz.cells()[cells[p - 1] as int].flags.poss@.disjoint(c.values@))
}

/// The places (cell `q` as `q + 1`) of the house whose cells are `cells` where a value `v + 1`
/// of the positions `s` is possible and, for a naked tuple, no other value is.
pub open spec fn house_tuple_places<T: BitSetInt>(puz: Sudoku<T>, cells: Seq<nat>, s: Set<int>, naked: bool) -> Set<nat> {
    Set::new(|p: nat| 1 <= p <= cells.len()
        && (exists|v: int| s.contains(v) && #[trigger] puz.cells()[cells[p - 1] as int].flags.poss@.contains((v + 1) as nat))
        && (naked ==> forall|x: nat| #[trigger] puz.cells()[cells[p - 1] as int].flags.poss@.contains(x) ==> s.contains(x - 1)))
}

/// The values `v + 1` for the positions `v` of `s` make a tuple of the house that the search
/// reports: `n` values each possible in some cell, some other value possible in some cell,
/// and `n` places of the tuple.
pub open spec fn house_tuple<T: BitSetInt>(puz: Sudoku<T>, cells: Seq<nat>, s: Set<int>, n: nat, naked: bool) -> bool {
    &&& s.finite()
    &&& s.len() == n
    &&& forall|v: int| #[trigger] s.contains(v) ==> 0 <= v < cells.len()
        && exists|q: int| 0 <= q < cells.len() && #[trigger] puz.cells()[cells[q] as int].flags.poss@.contains((v + 1) as nat)
    &&& exists|q: int, v: int| 0 <= q < cells.len() && 0 <= v < cells.len() && !s.contains(v)
        && #[trigger] puz.cells()[cells[q] as int].flags.poss@.contains((v + 1) as nat)
    &&& house_tuple_places(puz, cells, s, naked).len() == n
}

/// A tuple of a house has no more values than the house has cells.
pub proof fn lemma_tuple_bound<T: BitSetInt>(puz: Sudoku<T>, cells: Seq<nat>, s: Set<int>, n: nat, naked: bool)
    requires
        house_tuple(puz, cells, s, n, naked),
    ensures
        n <= cells.len(),
{
    let range = vstd::set_lib::set_int_range(0, cells.len() as int);
    vstd::set_lib::lemma_int_range(0, cells.len() as int);
    assert(s.subset_of(range));
    vstd::set_lib::lemma_len_subset(s, range);
}

/// The place of a house in the order rows, columns and boxes of each number are looked at.
pub open spec fn house_rank(h: crate::grid::house::House<usize>) -> int {
    match h {
        crate::grid::house::House::Row(n) => 3 * n,
        crate::grid::house::House::Col(n) => 3 * n + 1,
        crate::grid::house::House::Box(n) => 3 * n + 2,
    }
}

impl<T: BitSetInt> TupleCtr<T> {
    /// The tuples of `tuple_size` values of a house: naked ones when `remove_indices`, else
    /// hidden ones.
    pub fn find_tuples<H: HouseCoord>(puz: &Sudoku<T>, house: H, remove_indices: bool, tuple_size: usize) -> (r: Vec<Ctr<T>>)
        requires
            puz.wf(),
            house.spec_size() == puz.grid.size,
            house.spec_number() < puz.grid.size.spec_house(),
            tuple_size <= T::width(),
        ensures
            forall|k: int| 0 <= k < r.len() ==> (#[trigger] r[k]).ind_count == tuple_size
                && tuple_seen(*puz, cells_of::<H>(puz.grid.size, house.spec_number()), r[k])
                && (remove_indices ==> naked_in_house(*puz, cells_of::<H>(puz.grid.size, house.spec_number()), r[k]))
                && (!remove_indices ==> hidden_in_house(*puz, cells_of::<H>(puz.grid.size, house.spec_number()), r[k])),
            forall|s: Set<int>| #[trigger] house_tuple(*puz, cells_of::<H>(puz.grid.size, house.spec_number()), s, tuple_size as nat, remove_indices)
                ==> exists|k: int| 0 <= k < r.len() && #[trigger] chosen(r[k], puz.grid.size.spec_house() as int) == s,
    {
        let size = puz.grid.size;
        let ghost cells = cells_of::<H>(size, house.spec_number());
        let it = puz.grid.house_iter(house);
        let mut counter: TupleCtr<T> = TupleCtr::new(size);
        proof { size.lemma_sizes(); }
        for i in 0..it.len()
            invariant
                puz.wf(),
                size == puz.grid.size,
                it.len() == size.spec_house(),
                cells == cells_of::<H>(size, house.spec_number()),
                forall|k: int| 0 <= k < it.len() ==> #[trigger] it[k] == H::spec_cell(size, house.spec_number(), k as nat),
                forall|k: int| 0 <= k < it.len() ==> #[trigger] it[k] < size.spec_total(),
                counter.wf(),
                counter.array.len() == size.spec_house(),
                forall|v: int, p: nat| 0 <= v < counter.array.len() ==> (#[trigger] counter.array[v].indices@.contains(p)
                    <==> (1 <= p <= i && puz.cells()[cells[p - 1] as int].flags.poss@.contains((v + 1) as nat))),
        {
            let ghost before = counter.array@;
            counter.insert(i, *puz.grid.items[it[i]].poss());
            proof {
                assert(cells[i as int] == it[i as int]);
                assert forall|v: int, p: nat| 0 <= v < counter.array.len() implies (#[trigger] counter.array[v].indices@.contains(p)
                    <==> (1 <= p <= i + 1 && puz.cells()[cells[p - 1] as int].flags.poss@.contains((v + 1) as nat))) by {
                    assert(before[v].indices@.contains(p) <==> (1 <= p <= i && puz.cells()[cells[p - 1] as int].flags.poss@.contains((v + 1) as nat)));
                }
            }
        }
        let r = counter.combo_fn(tuple_size, remove_indices);
        proof {
            let a = counter.array@;
            let h = a.len() as int;
            assert forall|s: Set<int>| #[trigger] house_tuple(*puz, cells, s, tuple_size as nat, remove_indices)
                implies exists|k: int| 0 <= k < r.len() && #[trigger] chosen(r[k], puz.grid.size.spec_house() as int) == s by {
                assert forall|v: int| #[trigger] s.contains(v) implies 0 <= v < a.len() && a[v].indices@ != Set::<nat>::empty() by {
                    let q = choose|q: int| 0 <= q < cells.len() && #[trigger] puz.cells()[cells[q] as int].flags.poss@.contains((v + 1) as nat);
                    assert(a[v].indices@.contains((q + 1) as nat));
                }
                let (q, v) = choose|q: int, v: int| 0 <= q < cells.len() && 0 <= v < cells.len() && !s.contains(v)
                    && #[trigger] puz.cells()[cells[q] as int].flags.poss@.contains((v + 1) as nat);
                assert(a[v].indices@.contains((q + 1) as nat));
                assert(others(a, s).contains(v));
                assert(places_of(a, others(a, s), (q + 1) as nat));
                assert forall|p: nat| #[trigger] tuple_places(a, s, remove_indices).contains(p)
                    <==> house_tuple_places(*puz, cells, s, remove_indices).contains(p) by {
                    if places_of(a, s, p) {
                        let v = choose|v: int| #![trigger a[v].indices@.contains(p)] s.contains(v) && 0 <= v < a.len() && a[v].indices@.contains(p);
                        assert(puz.cells()[cells[p - 1] as int].flags.poss@.contains((v + 1) as nat));
                    }
                    if 1 <= p <= cells.len() && exists|v: int| s.contains(v) && #[trigger] puz.cells()[cells[p - 1] as int].flags.poss@.contains((v + 1) as nat) {
                        let v = choose|v: int| s.contains(v) && #[trigger] puz.cells()[cells[p - 1] as int].flags.poss@.contains((v + 1) as nat);
                        assert(a[v].indices@.contains(p));
                    }
                    if remove_indices && 1 <= p <= cells.len() {
                        let j = cells[p - 1];
                        assert(j == it[p - 1]);
                        assert(cell_ok(puz.cells()[j as int], j as int, size));
                        if places_of(a, others(a, s), p) {
                            let v = choose|v: int| #![trigger a[v].indices@.contains(p)] others(a, s).contains(v) && 0 <= v < a.len() && a[v].indices@.contains(p);
                            assert(puz.cells()[j as int].flags.poss@.contains((v + 1) as nat));
                        }
                        if !(forall|x: nat| #[trigger] puz.cells()[j as int].flags.poss@.contains(x) ==> s.contains(x - 1)) {
                            let x = choose|x: nat| puz.cells()[j as int].flags.poss@.contains(x) && !s.contains(x - 1);
                            assert(crate::bitset::bitset::first_values(size.spec_house()).contains(x));
                            let v = x - 1;
                            assert(a[v].indices@.contains(p));
                            assert(others(a, s).contains(v));
                        }
                    }
                }
                assert(tuple_places(a, s, remove_indices) =~= house_tuple_places(*puz, cells, s, remove_indices));
                assert(reported(a, s, tuple_size as nat, remove_indices));
            }
            assert forall|k: int| 0 <= k < r.len() implies (#[trigger] r[k]).ind_count == tuple_size
                && tuple_seen(*puz, cells, r[k])
                && (remove_indices ==> naked_in_house(*puz, cells, r[k]))
                && (!remove_indices ==> hidden_in_house(*puz, cells, r[k])) by {
                let c = r[k];
                let ch = chosen(c, h);
                assert forall|x: nat| #[trigger] c.values@.contains(x) implies exists|q: int| 0 <= q < cells.len()
                    && #[trigger] puz.cells()[cells[q] as int].flags.poss@.contains(x) by {
                    let v = x - 1;
                    assert(ch.contains(v));
                    assert(a[v].indices@ != Set::<nat>::empty());
                    assert(exists|p: nat| a[v].indices@.contains(p)) by {
                        if !(exists|p: nat| a[v].indices@.contains(p)) {
                            assert(a[v].indices@ =~= Set::<nat>::empty());
                        }
                    }
                    let p = choose|p: nat| a[v].indices@.contains(p);
                    assert(puz.cells()[cells[p - 1] as int].flags.poss@.contains(x));
                }
                assert forall|p: nat| places_of(a, ch, p) <==> (1 <= p <= cells.len()
                    && !puz.cells()[cells[p - 1] as int].flags.poss@.disjoint(c.values@)) by {
                    if places_of(a, ch, p) {
                        let v = choose|v: int| #![trigger a[v].indices@.contains(p)] ch.contains(v) && 0 <= v < a.len() && a[v].indices@.contains(p);
                        assert(puz.cells()[cells[p - 1] as int].flags.poss@.contains((v + 1) as nat));
                        assert(c.values@.contains((v + 1) as nat));
                    }
                    if 1 <= p <= cells.len() && !puz.cells()[cells[p - 1] as int].flags.poss@.disjoint(c.values@) {
                        let x = choose|x: nat| puz.cells()[cells[p - 1] as int].flags.poss@.contains(x) && c.values@.contains(x);
                        let v = x - 1;
                        assert(1 <= x <= cells.len());
                        assert(a[v].indices@.contains(p));
                        assert(ch.contains(v));
                    }
                }
                if remove_indices {
                    let comp = Set::new(|v: int| 0 <= v < h && !ch.contains(v));
                    assert forall|p: nat| 1 <= p <= cells.len() implies (!places_of(a, comp, p)
                        <==> puz.cells()[cells[p - 1] as int].flags.poss@.subset_of(c.values@)) by {
                        let j = cells[p - 1];
                        assert(j == it[p - 1]);
                        assert(cell_ok(puz.cells()[j as int], j as int, size));
                        if places_of(a, comp, p) {
                            let v = choose|v: int| #![trigger a[v].indices@.contains(p)] comp.contains(v) && 0 <= v < a.len() && a[v].indices@.contains(p);
                            assert(puz.cells()[j as int].flags.poss@.contains((v + 1) as nat));
                            assert(!c.values@.contains((v + 1) as nat));
                        }
                        if !puz.cells()[j as int].flags.poss@.subset_of(c.values@) {
                            let x = choose|x: nat| puz.cells()[j as int].flags.poss@.contains(x) && !c.values@.contains(x);
                            assert(crate::bitset::bitset::first_values(size.spec_house()).contains(x));
                            let v = x - 1;
                            assert(comp.contains(v));
                            assert(a[v].indices@.contains(p));
                        }
                    }
                }
            }
        }
        r
    }
}

} // verus!
