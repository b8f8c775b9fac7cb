use vstd::prelude::*;
use crate::bitset::traits::{BitSetInt, popcnt, bit_of};
use crate::bitset::bit::Bit;
use crate::bitset::bitset::{BitSet, lemma_bit_bits, full_nat, full_values};
use crate::bitset::bitsetiter::{asc_from, lemma_asc_from_contains};
use crate::errors::SudError;
use crate::sudokusize::SudokuSize;

verus! {

/// Adding one bit that was not there adds one to the count of ones.
pub proof fn lemma_popcnt_insert<T: BitSetInt>(x: BitSet<T>, y: BitSet<T>, b: Bit<T>)
    requires
        b.wf(),
        b@ >= 1,
        !x@.contains(b@),
        forall|i: nat| #[trigger] bit_of(y.0.spec_nat(), i) == (bit_of(x.0.spec_nat(), i) || bit_of(b.0.spec_nat(), i)),
    ensures
        popcnt(y.0.spec_nat()) == popcnt(x.0.spec_nat()) + 1,
{
    lemma_bit_bits(b);
    crate::bitset::traits::lemma_popcnt_add_bit(x.0.spec_nat(), y.0.spec_nat(), (b@ - 1) as nat);
}

/// The values still possible in a cell, with the count of them and a cursor for trying them in
/// turn.
#[derive(Copy, Clone, PartialEq, PartialOrd, Debug)]
pub struct Possibilities<T: BitSetInt> {
    pub poss: BitSet<T>,
    pub original: Option<BitSet<T>>,
    pub count: u32,
    pub current: Bit<T>,
}

impl<T: BitSetInt> Possibilities<T> {
    /// The count matches the set and the cursor is a value of the type.
    pub open spec fn wf(self) -> bool {
        &&& self.count == popcnt(self.poss.0.spec_nat())
        &&& self.current.wf()
        &&& self.current@ <= T::width()
    }

    /// The values that `next` still gives, in increasing order.
    pub open spec fn upcoming(self) -> Seq<nat> {
        asc_from(self.poss.0.spec_nat(), self.current@ + 1, T::width())
    }

    /// Create a new flag based on a known value
    pub fn empty() -> (r: Self)
        ensures
            r.wf(),
            r.poss@ == Set::<nat>::empty(),
            r.poss.0.spec_nat() == 0,
            r.original is None,
            r.current.0.spec_nat() == 0,
    {
        let p = Self { poss: BitSet::empty(), count: 0, current: Bit::zero(), original: None };
        proof { T::lemma_range(p.poss.0); }
        p
    }

    /// Clears out the flags, but keeps original
    pub fn clear(&self) -> (r: Self)
        ensures
            r.wf(),
            r.poss@ == Set::<nat>::empty(),
            r.poss.0.spec_nat() == 0,
            r.original == self.original,
            r.current.0.spec_nat() == 0,
    {
        let p = Self { poss: BitSet::empty(), count: 0, current: Bit::zero(), original: self.original };
        proof { T::lemma_range(p.poss.0); }
        p
    }

    /// Create a flag that has all positions flagged.  Used for empty squares
    pub fn full(size: SudokuSize) -> (r: Result<Self, SudError>)
        ensures
            r matches Ok(p) && p.wf() && p.original is None && p.current.0.spec_nat() == 0
                && p.poss.0.spec_nat() == full_nat(T::width(), size.spec_house())
                && p.poss@ == full_values(T::width(), size.spec_house()),
    {
        let full = BitSet::full(size.house_size());
        let count = full.count_u32();
        proof { T::lemma_range(full.0); size.lemma_sizes(); }
        Ok(Self { poss: full, count, current: Bit::zero(), original: None })
    }

    /// Inserts value into flag.  Nothing changes if value already exists.
    pub fn insert(&mut self, value: Bit<T>)
        requires
            old(self).wf(),
            value.wf(),
        ensures
            final(self).wf(),
            value@ == 0 ==> final(self).poss == old(self).poss,
            value@ != 0 ==> final(self).poss@ == old(self).poss@.insert(value@),
            final(self).original == old(self).original,
            final(self).current == old(self).current,
    {
        if !value.eq_bit(Bit::zero()) {
            let newv = self.poss.insert(value);
            proof {
                if self.poss@.contains(value@) {
                    assert(newv@ =~= self.poss@);
                }
            }
            if !newv.eq_set(self.poss) {
                proof {
                    lemma_popcnt_insert(self.poss, newv, value);
                    T::lemma_range(newv.0);
                    crate::bitset::traits::lemma_popcnt_bound(newv.0.spec_nat(), T::width());
                }
                self.poss = newv;
                self.count = self.count + 1;
            }
        }
    }

    /// Inserts value into flag.  Nothing changes if value already exists.
    pub fn insert_multi(&mut self, value: BitSet<T>)
        requires
            old(self).wf(),
        ensures
            final(self).wf(),
            final(self).poss@ == old(self).poss@.union(value@),
            final(self).original == old(self).original,
            final(self).current == old(self).current,
    {
        let newv = self.poss.union(value);
        if !value.eq_set(BitSet::empty()) {
            if !newv.eq_set(self.poss) {
                self.poss = newv;
                self.count = self.poss.count_u32();
            }
        } else {
            proof {
                assert(newv@ =~= self.poss@);
                crate::bitset::bitset::lemma_view_inj(newv, self.poss);
            }
        }
    }

    /// Removes value from flag.  Nothing happens if value was not present
    pub fn remove(&mut self, value: Bit<T>)
        requires
            old(self).wf(),
            value.wf(),
        ensures
            final(self).wf(),
            final(self).poss@ == old(self).poss@.remove(value@),
            final(self).original == old(self).original,
            final(self).current == old(self).current,
    {
        if !value.eq_bit(Bit::zero()) && self.count != 0 {
            let newv = self.poss.remove(value);
            proof {
                lemma_bit_bits(value);
                if !self.poss@.contains(value@) {
                    assert(newv@ =~= self.poss@);
                }
            }
            if !newv.eq_set(self.poss) {
                proof {
                    assert(self.poss@.contains(value@));
                    assert(bit_of(self.poss.0.spec_nat(), (value@ - 1) as nat));
                    assert forall|i: nat| #[trigger] bit_of(self.poss.0.spec_nat(), i) == (bit_of(newv.0.spec_nat(), i) || bit_of(value.0.spec_nat(), i)) by {}
                    lemma_popcnt_insert(newv, self.poss, value);
                }
                self.poss = newv;
                self.count = self.count - 1;
            } else {
                proof { assert(self.poss@ =~= self.poss@.remove(value@)); }
            }
        } else {
            proof {
                if value@ != 0 {
                    crate::bitset::bitset::lemma_count_zero_empty(self.poss);
                }
                assert(self.poss@ =~= self.poss@.remove(value@));
            }
        }
    }

    /// Makes the possible values all values of the puzzle but those of `remove`, and remembers
    /// them as the original possibilities.
    pub fn set_original(&mut self, size: SudokuSize, remove: BitSet<T>)
        requires
            old(self).wf(),
        ensures
            final(self).wf(),
            final(self).poss@ == full_values(T::width(), size.spec_house()).difference(remove@),
            final(self).original == Some(final(self).poss),
            final(self).current == old(self).current,
    {
        let full: BitSet<T> = BitSet::full(size.house_size());
        let to_original: BitSet<T> = full.difference(remove);
        proof { size.lemma_sizes(); T::lemma_range(full.0); }
        self.count = to_original.count_u32();
        self.original = Some(to_original);
        self.poss = to_original;
    }

    /// Goes back to the original possibilities.
    pub fn reset(&mut self)
        requires
            old(self).wf(),
            old(self).original is Some,
        ensures
            final(self).wf(),
            final(self).poss == old(self).original->Some_0,
            final(self).original == old(self).original,
            final(self).current.0.spec_nat() == 0,
    {
        self.poss = match self.original {
            Some(o) => o,
            None => BitSet::empty(),
        };
        self.current = Bit::zero();
        self.count = self.poss.count_u32();
        proof { T::lemma_range(self.poss.0); }
    }

    pub fn get(&self) -> (r: &BitSet<T>)
        ensures
            *r == self.poss,
    {
        &self.poss
    }

    /// Takes the values of `flag` out and puts the cursor back to the start.
    pub fn remove_multi(&mut self, flag: BitSet<T>)
        requires
            old(self).wf(),
        ensures
            final(self).wf(),
            final(self).poss@ == old(self).poss@.difference(flag@),
            final(self).original == old(self).original,
            final(self).current.0.spec_nat() == 0,
    {
        let res = self.poss.difference(flag);
        self.count = res.count_u32();
        self.poss = res;
        self.current = Bit::zero();
        proof { T::lemma_range(self.poss.0); }
    }

    /// The possible values as bits, in increasing order.
    pub fn as_vec(&self) -> (r: Vec<Bit<T>>)
        ensures
            r.len() == asc_from(self.poss.0.spec_nat(), 1, T::width()).len(),
            forall|k: int| 0 <= k < r.len() ==> r[k].wf() && #[trigger] r[k]@ == asc_from(self.poss.0.spec_nat(), 1, T::width())[k],
    {
        self.poss.to_bits()
    }

    pub fn poss_contains(&self, other: Bit<T>) -> (r: bool)
        ensures
            other.wf() ==> r == (other@ >= 1 && self.poss@.contains(other@)),
    {
        self.poss.contains(other)
    }

    pub fn count(&self) -> (r: u32)
        ensures
            r == self.count,
    {
        self.count
    }

    /// Returns the next possibility in a `Option<SingleFlag>`.  Returns `None` when no more possibilities
    /// are left.  Once `None` is returned, the `currentf` is reset to 0 and can reiterate through the possibilities
    pub fn next(&mut self) -> (r: Option<Bit<T>>)
        requires
            old(self).wf(),
            old(self).original is Some,
        ensures
            final(self).wf(),
            final(self).poss == old(self).poss,
            final(self).original == old(self).original,
            final(self).count == old(self).count,
            old(self).upcoming().len() == 0 ==> r is None && final(self).current.0.spec_nat() == 0,
            old(self).upcoming().len() > 0 ==> (r matches Some(b) && b.wf() && b@ == old(self).upcoming()[0]
                && final(self).current == b),
    {
        proof { T::lemma_range(self.poss.0); }
        if self.current.eq_bit(Bit::zero()) {
            self.current = Bit::one();
            if self.poss.contains(self.current) {
                proof {
                    let s = asc_from(self.poss.0.spec_nat(), 1, T::width());
                    assert(s == seq![1nat].add(asc_from(self.poss.0.spec_nat(), 2, T::width())));
                }
                return Some(self.current);
            }
        }
        loop
            invariant
                self.wf(),
                self.poss == old(self).poss,
                self.original == old(self).original,
                self.count == old(self).count,
                self.current@ >= 1,
                asc_from(self.poss.0.spec_nat(), self.current@ + 1, T::width()) == old(self).upcoming(),
            decreases T::width() + 1 - self.current@,
        {
            match self.current.inc() {
                Some(sf) => {
                    if self.poss.contains(sf) {
                        self.current = sf;
                        proof {
                            let s = asc_from(self.poss.0.spec_nat(), sf@, T::width());
                            assert(s == seq![sf@].add(asc_from(self.poss.0.spec_nat(), sf@ + 1, T::width())));
                        }
                        return Some(sf);
                    }
                    self.current = sf;
                },
                None => {
                    self.current = Bit::zero();
                    return None;
                },
            }
        }
    }
}

/// Setting the original values to all values but those of `r`, then making any operations
/// that keep the original values (every operation but `set_original`), then `reset`, gives
/// back all values but those of `r`: `states` are the values after each operation, the first
/// right after `set_original`, and `after` is what `reset` leaves.
pub proof fn lemma_reset_restores<T: BitSetInt>(states: Seq<Possibilities<T>>, size: SudokuSize, r: BitSet<T>, after: Possibilities<T>)
    requires
        states.len() >= 1,
        states[0].poss@ == full_values(T::width(), size.spec_house()).difference(r@),
        states[0].original == Some(states[0].poss),
        forall|k: int| 0 <= k < states.len() - 1 ==> (#[trigger] states[k + 1]).original == states[k].original,
        after.poss == states.last().original->Some_0,
    ensures
        after.poss@ == full_values(T::width(), size.spec_house()).difference(r@),
    decreases states.len(),
{
    if states.len() > 1 {
        let prev = states.drop_last();
        assert forall|k: int| 0 <= k < prev.len() - 1 implies (#[trigger] prev[k + 1]).original == prev[k].original by {
            assert(prev[k + 1] == states[k + 1]);
        }
        let k = states.len() - 2;
        assert(states[k + 1].original == states[k].original);
        assert(prev.last() == states[k]);
        lemma_reset_restores(prev, size, r, after);
    }
}

} // verus!
