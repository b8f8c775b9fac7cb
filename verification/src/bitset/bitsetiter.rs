use vstd::prelude::*;
use vstd::arithmetic::power2::{pow2, lemma_pow2_strictly_increases};
use crate::bitset::traits::{BitSetInt, bit_of, lemma_bit_high};
use crate::bitset::bit::Bit;
use crate::bitset::bitset::{BitSet, lemma_bit_bits};

verus! {

/// The values of `x` from `start` up to `w`, in increasing order.
pub open spec fn asc_from(x: nat, start: nat, w: nat) -> Seq<nat>
    decreases w + 1 - start,
{
    if start > w || start == 0 {
        Seq::empty()
    } else if bit_of(x, (start - 1) as nat) {
        seq![start].add(asc_from(x, start + 1, w))
    } else {
        asc_from(x, start + 1, w)
    }
}

/// No values at or above `start` when `x < 2^(start - 1)`.
pub proof fn lemma_asc_from_empty(x: nat, start: nat, w: nat)
    requires
        start >= 1,
        x < pow2((start - 1) as nat),
    ensures
        asc_from(x, start, w) == Seq::<nat>::empty(),
    decreases w + 1 - start,
{
    if start <= w {
        lemma_bit_high(x, (start - 1) as nat, (start - 1) as nat);
        lemma_pow2_strictly_increases((start - 1) as nat, start);
        lemma_asc_from_empty(x, start + 1, w);
    }
}

/// Membership in `asc_from`.
pub proof fn lemma_asc_from_contains(x: nat, start: nat, w: nat, v: nat)
    requires
        start >= 1,
    ensures
        asc_from(x, start, w).contains(v) == (start <= v <= w && bit_of(x, (v - 1) as nat)),
    decreases w + 1 - start,
{
    if start <= w {
        lemma_asc_from_contains(x, start + 1, w, v);
        if bit_of(x, (start - 1) as nat) {
            let s = seq![start].add(asc_from(x, start + 1, w));
            assert(s[0] == start);
            if asc_from(x, start + 1, w).contains(v) {
                let k = choose|k: int| 0 <= k < asc_from(x, start + 1, w).len() && #[trigger] asc_from(x, start + 1, w)[k] == v;
                assert(s[k + 1] == v);
            }
            if s.contains(v) && v != start {
                let k = choose|k: int| 0 <= k < s.len() && #[trigger] s[k] == v;
                assert(asc_from(x, start + 1, w)[k - 1] == v);
            }
        }
    }
}

/// The values of `asc_from` come in strictly increasing order, from `start` on.
pub proof fn lemma_asc_from_increasing(x: nat, start: nat, w: nat, a: int, b: int)
    requires
        start >= 1,
        0 <= a < b < asc_from(x, start, w).len(),
    ensures
        asc_from(x, start, w)[a] < asc_from(x, start, w)[b],
    decreases w + 1 - start,
{
    if start <= w {
        let rest = asc_from(x, start + 1, w);
        if bit_of(x, (start - 1) as nat) {
            let s = seq![start].add(rest);
            if a == 0 {
                assert(s[b] == rest[b - 1]);
                lemma_asc_from_contains(x, start + 1, w, rest[b - 1]);
                assert(rest.contains(rest[b - 1]));
            } else {
                assert(s[a] == rest[a - 1]);
                assert(s[b] == rest[b - 1]);
                lemma_asc_from_increasing(x, start + 1, w, a - 1, b - 1);
            }
        } else {
            lemma_asc_from_increasing(x, start + 1, w, a, b);
        }
    }
}

/// Walks the values of a set in increasing order.
pub struct BitSetIter<'a, T: BitSetInt> {
    pub set: &'a BitSet<T>,
    pub mark: Option<Bit<T>>,
}

impl<'a, T: BitSetInt> BitSetIter<'a, T> {
    /// The values still to come.
    pub open spec fn remaining(&self) -> Seq<nat> {
        match self.mark {
            None => Seq::empty(),
            Some(m) => asc_from(self.set.0.spec_nat(), if m@ == 0 { 1 } else { m@ }, T::width()),
        }
    }

    pub open spec fn wf(&self) -> bool {
        self.mark matches Some(m) ==> m.wf() && m@ <= T::width()
    }

    pub open spec fn measure(&self) -> nat {
        match self.mark {
            None => 0,
            Some(m) => (T::width() + 2 - m@) as nat,
        }
    }

    /// An iterator over all values of `bitset`.
    pub fn new(bitset: &'a BitSet<T>) -> (r: BitSetIter<'a, T>)
        ensures
            r.wf(),
            r.set == bitset,
            r.remaining() == asc_from(bitset.0.spec_nat(), 1, T::width()),
    {
        BitSetIter { set: bitset, mark: Some(Bit::zero()) }
    }

    /// The next value of the set, as its bit.
    pub fn next(&mut self) -> (r: Option<Bit<T>>)
        requires
            old(self).wf(),
        ensures
            final(self).wf(),
            final(self).set == old(self).set,
            old(self).remaining().len() == 0 ==> r is None && final(self).remaining().len() == 0,
            old(self).remaining().len() > 0 ==> (r matches Some(b) && b.wf() && b@ == old(self).remaining()[0]
                && final(self).remaining() == old(self).remaining().drop_first()),
    {
        let ghost rem = self.remaining();
        loop
            invariant
                self.wf(),
                self.set == old(self).set,
                self.remaining() == rem,
                rem == old(self).remaining(),
            decreases self.measure(),
        {
            match self.mark {
                Some(mark) => {
                    proof {
                        T::lemma_range(mark.0);
                        lemma_bit_bits(mark);
                    }
                    if self.set.0.lt_val(mark.0) {
                        proof {
                            if mark@ == 0 {
                                assert(false);
                            }
                            lemma_asc_from_empty(self.set.0.spec_nat(), mark@, T::width());
                        }
                        return None;
                    }
                    if self.set.contains(mark) {
                        let next_mark = mark.inc();
                        self.mark = next_mark;
                        proof {
                            let s = asc_from(self.set.0.spec_nat(), mark@, T::width());
                            assert(s == seq![mark@].add(asc_from(self.set.0.spec_nat(), mark@ + 1, T::width())));
                            assert(s.drop_first() =~= asc_from(self.set.0.spec_nat(), mark@ + 1, T::width()));
                        }
                        return Some(mark);
                    } else {
                        let next_mark = mark.inc();
                        proof {
                            let x = self.set.0.spec_nat();
                            if mark@ >= 1 {
                                assert(!bit_of(x, (mark@ - 1) as nat));
                                assert(asc_from(x, mark@, T::width()) == asc_from(x, mark@ + 1, T::width()));
                                if mark@ >= T::width() {
                                    assert(asc_from(x, mark@ + 1, T::width()) =~= Seq::<nat>::empty());
                                }
                            }
                        }
                        self.mark = next_mark;
                    }
                },
                None => {
                    return None;
                },
            }
        }
    }

    /// All values still to come, as bits in increasing order.
    pub fn collect_bits(&mut self) -> (r: Vec<Bit<T>>)
        requires
            old(self).wf(),
        ensures
            r.len() == old(self).remaining().len(),
            forall|k: int| 0 <= k < r.len() ==> r[k].wf() && #[trigger] r[k]@ == old(self).remaining()[k],
            final(self).remaining().len() == 0,
            final(self).set == old(self).set,
    {
        let mut out: Vec<Bit<T>> = Vec::new();
        let ghost rem = self.remaining();
        loop
            invariant
                self.wf(),
                self.set == old(self).set,
                rem == old(self).remaining(),
                out.len() + self.remaining().len() == rem.len(),
                self.remaining() == rem.subrange(out.len() as int, rem.len() as int),
                forall|k: int| 0 <= k < out.len() ==> out[k].wf() && #[trigger] out[k]@ == rem[k],
            decreases self.remaining().len(),
        {
            let ghost before = self.remaining();
            match self.next() {
                Some(b) => {
                    proof {
                        assert(rem[out.len() as int] == before[0]);
                    }
                    out.push(b);
                    proof {
                        assert(self.remaining() =~= rem.subrange(out.len() as int, rem.len() as int));
                    }
                },
                None => {
                    return out;
                },
            }
        }
    }
}

impl<T: BitSetInt> BitSet<T> {
    /// An iterator over the values of the set, in increasing order.
    pub fn iter(&self) -> (r: BitSetIter<'_, T>)
        ensures
            r.wf(),
            r.set == self,
            r.remaining() == asc_from(self.0.spec_nat(), 1, T::width()),
    {
        BitSetIter::new(self)
    }

    /// An iterator over the values of the set that starts at the first value.
    pub fn into_iter(&self) -> (r: BitSetIter<'_, T>)
        ensures
            r.wf(),
            r.set == self,
            r.remaining() == asc_from(self.0.spec_nat(), 1, T::width()),
    {
        proof { T::lemma_range(self.0); }
        BitSetIter { set: self, mark: Some(Bit::one()) }
    }

    /// The values of the set as bits, in increasing order.
    pub fn to_bits(&self) -> (r: Vec<Bit<T>>)
        ensures
            r.len() == asc_from(self.0.spec_nat(), 1, T::width()).len(),
            forall|k: int| 0 <= k < r.len() ==> r[k].wf() && #[trigger] r[k]@ == asc_from(self.0.spec_nat(), 1, T::width())[k],
    {
        let mut it = self.iter();
        it.collect_bits()
    }

    /// The values of the set, largest first, as the set is shown to a reader.
    pub fn debug_values(&self) -> (r: Vec<T>)
        ensures
            r.len() == asc_from(self.0.spec_nat(), 1, T::width()).len(),
            forall|k: int| 0 <= k < r.len() ==> #[trigger] r[k].spec_nat()
                == asc_from(self.0.spec_nat(), 1, T::width())[r.len() - 1 - k],
    {
        let bits = self.to_bits();
        let mut out: Vec<T> = Vec::new();
        let mut i = bits.len();
        while i > 0
            invariant
                i <= bits.len(),
                out.len() == bits.len() - i,
                bits.len() == asc_from(self.0.spec_nat(), 1, T::width()).len(),
                forall|k: int| 0 <= k < bits.len() ==> bits[k].wf() && #[trigger] bits[k]@ == asc_from(self.0.spec_nat(), 1, T::width())[k],
                forall|k: int| 0 <= k < out.len() ==> #[trigger] out[k].spec_nat()
                    == asc_from(self.0.spec_nat(), 1, T::width())[bits.len() - 1 - k],
            decreases i,
        {
            i = i - 1;
            out.push(bits[i].to_value());
        }
        out
    }
}

} // verus!
