use vstd::prelude::*;
use vstd::arithmetic::power2::{pow2, lemma_pow2_pos, lemma_pow2_unfold, lemma_pow2_strictly_increases, lemma2_to64};
use crate::bitset::traits::{BitSetInt, bit_of, popcnt, lemma_pow2_bits, lemma_zero_bits, lemma_bits_ext, lemma_bit_high, lemma_low_bit, low_bit};
use crate::bitset::bit::{Bit, lemma_bitlen_pow2};

verus! {

/// A set of values `1..=width`, value `v` held in bit `v - 1`.
#[derive(Copy, Clone, PartialOrd, PartialEq, Ord, Eq, Debug)]
pub struct BitSet<T: BitSetInt>(pub T);

/// The values held in the bits of `x`.
pub open spec fn values_of(x: nat) -> Set<nat> {
    Set::new(|v: nat| 1 <= v && bit_of(x, (v - 1) as nat))
}

impl<T: BitSetInt> View for BitSet<T> {
    type V = Set<nat>;

    open spec fn view(&self) -> Set<nat> {
        values_of(self.0.spec_nat())
    }
}

/// The bits of a well formed `Bit`.
pub proof fn lemma_bit_bits<T: BitSetInt>(b: Bit<T>)
    requires
        b.wf(),
    ensures
        forall|i: nat| #[trigger] bit_of(b.0.spec_nat(), i) == (b@ >= 1 && i == b@ - 1),
{
    assert forall|i: nat| #[trigger] bit_of(b.0.spec_nat(), i) == (b@ >= 1 && i == b@ - 1) by {
        if b.0.spec_nat() == 0 {
            lemma_zero_bits(i);
            assert(b@ == 0);
        } else {
            lemma_pow2_bits((b@ - 1) as nat, i);
            lemma_bitlen_pow2((b@ - 1) as nat);
        }
    }
}

/// The numbers `s + i` for the one bits `i` of `x`.
pub open spec fn bits_from(x: nat, s: nat) -> Set<nat> {
    Set::new(|v: nat| v >= s && bit_of(x, (v - s) as nat))
}

/// There are as many numbers `s + i` for the one bits `i` of `x` as `x` has one bits.
pub proof fn lemma_bits_from_len(x: nat, s: nat)
    ensures
        bits_from(x, s).finite(),
        bits_from(x, s).len() == popcnt(x),
    decreases x,
{
    if x == 0 {
        assert forall|v: nat| !bits_from(0, s).contains(v) by {
            if v >= s {
                lemma_zero_bits((v - s) as nat);
            }
        }
        assert(bits_from(0, s) =~= Set::<nat>::empty());
    } else {
        lemma_bits_from_len(x / 2, s + 1);
        let rest = bits_from(x / 2, s + 1);
        assert forall|v: nat| #[trigger] bits_from(x, s).contains(v) <==> (rest.contains(v) || (v == s && x % 2 == 1)) by {
            if v > s {
                assert(bit_of(x, (v - s) as nat) == bit_of(x / 2, (v - (s + 1)) as nat));
            }
        }
        if x % 2 == 1 {
            assert(bits_from(x, s) =~= rest.insert(s));
            assert(!rest.contains(s));
        } else {
            assert(bits_from(x, s) =~= rest);
        }
    }
}

/// A set of numbers holds as many values as its number has one bits.
pub proof fn lemma_values_len<T: BitSetInt>(b: BitSet<T>)
    ensures
        b@.finite(),
        b@.len() == popcnt(b.0.spec_nat()),
{
    let x = b.0.spec_nat();
    lemma_bits_from_len(x, 1);
    assert(b@ =~= bits_from(x, 1));
}

/// Values above the width are never held.
pub proof fn lemma_values_bounded<T: BitSetInt>(x: T)
    ensures
        forall|v: nat| #[trigger] values_of(x.spec_nat()).contains(v) ==> 1 <= v <= T::width(),
{
    T::lemma_range(x);
    assert forall|v: nat| #[trigger] values_of(x.spec_nat()).contains(v) implies 1 <= v <= T::width() by {
        if v > T::width() {
            lemma_bit_high(x.spec_nat(), T::width(), (v - 1) as nat);
        }
    }
}

/// Two sets with the same values are the same set.
pub proof fn lemma_view_inj<T: BitSetInt>(a: BitSet<T>, b: BitSet<T>)
    requires
        a@ == b@,
    ensures
        a == b,
{
    T::lemma_range(a.0);
    T::lemma_range(b.0);
    assert forall|i: nat| i < T::width() implies bit_of(a.0.spec_nat(), i) == bit_of(b.0.spec_nat(), i) by {
        let v: nat = i + 1;
        assert((v - 1) as nat == i);
        assert(a@.contains(v) == b@.contains(v));
        assert(a@.contains(v) == bit_of(a.0.spec_nat(), i));
        assert(b@.contains(v) == bit_of(b.0.spec_nat(), i));
    }
    lemma_bits_ext(a.0.spec_nat(), b.0.spec_nat(), T::width());
    T::lemma_nat_inj(a.0, b.0);
}

/// `2^k - 1` has exactly the bits below `k`.
pub proof fn lemma_low_ones(k: nat)
    ensures
        forall|i: nat| #[trigger] bit_of((pow2(k) - 1) as nat, i) == (i < k),
        popcnt((pow2(k) - 1) as nat) == k,
        k > 0 ==> ((pow2(k) - 1) as nat) / 2 == (pow2((k - 1) as nat) - 1) as nat,
    decreases k,
{
    lemma_pow2_pos(k);
    if k == 0 {
        assert(pow2(0) == 1) by { lemma2_to64(); }
        assert forall|i: nat| #[trigger] bit_of((pow2(k) - 1) as nat, i) == (i < k) by {
            lemma_zero_bits(i);
        }
    } else {
        lemma_pow2_unfold(k);
        lemma_pow2_pos((k - 1) as nat);
        lemma_low_ones((k - 1) as nat);
        assert forall|i: nat| #[trigger] bit_of((pow2(k) - 1) as nat, i) == (i < k) by {
            if i > 0 {
                assert(bit_of((pow2((k - 1) as nat) - 1) as nat, (i - 1) as nat) == (i - 1 < k - 1));
            }
        }
    }
}

/// A set whose count of ones is zero holds no value.
pub proof fn lemma_count_zero_empty<T: BitSetInt>(x: BitSet<T>)
    requires
        popcnt(x.0.spec_nat()) == 0,
    ensures
        x@ == Set::<nat>::empty(),
{
    crate::bitset::traits::lemma_popcnt_zero(x.0.spec_nat());
    assert(x@ =~= Set::<nat>::empty());
}

/// The stored integer of `BitSet::full(n)`.
pub open spec fn full_nat(w: nat, n: nat) -> nat {
    if n >= w {
        (pow2(w) - 1) as nat
    } else {
        (pow2(n) - 1) as nat
    }
}

/// The values `1..=n`.
pub open spec fn first_values(n: nat) -> Set<nat> {
    Set::new(|v: nat| 1 <= v <= n)
}

/// The values of `BitSet::full(n)` for a type of width `w`.
pub open spec fn full_values(w: nat, n: nat) -> Set<nat> {
    if n >= w {
        first_values(w)
    } else {
        first_values(n)
    }
}

impl<T: BitSetInt> BitSet<T> {
    /// The set of the values `1..=max`, or of all values when `max` (taken as a `u32`) is at
    /// least the width.
    pub fn full(max: usize) -> (r: BitSet<T>)
        ensures
            #[verifier::truncate] (max as u32) as nat >= T::width() ==> r.0.spec_nat() == pow2(T::width()) - 1,
            (max as u32) as nat >= T::width() ==> r@ == first_values(T::width()),
            (max as u32) as nat <= T::width() ==> r.0.spec_nat() == pow2((max as u32) as nat) - 1,
            (max as u32) as nat <= T::width() ==> r@ == first_values((max as u32) as nat),
    {
        let m = #[verifier::truncate] (max as u32);
        let mut value = T::all_ones();
        let ghost mut k: nat = T::width();
        proof {
            lemma_low_ones(k);
            T::lemma_range(value);
        }
        while value.count_u32() > m
            invariant
                value.spec_nat() == pow2(k) - 1,
                k <= T::width(),
                m == max as u32,
                k < T::width() ==> k >= m,
            decreases k,
        {
            proof {
                lemma_low_ones(k);
                assert(k > m);
                assert(value.spec_nat() != 0);
            }
            let ghost old_value = value.spec_nat();
            value = match value.dec() {
                Some(v) => v,
                None => T::zero(),
            };
            proof {
                assert(value.spec_nat() == old_value / 2);
                assert(old_value == ((pow2(k) - 1) as nat));
                assert(((pow2(k) - 1) as nat) / 2 == (pow2((k - 1) as nat) - 1) as nat);
                k = (k - 1) as nat;
                lemma_pow2_pos(k);
            }
        }
        proof {
            lemma_low_ones(k);
            let r = BitSet(value);
            if m as nat >= T::width() {
                assert(k == T::width());
            } else {
                assert(k == m as nat);
            }
            assert(r@ =~= first_values(k));
        }
        BitSet(value)
    }

    pub fn new() -> (r: BitSet<T>)
        ensures
            r.0.spec_nat() == 0,
            r@ == Set::<nat>::empty(),
    {
        let r = BitSet(T::zero());
        proof {
            assert forall|v: nat| !r@.contains(v) by {
                lemma_zero_bits((v - 1) as nat);
            }
            assert(r@ =~= Set::<nat>::empty());
        }
        r
    }

    pub fn empty() -> (r: BitSet<T>)
        ensures
            r.0.spec_nat() == 0,
            r@ == Set::<nat>::empty(),
    {
        BitSet::new()
    }

    pub fn from_binary(input: T) -> (r: BitSet<T>)
        ensures
            r.0 == input,
    {
        BitSet(input)
    }

    /// The set with the value of `bit` added.
    pub fn insert(self, to_insert: Bit<T>) -> (r: BitSet<T>)
        ensures
            forall|i: nat| #[trigger] bit_of(r.0.spec_nat(), i) == (bit_of(self.0.spec_nat(), i) || bit_of(to_insert.0.spec_nat(), i)),
            to_insert.wf() && to_insert@ == 0 ==> r@ == self@,
            to_insert.wf() && to_insert@ != 0 ==> r@ == self@.insert(to_insert@),
    {
        let r = BitSet(self.0.bit_or(to_insert.0));
        proof {
            if to_insert.wf() {
                lemma_bit_bits(to_insert);
                if to_insert@ == 0 {
                    assert(r@ =~= self@);
                } else {
                    assert(r@ =~= self@.insert(to_insert@));
                }
            }
        }
        r
    }

    /// The set with the value `value` added.
    pub fn insert_value(self, value: T) -> (r: BitSet<T>)
        requires
            value.spec_nat() <= T::width(),
        ensures
            value.spec_nat() == 0 ==> r@ == self@,
            value.spec_nat() != 0 ==> r@ == self@.insert(value.spec_nat()),
    {
        self.insert(Bit::from_value(value))
    }

    /// The set with the value of `bit` taken out.
    pub fn remove(self, to_remove: Bit<T>) -> (r: BitSet<T>)
        ensures
            forall|i: nat| #[trigger] bit_of(r.0.spec_nat(), i) == (bit_of(self.0.spec_nat(), i) && !bit_of(to_remove.0.spec_nat(), i)),
            to_remove.wf() ==> r@ == self@.remove(to_remove@),
    {
        let n = to_remove.0.bit_not();
        let r = BitSet(self.0.bit_and(n));
        proof {
            T::lemma_range(self.0);
            assert forall|i: nat| #[trigger] bit_of(r.0.spec_nat(), i) == (bit_of(self.0.spec_nat(), i) && !bit_of(to_remove.0.spec_nat(), i)) by {
                assert(bit_of(n.spec_nat(), i) == (i < T::width() && !bit_of(to_remove.0.spec_nat(), i)));
                if i >= T::width() {
                    lemma_bit_high(self.0.spec_nat(), T::width(), i);
                }
            }
            if to_remove.wf() {
                lemma_bit_bits(to_remove);
                assert(r@ =~= self@.remove(to_remove@));
            }
        }
        r
    }

    /// The set with the value `value` taken out.
    pub fn remove_value(self, value: T) -> (r: BitSet<T>)
        requires
            value.spec_nat() <= T::width(),
        ensures
            r@ == self@.remove(value.spec_nat()),
    {
        self.remove(Bit::from_value(value))
    }

    pub fn union(self, other: BitSet<T>) -> (r: BitSet<T>)
        ensures
            forall|i: nat| #[trigger] bit_of(r.0.spec_nat(), i) == (bit_of(self.0.spec_nat(), i) || bit_of(other.0.spec_nat(), i)),
            r@ == self@.union(other@),
    {
        let r = BitSet(self.0.bit_or(other.0));
        proof { assert(r@ =~= self@.union(other@)); }
        r
    }

    pub fn intersect(self, other: BitSet<T>) -> (r: BitSet<T>)
        ensures
            forall|i: nat| #[trigger] bit_of(r.0.spec_nat(), i) == (bit_of(self.0.spec_nat(), i) && bit_of(other.0.spec_nat(), i)),
            r@ == self@.intersect(other@),
    {
        let r = BitSet(self.0.bit_and(other.0));
        proof { assert(r@ =~= self@.intersect(other@)); }
        r
    }

    pub fn difference(self, other: BitSet<T>) -> (r: BitSet<T>)
        ensures
            forall|i: nat| #[trigger] bit_of(r.0.spec_nat(), i) == (bit_of(self.0.spec_nat(), i) && !bit_of(other.0.spec_nat(), i)),
            r@ == self@.difference(other@),
    {
        let r = self.remove(Bit(other.0));
        proof { assert(r@ =~= self@.difference(other@)); }
        r
    }

    /// Values in exactly one of the two sets.
    pub fn disjunct_union(self, other: BitSet<T>) -> (r: BitSet<T>)
        ensures
            forall|i: nat| #[trigger] bit_of(r.0.spec_nat(), i) == (bit_of(self.0.spec_nat(), i) != bit_of(other.0.spec_nat(), i)),
            r@ == self@.difference(other@).union(other@.difference(self@)),
    {
        let r = BitSet(self.0.bit_xor(other.0));
        proof { assert(r@ =~= self@.difference(other@).union(other@.difference(self@))); }
        r
    }

    pub fn is_disjoint(self, other: BitSet<T>) -> (r: bool)
        ensures
            r == self@.disjoint(other@),
    {
        let inter = self.intersect(other);
        proof {
            if inter.0.spec_nat() != 0 {
                lemma_low_bit(inter.0.spec_nat());
                let v = low_bit(inter.0.spec_nat()) + 1;
                assert(self@.contains(v) && other@.contains(v));
            } else {
                assert forall|v: nat| self@.contains(v) implies !other@.contains(v) by {
                    lemma_zero_bits((v - 1) as nat);
                    assert(!inter@.contains(v));
                }
            }
        }
        inter.0.is_zero()
    }

    pub fn size_u32(&self) -> (r: u32)
        ensures
            r == popcnt(self.0.spec_nat()),
    {
        self.0.count_u32()
    }

    pub fn size(&self) -> (r: T)
        ensures
            r.spec_nat() == popcnt(self.0.spec_nat()),
    {
        self.0.count()
    }

    /// Whether the set and the bit share a one bit.
    pub fn contains(self, bit: Bit<T>) -> (r: bool)
        ensures
            r == exists|i: nat| bit_of(self.0.spec_nat(), i) && bit_of(bit.0.spec_nat(), i),
            bit.wf() ==> r == (bit@ >= 1 && self@.contains(bit@)),
    {
        let inter = self.intersect(BitSet(bit.0));
        proof {
            if inter.0.spec_nat() != 0 {
                lemma_low_bit(inter.0.spec_nat());
                let i = low_bit(inter.0.spec_nat());
                assert(bit_of(self.0.spec_nat(), i) && bit_of(bit.0.spec_nat(), i));
            } else {
                assert forall|i: nat| !(bit_of(self.0.spec_nat(), i) && bit_of(bit.0.spec_nat(), i)) by {
                    lemma_zero_bits(i);
                    assert(!bit_of(inter.0.spec_nat(), i));
                }
            }
            if bit.wf() {
                lemma_bit_bits(bit);
                if bit@ >= 1 && self@.contains(bit@) {
                    assert(bit_of(self.0.spec_nat(), (bit@ - 1) as nat) && bit_of(bit.0.spec_nat(), (bit@ - 1) as nat));
                }
            }
        }
        !inter.0.is_zero()
    }

    pub fn shift_right(self) -> (r: BitSet<T>)
        ensures
            r.0.spec_nat() == self.0.spec_nat() / 2,
    {
        BitSet(self.0.shr_one())
    }

    pub fn shift_left(self) -> (r: BitSet<T>)
        ensures
            r.0.spec_nat() == (2 * self.0.spec_nat()) % pow2(T::width()),
    {
        BitSet(self.0.shl_one())
    }

    pub fn count_u32(&self) -> (r: u32)
        ensures
            r == popcnt(self.0.spec_nat()),
    {
        self.size_u32()
    }

    pub fn count(&self) -> (r: T)
        ensures
            r.spec_nat() == popcnt(self.0.spec_nat()),
    {
        self.size()
    }

    /// Whether the two sets are the same.
    pub fn eq_set(self, other: BitSet<T>) -> (r: bool)
        ensures
            r == (self.0.spec_nat() == other.0.spec_nat()),
            r == (self == other),
            r == (self@ == other@),
    {
        proof {
            T::lemma_nat_inj(self.0, other.0);
            if self@ == other@ {
                lemma_view_inj(self, other);
            }
        }
        self.0.eq_val(other.0)
    }

    /// Compares the stored integers.
    pub fn lt_set(self, other: BitSet<T>) -> (r: bool)
        ensures
            r == (self.0.spec_nat() < other.0.spec_nat()),
    {
        self.0.lt_val(other.0)
    }

    /// The set holding just the value of `bit`.
    pub fn from_bit(bit: Bit<T>) -> (r: BitSet<T>)
        ensures
            r.0 == bit.0,
            bit.wf() && bit@ == 0 ==> r@ == Set::<nat>::empty(),
            bit.wf() && bit@ != 0 ==> r@ == Set::<nat>::empty().insert(bit@),
    {
        let r = BitSet(bit.0);
        proof {
            if bit.wf() {
                lemma_bit_bits(bit);
                if bit@ == 0 {
                    assert(r@ =~= Set::<nat>::empty());
                } else {
                    assert(r@ =~= Set::<nat>::empty().insert(bit@));
                }
            }
        }
        r
    }

    /// The set holding just `value`.
    pub fn from_value(value: T) -> (r: BitSet<T>)
        requires
            value.spec_nat() <= T::width(),
        ensures
            r.0.spec_nat() == Bit::<T>::of_value(value.spec_nat()),
            value.spec_nat() == 0 ==> r@ == Set::<nat>::empty(),
            value.spec_nat() != 0 ==> r@ == Set::<nat>::empty().insert(value.spec_nat()),
    {
        BitSet::from_bit(Bit::from_value(value))
    }
}

} // verus!
