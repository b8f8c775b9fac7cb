use vstd::prelude::*;
use vstd::arithmetic::power2::{pow2, lemma_pow2_pos, lemma_pow2_unfold, lemma_pow2_strictly_increases, lemma2_to64};
use crate::bitset::traits::{BitSetInt, bitlen, lemma_bitlen_bound};

verus! {

/// A single bit of an integer: the value `v` is stored as bit `v - 1`, zero as no bit.
#[derive(Copy, Clone, PartialOrd, Ord, PartialEq, Eq, Debug)]
pub struct Bit<T: BitSetInt>(pub T);

/// `2^k` has `k + 1` binary digits.
pub proof fn lemma_bitlen_pow2(k: nat)
    ensures
        bitlen(pow2(k)) == k + 1,
    decreases k,
{
    lemma_pow2_pos(k);
    if k == 0 {
        assert(pow2(0) == 1) by { lemma2_to64(); }
        assert(bitlen(1) == 1 + bitlen(0));
    } else {
        lemma_pow2_unfold(k);
        lemma_bitlen_pow2((k - 1) as nat);
    }
}

impl<T: BitSetInt> View for Bit<T> {
    type V = nat;

    /// The number the bit stands for: one more than the position of its highest one bit.
    open spec fn view(&self) -> nat {
        bitlen(self.0.spec_nat())
    }
}

impl<T: BitSetInt> Bit<T> {
    /// Zero, or a single one bit.
    pub open spec fn wf(self) -> bool {
        self.0.spec_nat() == 0 || self.0.spec_nat() == pow2((self@ - 1) as nat)
    }

    /// The bit standing for value `v` (zero for `v == 0`).
    pub open spec fn of_value(v: nat) -> nat {
        if v == 0 {
            0
        } else {
            pow2((v - 1) as nat)
        }
    }

    pub proof fn lemma_of_value(v: nat)
        requires
            v <= T::width(),
        ensures
            Self::of_value(v) < pow2(T::width()),
            bitlen(Self::of_value(v)) == v,
    {
        if v > 0 {
            lemma_bitlen_pow2((v - 1) as nat);
            lemma_pow2_strictly_increases((v - 1) as nat, T::width());
        } else {
            lemma_pow2_pos(T::width());
        }
    }

    /// Shifts the bit by one place: up when `up`, down otherwise.
    fn change(self, up: bool) -> (r: Bit<T>)
        ensures
            up ==> r.0.spec_nat() == (2 * self.0.spec_nat()) % pow2(T::width()),
            !up ==> r.0.spec_nat() == self.0.spec_nat() / 2,
    {
        if up {
            Bit(self.0.shl_one())
        } else {
            Bit(self.0.shr_one())
        }
    }

    /// The bit of the next value, or `None` from the highest bit.
    pub fn inc(self) -> (r: Option<Bit<T>>)
        ensures
            self.0.spec_nat() == pow2((T::width() - 1) as nat) ==> r is None,
            self.0.spec_nat() == 0 ==> (r matches Some(b) && b.0.spec_nat() == 1),
            self.0.spec_nat() != 0 && self.0.spec_nat() != pow2((T::width() - 1) as nat) ==> (r matches Some(b)
                && b.0.spec_nat() == (2 * self.0.spec_nat()) % pow2(T::width())),
            self.wf() && self@ < T::width() ==> (r matches Some(b) && b.wf() && b@ == self@ + 1),
            self.wf() && self@ >= T::width() ==> r is None,
    {
        proof {
            T::lemma_range(self.0);
            lemma_pow2_pos((T::width() - 1) as nat);
            if self.wf() && self.0.spec_nat() != 0 {
                lemma_bitlen_pow2((self@ - 1) as nat);
                lemma_pow2_unfold(self@);
                if self@ < T::width() {
                    lemma_pow2_strictly_increases(self@, T::width());
                    lemma_bitlen_pow2(self@);
                    assert((2 * self.0.spec_nat()) % pow2(T::width()) == 2 * self.0.spec_nat()) by {
                        vstd::arithmetic::div_mod::lemma_small_mod((2 * self.0.spec_nat()) as nat, pow2(T::width()));
                    }
                    if self@ < T::width() - 1 {
                        lemma_pow2_strictly_increases((self@ - 1) as nat, (T::width() - 1) as nat);
                    }
                } else {
                    if self@ > T::width() {
                        lemma_pow2_strictly_increases((T::width()) as nat, (self@ - 1) as nat);
                        lemma_pow2_strictly_increases((T::width() - 1) as nat, (T::width()) as nat);
                    }
                }
            }
            if self.0.spec_nat() == 0 {
                lemma_bitlen_pow2(0);
                assert(pow2(0) == 1) by { lemma2_to64(); }
            }
        }
        if self.0.eq_val(T::max_single_bit()) {
            None
        } else if self.0.is_zero() {
            Some(Bit(T::one()))
        } else {
            Some(self.change(true))
        }
    }

    /// The bit of the previous value, or `None` from zero.
    pub fn dec(self) -> (r: Option<Bit<T>>)
        ensures
            self.0.spec_nat() == 0 ==> r is None,
            self.0.spec_nat() != 0 ==> (r matches Some(b) && b.0.spec_nat() == self.0.spec_nat() / 2),
            self.wf() && self@ > 0 ==> (r matches Some(b) && b.wf() && b@ == self@ - 1),
    {
        proof {
            if self.wf() && self@ > 0 {
                lemma_bitlen_pow2((self@ - 1) as nat);
                if self@ > 1 {
                    lemma_pow2_unfold((self@ - 1) as nat);
                    lemma_bitlen_pow2((self@ - 2) as nat);
                } else {
                    assert(pow2(0) == 1) by { lemma2_to64(); }
                }
            }
        }
        if self.0.is_zero() {
            None
        } else {
            Some(self.change(false))
        }
    }

    pub fn zero() -> (r: Bit<T>)
        ensures
            r.0.spec_nat() == 0,
            r.wf(),
            r@ == 0,
    {
        Bit(T::zero())
    }

    /// Alias for `zero`.
    pub fn empty() -> (r: Bit<T>)
        ensures
            r.0.spec_nat() == 0,
            r.wf(),
            r@ == 0,
    {
        Bit::zero()
    }

    pub fn one() -> (r: Bit<T>)
        ensures
            r.0.spec_nat() == 1,
            r.wf(),
            r@ == 1,
    {
        proof {
            lemma_bitlen_pow2(0);
            assert(pow2(0) == 1) by { lemma2_to64(); }
        }
        Bit(T::one())
    }

    pub fn max() -> (r: Bit<T>)
        ensures
            r.0.spec_nat() == pow2((T::width() - 1) as nat),
            r.wf(),
            r@ == T::width(),
    {
        let r = T::max_single_bit();
        proof {
            T::lemma_range(r);
            lemma_bitlen_pow2((T::width() - 1) as nat);
        }
        Bit(r)
    }

    /// The bit of the value `value` (`1 << (value - 1)`, or no bit for zero).
    pub fn from_value(value: T) -> (r: Bit<T>)
        requires
            value.spec_nat() <= T::width(),
        ensures
            r.0.spec_nat() == Self::of_value(value.spec_nat()),
            r.wf(),
            r@ == value.spec_nat(),
    {
        proof { Self::lemma_of_value(value.spec_nat()); }
        if value.is_zero() {
            return Bit::zero();
        }
        let n: usize = match value.try_usize() {
            Some(u) => u,
            None => 0,
        };
        let mut r = T::one();
        let mut k: usize = 1;
        proof {
            T::lemma_range(value);
            assert(pow2(0) == 1) by { lemma2_to64(); }
        }
        while k < n
            invariant
                1 <= k <= n,
                n == value.spec_nat(),
                n <= T::width(),
                r.spec_nat() == pow2((k - 1) as nat),
            decreases n - k,
        {
            proof {
                lemma_pow2_strictly_increases(k as nat, T::width());
                lemma_pow2_unfold(k as nat);
                vstd::arithmetic::div_mod::lemma_small_mod((2 * r.spec_nat()) as nat, pow2(T::width()));
            }
            r = r.shl_one();
            k = k + 1;
        }
        Bit(r)
    }

    /// The value the bit stands for: the number of binary digits of the stored integer.
    pub fn to_value(self) -> (r: T)
        ensures
            r.spec_nat() == self@,
    {
        let mut val: usize = 0;
        let mut copy = self.0;
        proof {
            T::lemma_range(self.0);
            lemma_bitlen_bound(self.0.spec_nat(), T::width());
        }
        while !copy.is_zero()
            invariant
                val + bitlen(copy.spec_nat()) == bitlen(self.0.spec_nat()),
                bitlen(self.0.spec_nat()) <= T::width(),
                T::width() <= 128,
            decreases copy.spec_nat(),
        {
            val = val + 1;
            copy = copy.shr_one();
        }
        proof { T::lemma_range(copy); }
        T::from_usize(val)
    }

    /// Whether two bits are the same.
    pub fn eq_bit(self, other: Bit<T>) -> (r: bool)
        ensures
            r == (self.0.spec_nat() == other.0.spec_nat()),
    {
        self.0.eq_val(other.0)
    }
}

} // verus!
