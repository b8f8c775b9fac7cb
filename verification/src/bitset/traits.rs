use vstd::prelude::*;
use vstd::arithmetic::power2::{pow2, lemma_pow2_pos, lemma_pow2_unfold, lemma_pow2_strictly_increases, lemma2_to64, lemma_pow2_adds};
use vstd::arithmetic::div_mod::{lemma_div_denominator, lemma_div_pos_is_pos, lemma_small_div_converse};

verus! {

/// Bit `i` of the natural number `x`.
pub open spec fn bit_of(x: nat, i: nat) -> bool
    decreases i,
{
    if i == 0 {
        x % 2 == 1
    } else {
        bit_of(x / 2, (i - 1) as nat)
    }
}

/// Number of ones in the binary representation of `x`.
pub open spec fn popcnt(x: nat) -> nat
    decreases x,
{
    if x == 0 {
        0
    } else {
        x % 2 + popcnt(x / 2)
    }
}

/// Number of binary digits of `x` (zero for zero).
pub open spec fn bitlen(x: nat) -> nat
    decreases x,
{
    if x == 0 {
        0
    } else {
        1 + bitlen(x / 2)
    }
}

/// Position of the lowest one bit of a positive number.
pub open spec fn low_bit(x: nat) -> nat
    decreases x,
{
    if x == 0 || x % 2 == 1 {
        0
    } else {
        1 + low_bit(x / 2)
    }
}

pub proof fn lemma_bit_is_div(x: nat, i: nat)
    ensures
        bit_of(x, i) == ((x / pow2(i)) % 2 == 1),
    decreases i,
{
    lemma_pow2_pos(i);
    if i == 0 {
        assert(pow2(0) == 1) by { lemma2_to64(); }
    } else {
        lemma_bit_is_div(x / 2, (i - 1) as nat);
        lemma_pow2_unfold(i);
        lemma_pow2_pos((i - 1) as nat);
        lemma_div_denominator(x as int, 2, pow2((i - 1) as nat) as int);
    }
}

/// Bits at or above `n` of a number below `2^n` are zero.
pub proof fn lemma_bit_high(x: nat, n: nat, i: nat)
    requires
        x < pow2(n),
        n <= i,
    ensures
        !bit_of(x, i),
{
    lemma_bit_is_div(x, i);
    if n < i {
        lemma_pow2_strictly_increases(n, i);
    }
    lemma_pow2_pos(i);
    assert(x / pow2(i) == 0) by {
        vstd::arithmetic::div_mod::lemma_basic_div(x as int, pow2(i) as int);
    }
}

/// Two numbers below `2^n` with the same bits below `n` are equal.
pub proof fn lemma_bits_ext(x: nat, y: nat, n: nat)
    requires
        x < pow2(n),
        y < pow2(n),
        forall|i: nat| i < n ==> bit_of(x, i) == bit_of(y, i),
    ensures
        x == y,
    decreases n,
{
    if n == 0 {
        assert(pow2(0) == 1) by { lemma2_to64(); }
    } else {
        lemma_pow2_unfold(n);
        assert(bit_of(x, 0) == bit_of(y, 0));
        assert forall|i: nat| i < (n - 1) as nat implies #[trigger] bit_of(x / 2, i) == bit_of(y / 2, i) by {
            assert(bit_of(x, i + 1) == bit_of(y, i + 1));
        }
        lemma_bits_ext(x / 2, y / 2, (n - 1) as nat);
    }
}

/// A positive number has its lowest one bit set.
pub proof fn lemma_low_bit(x: nat)
    requires
        x > 0,
    ensures
        bit_of(x, low_bit(x)),
    decreases x,
{
    if x % 2 == 1 {
    } else {
        lemma_low_bit(x / 2);
    }
}

/// The bits of `2^k`.
pub proof fn lemma_pow2_bits(k: nat, i: nat)
    ensures
        bit_of(pow2(k), i) == (i == k),
    decreases k,
{
    lemma_pow2_pos(k);
    if k == 0 {
        assert(pow2(0) == 1) by { lemma2_to64(); }
        if i > 0 {
            assert(bit_of(1, i) == bit_of(0, (i - 1) as nat));
            lemma_zero_bits((i - 1) as nat);
        }
    } else {
        lemma_pow2_unfold(k);
        if i == 0 {
        } else {
            assert(pow2(k) / 2 == pow2((k - 1) as nat));
            lemma_pow2_bits((k - 1) as nat, (i - 1) as nat);
        }
    }
}

pub proof fn lemma_zero_bits(i: nat)
    ensures
        !bit_of(0, i),
    decreases i,
{
    if i > 0 {
        lemma_zero_bits((i - 1) as nat);
    }
}

/// A number below `2^n` has at most `n` ones.
pub proof fn lemma_popcnt_bound(x: nat, n: nat)
    requires
        x < pow2(n),
    ensures
        popcnt(x) <= n,
    decreases n,
{
    if n == 0 {
        assert(pow2(0) == 1) by { lemma2_to64(); }
    } else {
        lemma_pow2_unfold(n);
        lemma_popcnt_bound(x / 2, (n - 1) as nat);
    }
}

/// The length of a number below `2^n` is at most `n`.
pub proof fn lemma_bitlen_bound(x: nat, n: nat)
    requires
        x < pow2(n),
    ensures
        bitlen(x) <= n,
    decreases n,
{
    if n == 0 {
        assert(pow2(0) == 1) by { lemma2_to64(); }
    } else {
        lemma_pow2_unfold(n);
        lemma_bitlen_bound(x / 2, (n - 1) as nat);
    }
}

/// Numbers with the same bits have the same number of ones.
pub proof fn lemma_popcnt_bits_eq(x: nat, y: nat)
    requires
        forall|i: nat| #[trigger] bit_of(x, i) == bit_of(y, i),
    ensures
        popcnt(x) == popcnt(y),
    decreases x + y,
{
    if x == 0 && y == 0 {
    } else if x == 0 {
        lemma_low_bit(y);
        lemma_zero_bits(low_bit(y));
        assert(bit_of(x, low_bit(y)) == bit_of(y, low_bit(y)));
    } else if y == 0 {
        lemma_low_bit(x);
        lemma_zero_bits(low_bit(x));
        assert(bit_of(x, low_bit(x)) == bit_of(y, low_bit(x)));
    } else {
        assert(bit_of(x, 0) == bit_of(y, 0));
        assert forall|i: nat| #[trigger] bit_of(x / 2, i) == bit_of(y / 2, i) by {
            assert(bit_of(x, i + 1) == bit_of(y, i + 1));
        }
        lemma_popcnt_bits_eq(x / 2, y / 2);
    }
}

/// Setting one more bit adds one to the number of ones.
pub proof fn lemma_popcnt_add_bit(x: nat, y: nat, k: nat)
    requires
        !bit_of(x, k),
        forall|i: nat| #[trigger] bit_of(y, i) == (bit_of(x, i) || i == k),
    ensures
        popcnt(y) == popcnt(x) + 1,
    decreases k,
{
    if k == 0 {
        assert(bit_of(y, 0));
        assert forall|i: nat| #[trigger] bit_of(x / 2, i) == bit_of(y / 2, i) by {
            assert(bit_of(x, i + 1) == bit_of(y, i + 1));
        }
        lemma_popcnt_bits_eq(x / 2, y / 2);
        assert(y != 0);
        if x != 0 {
        } else {
            lemma_zero_bits(0);
            assert(popcnt(0) == 0);
            assert forall|i: nat| #[trigger] bit_of(y / 2, i) == bit_of(0, i) by {
                assert(bit_of(y, i + 1) == bit_of(x, i + 1));
                lemma_zero_bits(i);
                lemma_zero_bits(i + 1);
            }
            lemma_popcnt_bits_eq(y / 2, 0);
        }
    } else {
        assert(bit_of(x, 0) == bit_of(y, 0));
        assert forall|i: nat| #[trigger] bit_of(y / 2, i) == (bit_of(x / 2, i) || i == (k - 1) as nat) by {
            assert(bit_of(y, i + 1) == (bit_of(x, i + 1) || i + 1 == k));
        }
        assert(bit_of(y, k));
        if y == 0 {
            lemma_zero_bits(k);
        }
        lemma_popcnt_add_bit(x / 2, y / 2, (k - 1) as nat);
        if x == 0 {
            lemma_zero_bits(k);
        }
    }
}

/// A number with no ones is zero.
pub proof fn lemma_popcnt_zero(x: nat)
    requires
        popcnt(x) == 0,
    ensures
        x == 0,
        forall|i: nat| !#[trigger] bit_of(x, i),
    decreases x,
{
    if x != 0 {
        lemma_popcnt_zero(x / 2);
        assert(x % 2 == 0);
        assert(x / 2 == 0);
    }
    assert forall|i: nat| !#[trigger] bit_of(x, i) by {
        lemma_zero_bits(i);
    }
}

/// An unsigned integer type whose bits hold a set of small numbers.
pub trait BitSetInt: Copy + Sized {
    /// Number of bits of the type.
    spec fn width() -> nat;

    /// The number held.
    spec fn spec_nat(self) -> nat;

    proof fn lemma_range(x: Self)
        ensures
            8 <= Self::width() <= 128,
            x.spec_nat() < pow2(Self::width()),
            pow2(Self::width()) >= 256,
    ;

    proof fn lemma_nat_inj(x: Self, y: Self)
        ensures
            x.spec_nat() == y.spec_nat() ==> x == y,
    ;

    /// Number of bits of the type.
    fn bits() -> (r: u32)
        ensures
            r == Self::width(),
    ;

    /// The highest bit alone.
    fn max_single_bit() -> (r: Self)
        ensures
            r.spec_nat() == pow2((Self::width() - 1) as nat),
    ;

    fn is_zero(self) -> (r: bool)
        ensures
            r == (self.spec_nat() == 0),
    ;

    fn zero() -> (r: Self)
        ensures
            r.spec_nat() == 0,
    ;

    fn one() -> (r: Self)
        ensures
            r.spec_nat() == 1,
    ;

    /// Doubles a positive value when the result fits; zero becomes one.
    fn inc(&self) -> (r: Option<Self>)
        ensures
            self.spec_nat() == 0 ==> r == Some(Self::one_spec()),
            self.spec_nat() != 0 && 2 * self.spec_nat() < pow2(Self::width()) ==> (r matches Some(v)
                && v.spec_nat() == 2 * self.spec_nat()),
            self.spec_nat() != 0 && 2 * self.spec_nat() >= pow2(Self::width()) ==> r is None,
    ;

    /// Halves a positive value.
    fn dec(&self) -> (r: Option<Self>)
        ensures
            self.spec_nat() == 0 ==> r is None,
            self.spec_nat() != 0 ==> (r matches Some(v) && v.spec_nat() == self.spec_nat() / 2),
    ;

    /// Number of ones.
    fn count_u32(&self) -> (r: u32)
        ensures
            r == popcnt(self.spec_nat()),
    ;

    /// Number of ones, in the type itself.
    fn count(&self) -> (r: Self)
        ensures
            r.spec_nat() == popcnt(self.spec_nat()),
    ;

    /// All bits set.
    fn all_ones() -> (r: Self)
        ensures
            r.spec_nat() == pow2(Self::width()) - 1,
    ;

    /// The type's value of a `usize` that fits.
    fn from_usize(value: usize) -> (r: Self)
        requires
            value < pow2(Self::width()),
        ensures
            r.spec_nat() == value,
    ;

    /// The one value, in spec code.
    spec fn one_spec() -> Self;

    proof fn lemma_one_spec()
        ensures
            Self::one_spec().spec_nat() == 1,
    ;

    /// The value as a `usize`, where it fits.
    /// The value as a `u128`.
    fn to_u128(self) -> (r: u128)
        ensures
            r == self.spec_nat(),
    ;

    fn try_usize(self) -> (r: Option<usize>)
        ensures
            r matches Some(u) ==> u == self.spec_nat(),
            r is None ==> self.spec_nat() > usize::MAX,
    ;

    /// The type's value of a `u32`, where it fits.
    fn try_from_u32(value: u32) -> (r: Option<Self>)
        ensures
            r matches Some(v) ==> v.spec_nat() == value,
            r is None ==> value >= pow2(Self::width()),
    ;

    fn eq_val(self, other: Self) -> (r: bool)
        ensures
            r == (self.spec_nat() == other.spec_nat()),
    ;

    fn lt_val(self, other: Self) -> (r: bool)
        ensures
            r == (self.spec_nat() < other.spec_nat()),
    ;

    /// Shift left by one, dropping the bit shifted out.
    fn shl_one(self) -> (r: Self)
        ensures
            r.spec_nat() == (2 * self.spec_nat()) % pow2(Self::width()),
    ;

    /// Shift right by one.
    fn shr_one(self) -> (r: Self)
        ensures
            r.spec_nat() == self.spec_nat() / 2,
    ;

    fn bit_or(self, other: Self) -> (r: Self)
        ensures
            forall|i: nat| #[trigger] bit_of(r.spec_nat(), i) == (bit_of(self.spec_nat(), i) || bit_of(other.spec_nat(), i)),
    ;

    fn bit_and(self, other: Self) -> (r: Self)
        ensures
            forall|i: nat| #[trigger] bit_of(r.spec_nat(), i) == (bit_of(self.spec_nat(), i) && bit_of(other.spec_nat(), i)),
    ;

    fn bit_xor(self, other: Self) -> (r: Self)
        ensures
            forall|i: nat| #[trigger] bit_of(r.spec_nat(), i) == (bit_of(self.spec_nat(), i) != bit_of(other.spec_nat(), i)),
    ;

    fn bit_not(self) -> (r: Self)
        ensures
            forall|i: nat| #[trigger] bit_of(r.spec_nat(), i) == (i < Self::width() && !bit_of(self.spec_nat(), i)),
    ;
}

proof fn lemma_u16_bitwise(a: u16, b: u16)
    ensures
        forall|i: nat| #[trigger] bit_of((a | b) as nat, i) == (bit_of(a as nat, i) || bit_of(b as nat, i)),
        forall|i: nat| #[trigger] bit_of((a & b) as nat, i) == (bit_of(a as nat, i) && bit_of(b as nat, i)),
        forall|i: nat| #[trigger] bit_of((a ^ b) as nat, i) == (bit_of(a as nat, i) != bit_of(b as nat, i)),
        forall|i: nat| #[trigger] bit_of((!a) as nat, i) == (i < 16 && !bit_of(a as nat, i)),
{
    lemma2_to64();
    assert forall|i: nat|
        #![trigger bit_of((a | b) as nat, i)]
        #![trigger bit_of((a & b) as nat, i)]
        #![trigger bit_of((a ^ b) as nat, i)]
        #![trigger bit_of((!a) as nat, i)]
        (bit_of((a | b) as nat, i) == (bit_of(a as nat, i) || bit_of(b as nat, i)))
        && (bit_of((a & b) as nat, i) == (bit_of(a as nat, i) && bit_of(b as nat, i)))
        && (bit_of((a ^ b) as nat, i) == (bit_of(a as nat, i) != bit_of(b as nat, i)))
        && (bit_of((!a) as nat, i) == (i < 16 && !bit_of(a as nat, i))) by {
        if i < 16 {
            let j = i as u16;
            lemma_bit_is_div((a | b) as nat, i);
            lemma_bit_is_div((a & b) as nat, i);
            lemma_bit_is_div((a ^ b) as nat, i);
            lemma_bit_is_div((!a) as nat, i);
            lemma_bit_is_div(a as nat, i);
            lemma_bit_is_div(b as nat, i);
            vstd::bits::lemma_u16_shr_is_div(a | b, j);
            vstd::bits::lemma_u16_shr_is_div(a & b, j);
            vstd::bits::lemma_u16_shr_is_div(a ^ b, j);
            vstd::bits::lemma_u16_shr_is_div(!a, j);
            vstd::bits::lemma_u16_shr_is_div(a, j);
            vstd::bits::lemma_u16_shr_is_div(b, j);
            assert(
                ((((a | b) >> j) % 2 == 1) == (((a >> j) % 2 == 1) || ((b >> j) % 2 == 1)))
                && ((((a & b) >> j) % 2 == 1) == (((a >> j) % 2 == 1) && ((b >> j) % 2 == 1)))
                && ((((a ^ b) >> j) % 2 == 1) == (((a >> j) % 2 == 1) != ((b >> j) % 2 == 1)))
                && ((((!a) >> j) % 2 == 1) == !((a >> j) % 2 == 1))
            ) by (bit_vector)
                requires j < 16;
        } else {
            lemma_bit_high((a | b) as nat, 16, i);
            lemma_bit_high((a & b) as nat, 16, i);
            lemma_bit_high((a ^ b) as nat, 16, i);
            lemma_bit_high((!a) as nat, 16, i);
            lemma_bit_high(a as nat, 16, i);
            lemma_bit_high(b as nat, 16, i);
        }
    }
}

impl BitSetInt for u16 {
    open spec fn width() -> nat {
        16
    }

    fn bits() -> (r: u32) {
        16
    }

    open spec fn spec_nat(self) -> nat {
        self as nat
    }

    proof fn lemma_range(x: Self) {
        lemma2_to64();
    }

    proof fn lemma_nat_inj(x: Self, y: Self) {
    }

    fn max_single_bit() -> (r: Self) {
        proof { lemma2_to64(); }
        0x8000
    }

    fn is_zero(self) -> (r: bool) {
        self == 0
    }

    fn zero() -> (r: Self) {
        0
    }

    fn one() -> (r: Self) {
        1
    }

    fn inc(&self) -> (r: Option<Self>) {
        proof { lemma2_to64(); }
        if *self == 0 {
            return Some(1);
        }
        let new = self.shl_one();
        if new > *self {
            Some(new)
        } else {
            None
        }
    }

    fn dec(&self) -> (r: Option<Self>) {
        let new = *self / 2;
        if new == *self {
            None
        } else {
            Some(new)
        }
    }

    fn count_u32(&self) -> (r: u32) {
        let mut x = *self;
        let mut c: u32 = 0;
        proof {
            lemma2_to64();
            lemma_popcnt_bound(x as nat, 16);
        }
        while x != 0
            invariant
                c + popcnt(x as nat) == popcnt(*self as nat),
                popcnt(*self as nat) <= 16,
            decreases x,
        {
            c = c + (x % 2) as u32;
            x = x / 2;
        }
        c
    }

    fn count(&self) -> (r: Self) {
        let c = self.count_u32();
        proof {
            lemma2_to64();
            lemma_popcnt_bound(*self as nat, 16);
        }
        c as u16
    }

    fn all_ones() -> (r: Self) {
        proof { lemma2_to64(); }
        0xFFFF
    }

    fn from_usize(value: usize) -> (r: Self) {
        proof { lemma2_to64(); }
        value as u16
    }

    open spec fn one_spec() -> Self {
        1
    }

    proof fn lemma_one_spec() {
    }

    fn to_u128(self) -> (r: u128) {
        self as u128
    }

    fn try_usize(self) -> (r: Option<usize>) {
        Some(self as usize)
    }

    fn try_from_u32(value: u32) -> (r: Option<Self>) {
        proof { lemma2_to64(); }
        if value <= 0xFFFF {
            Some(value as u16)
        } else {
            None
        }
    }

    fn eq_val(self, other: Self) -> (r: bool) {
        self == other
    }

    fn lt_val(self, other: Self) -> (r: bool) {
        self < other
    }

    fn shl_one(self) -> (r: Self) {
        proof { lemma2_to64(); }
        if self < 0x8000 {
            self * 2
        } else {
            (self - 0x8000) * 2
        }
    }

    fn shr_one(self) -> (r: Self) {
        self / 2
    }

    fn bit_or(self, other: Self) -> (r: Self) {
        proof { lemma_u16_bitwise(self, other); }
        self | other
    }

    fn bit_and(self, other: Self) -> (r: Self) {
        proof { lemma_u16_bitwise(self, other); }
        self & other
    }

    fn bit_xor(self, other: Self) -> (r: Self) {
        proof { lemma_u16_bitwise(self, other); }
        self ^ other
    }

    fn bit_not(self) -> (r: Self) {
        proof { lemma_u16_bitwise(self, self); }
        !self
    }
}

proof fn lemma_u8_bitwise(a: u8, b: u8)
    ensures
        forall|i: nat| #[trigger] bit_of((a | b) as nat, i) == (bit_of(a as nat, i) || bit_of(b as nat, i)),
        forall|i: nat| #[trigger] bit_of((a & b) as nat, i) == (bit_of(a as nat, i) && bit_of(b as nat, i)),
        forall|i: nat| #[trigger] bit_of((a ^ b) as nat, i) == (bit_of(a as nat, i) != bit_of(b as nat, i)),
        forall|i: nat| #[trigger] bit_of((!a) as nat, i) == (i < 8 && !bit_of(a as nat, i)),
{
    lemma2_to64();
    assert forall|i: nat|
        #![trigger bit_of((a | b) as nat, i)]
        #![trigger bit_of((a & b) as nat, i)]
        #![trigger bit_of((a ^ b) as nat, i)]
        #![trigger bit_of((!a) as nat, i)]
        (bit_of((a | b) as nat, i) == (bit_of(a as nat, i) || bit_of(b as nat, i)))
        && (bit_of((a & b) as nat, i) == (bit_of(a as nat, i) && bit_of(b as nat, i)))
        && (bit_of((a ^ b) as nat, i) == (bit_of(a as nat, i) != bit_of(b as nat, i)))
        && (bit_of((!a) as nat, i) == (i < 8 && !bit_of(a as nat, i))) by {
        if i < 8 {
            let j = i as u8;
            lemma_bit_is_div((a | b) as nat, i);
            lemma_bit_is_div((a & b) as nat, i);
            lemma_bit_is_div((a ^ b) as nat, i);
            lemma_bit_is_div((!a) as nat, i);
            lemma_bit_is_div(a as nat, i);
            lemma_bit_is_div(b as nat, i);
            vstd::bits::lemma_u8_shr_is_div(a | b, j);
            vstd::bits::lemma_u8_shr_is_div(a & b, j);
            vstd::bits::lemma_u8_shr_is_div(a ^ b, j);
            vstd::bits::lemma_u8_shr_is_div(!a, j);
            vstd::bits::lemma_u8_shr_is_div(a, j);
            vstd::bits::lemma_u8_shr_is_div(b, j);
            assert(
                ((((a | b) >> j) % 2 == 1) == (((a >> j) % 2 == 1) || ((b >> j) % 2 == 1)))
                && ((((a & b) >> j) % 2 == 1) == (((a >> j) % 2 == 1) && ((b >> j) % 2 == 1)))
                && ((((a ^ b) >> j) % 2 == 1) == (((a >> j) % 2 == 1) != ((b >> j) % 2 == 1)))
                && ((((!a) >> j) % 2 == 1) == !((a >> j) % 2 == 1))
            ) by (bit_vector)
                requires j < 8;
        } else {
            lemma_bit_high((a | b) as nat, 8, i);
            lemma_bit_high((a & b) as nat, 8, i);
            lemma_bit_high((a ^ b) as nat, 8, i);
            lemma_bit_high((!a) as nat, 8, i);
            lemma_bit_high(a as nat, 8, i);
            lemma_bit_high(b as nat, 8, i);
        }
    }
}

impl BitSetInt for u8 {
    open spec fn width() -> nat {
        8
    }

    fn bits() -> (r: u32) {
        8
    }

    open spec fn spec_nat(self) -> nat {
        self as nat
    }

    proof fn lemma_range(x: Self) {
        lemma2_to64();
    }

    proof fn lemma_nat_inj(x: Self, y: Self) {
    }

    fn max_single_bit() -> (r: Self) {
        proof { lemma2_to64(); }
        0x80
    }

    fn is_zero(self) -> (r: bool) {
        self == 0
    }

    fn zero() -> (r: Self) {
        0
    }

    fn one() -> (r: Self) {
        1
    }

    fn inc(&self) -> (r: Option<Self>) {
        proof { lemma2_to64(); }
        if *self == 0 {
            return Some(1);
        }
        let new = self.shl_one();
        if new > *self {
            Some(new)
        } else {
            None
        }
    }

    fn dec(&self) -> (r: Option<Self>) {
        let new = *self / 2;
        if new == *self {
            None
        } else {
            Some(new)
        }
    }

    fn count_u32(&self) -> (r: u32) {
        let mut x = *self;
        let mut c: u32 = 0;
        proof {
            lemma2_to64();
            lemma_popcnt_bound(x as nat, 8);
        }
        while x != 0
            invariant
                c + popcnt(x as nat) == popcnt(*self as nat),
                popcnt(*self as nat) <= 8,
            decreases x,
        {
            c = c + (x % 2) as u32;
            x = x / 2;
        }
        c
    }

    fn count(&self) -> (r: Self) {
        let c = self.count_u32();
        proof {
            lemma2_to64();
            lemma_popcnt_bound(*self as nat, 8);
        }
        c as u8
    }

    fn all_ones() -> (r: Self) {
        proof { lemma2_to64(); }
        0xFF
    }

    fn from_usize(value: usize) -> (r: Self) {
        proof { lemma2_to64(); }
        value as u8
    }

    open spec fn one_spec() -> Self {
        1
    }

    proof fn lemma_one_spec() {
    }

    fn to_u128(self) -> (r: u128) {
        self as u128
    }

    fn try_usize(self) -> (r: Option<usize>) {
        Some(self as usize)
    }

    fn try_from_u32(value: u32) -> (r: Option<Self>) {
        proof { lemma2_to64(); }
        if value <= 0xFF {
            Some(value as u8)
        } else {
            None
        }
    }

    fn eq_val(self, other: Self) -> (r: bool) {
        self == other
    }

    fn lt_val(self, other: Self) -> (r: bool) {
        self < other
    }

    fn shl_one(self) -> (r: Self) {
        proof { lemma2_to64(); }
        if self < 0x80 {
            self * 2
        } else {
            (self - 0x80) * 2
        }
    }

    fn shr_one(self) -> (r: Self) {
        self / 2
    }

    fn bit_or(self, other: Self) -> (r: Self) {
        proof { lemma_u8_bitwise(self, other); }
        self | other
    }

    fn bit_and(self, other: Self) -> (r: Self) {
        proof { lemma_u8_bitwise(self, other); }
        self & other
    }

    fn bit_xor(self, other: Self) -> (r: Self) {
        proof { lemma_u8_bitwise(self, other); }
        self ^ other
    }

    fn bit_not(self) -> (r: Self) {
        proof { lemma_u8_bitwise(self, self); }
        !self
    }
}


proof fn lemma_u32_bitwise(a: u32, b: u32)
    ensures
        forall|i: nat| #[trigger] bit_of((a | b) as nat, i) == (bit_of(a as nat, i) || bit_of(b as nat, i)),
        forall|i: nat| #[trigger] bit_of((a & b) as nat, i) == (bit_of(a as nat, i) && bit_of(b as nat, i)),
        forall|i: nat| #[trigger] bit_of((a ^ b) as nat, i) == (bit_of(a as nat, i) != bit_of(b as nat, i)),
        forall|i: nat| #[trigger] bit_of((!a) as nat, i) == (i < 32 && !bit_of(a as nat, i)),
{
    lemma2_to64();
    assert forall|i: nat|
        #![trigger bit_of((a | b) as nat, i)]
        #![trigger bit_of((a & b) as nat, i)]
        #![trigger bit_of((a ^ b) as nat, i)]
        #![trigger bit_of((!a) as nat, i)]
        (bit_of((a | b) as nat, i) == (bit_of(a as nat, i) || bit_of(b as nat, i)))
        && (bit_of((a & b) as nat, i) == (bit_of(a as nat, i) && bit_of(b as nat, i)))
        && (bit_of((a ^ b) as nat, i) == (bit_of(a as nat, i) != bit_of(b as nat, i)))
        && (bit_of((!a) as nat, i) == (i < 32 && !bit_of(a as nat, i))) by {
        if i < 32 {
            let j = i as u32;
            lemma_bit_is_div((a | b) as nat, i);
            lemma_bit_is_div((a & b) as nat, i);
            lemma_bit_is_div((a ^ b) as nat, i);
            lemma_bit_is_div((!a) as nat, i);
            lemma_bit_is_div(a as nat, i);
            lemma_bit_is_div(b as nat, i);
            vstd::bits::lemma_u32_shr_is_div(a | b, j);
            vstd::bits::lemma_u32_shr_is_div(a & b, j);
            vstd::bits::lemma_u32_shr_is_div(a ^ b, j);
            vstd::bits::lemma_u32_shr_is_div(!a, j);
            vstd::bits::lemma_u32_shr_is_div(a, j);
            vstd::bits::lemma_u32_shr_is_div(b, j);
            assert(
                ((((a | b) >> j) % 2 == 1) == (((a >> j) % 2 == 1) || ((b >> j) % 2 == 1)))
                && ((((a & b) >> j) % 2 == 1) == (((a >> j) % 2 == 1) && ((b >> j) % 2 == 1)))
                && ((((a ^ b) >> j) % 2 == 1) == (((a >> j) % 2 == 1) != ((b >> j) % 2 == 1)))
                && ((((!a) >> j) % 2 == 1) == !((a >> j) % 2 == 1))
            ) by (bit_vector)
                requires j < 32;
        } else {
            lemma_bit_high((a | b) as nat, 32, i);
            lemma_bit_high((a & b) as nat, 32, i);
            lemma_bit_high((a ^ b) as nat, 32, i);
            lemma_bit_high((!a) as nat, 32, i);
            lemma_bit_high(a as nat, 32, i);
            lemma_bit_high(b as nat, 32, i);
        }
    }
}

impl BitSetInt for u32 {
    open spec fn width() -> nat {
        32
    }

    fn bits() -> (r: u32) {
        32
    }

    open spec fn spec_nat(self) -> nat {
        self as nat
    }

    proof fn lemma_range(x: Self) {
        lemma2_to64();
    }

    proof fn lemma_nat_inj(x: Self, y: Self) {
    }

    fn max_single_bit() -> (r: Self) {
        proof { lemma2_to64(); }
        0x8000_0000
    }

    fn is_zero(self) -> (r: bool) {
        self == 0
    }

    fn zero() -> (r: Self) {
        0
    }

    fn one() -> (r: Self) {
        1
    }

    fn inc(&self) -> (r: Option<Self>) {
        proof { lemma2_to64(); }
        if *self == 0 {
            return Some(1);
        }
        let new = self.shl_one();
        if new > *self {
            Some(new)
        } else {
            None
        }
    }

    fn dec(&self) -> (r: Option<Self>) {
        let new = *self / 2;
        if new == *self {
            None
        } else {
            Some(new)
        }
    }

    fn count_u32(&self) -> (r: u32) {
        let mut x = *self;
        let mut c: u32 = 0;
        proof {
            lemma2_to64();
            lemma_popcnt_bound(x as nat, 32);
        }
        while x != 0
            invariant
                c + popcnt(x as nat) == popcnt(*self as nat),
                popcnt(*self as nat) <= 32,
            decreases x,
        {
            c = c + (x % 2) as u32;
            x = x / 2;
        }
        c
    }

    fn count(&self) -> (r: Self) {
        let c = self.count_u32();
        proof {
            lemma2_to64();
            lemma_popcnt_bound(*self as nat, 32);
        }
        c as u32
    }

    fn all_ones() -> (r: Self) {
        proof { lemma2_to64(); }
        0xFFFF_FFFF
    }

    fn from_usize(value: usize) -> (r: Self) {
        proof { lemma2_to64(); }
        value as u32
    }

    open spec fn one_spec() -> Self {
        1
    }

    proof fn lemma_one_spec() {
    }

    fn to_u128(self) -> (r: u128) {
        self as u128
    }

    fn try_usize(self) -> (r: Option<usize>) {
        Some(self as usize)
    }

    fn try_from_u32(value: u32) -> (r: Option<Self>) {
        proof { lemma2_to64(); }
        Some(value as u32)
    }

    fn eq_val(self, other: Self) -> (r: bool) {
        self == other
    }

    fn lt_val(self, other: Self) -> (r: bool) {
        self < other
    }

    fn shl_one(self) -> (r: Self) {
        proof { lemma2_to64(); }
        if self < 0x8000_0000 {
            self * 2
        } else {
            (self - 0x8000_0000) * 2
        }
    }

    fn shr_one(self) -> (r: Self) {
        self / 2
    }

    fn bit_or(self, other: Self) -> (r: Self) {
        proof { lemma_u32_bitwise(self, other); }
        self | other
    }

    fn bit_and(self, other: Self) -> (r: Self) {
        proof { lemma_u32_bitwise(self, other); }
        self & other
    }

    fn bit_xor(self, other: Self) -> (r: Self) {
        proof { lemma_u32_bitwise(self, other); }
        self ^ other
    }

    fn bit_not(self) -> (r: Self) {
        proof { lemma_u32_bitwise(self, self); }
        !self
    }
}


proof fn lemma_u64_bitwise(a: u64, b: u64)
    ensures
        forall|i: nat| #[trigger] bit_of((a | b) as nat, i) == (bit_of(a as nat, i) || bit_of(b as nat, i)),
        forall|i: nat| #[trigger] bit_of((a & b) as nat, i) == (bit_of(a as nat, i) && bit_of(b as nat, i)),
        forall|i: nat| #[trigger] bit_of((a ^ b) as nat, i) == (bit_of(a as nat, i) != bit_of(b as nat, i)),
        forall|i: nat| #[trigger] bit_of((!a) as nat, i) == (i < 64 && !bit_of(a as nat, i)),
{
    lemma2_to64();
    assert forall|i: nat|
        #![trigger bit_of((a | b) as nat, i)]
        #![trigger bit_of((a & b) as nat, i)]
        #![trigger bit_of((a ^ b) as nat, i)]
        #![trigger bit_of((!a) as nat, i)]
        (bit_of((a | b) as nat, i) == (bit_of(a as nat, i) || bit_of(b as nat, i)))
        && (bit_of((a & b) as nat, i) == (bit_of(a as nat, i) && bit_of(b as nat, i)))
        && (bit_of((a ^ b) as nat, i) == (bit_of(a as nat, i) != bit_of(b as nat, i)))
        && (bit_of((!a) as nat, i) == (i < 64 && !bit_of(a as nat, i))) by {
        if i < 64 {
            let j = i as u64;
            lemma_bit_is_div((a | b) as nat, i);
            lemma_bit_is_div((a & b) as nat, i);
            lemma_bit_is_div((a ^ b) as nat, i);
            lemma_bit_is_div((!a) as nat, i);
            lemma_bit_is_div(a as nat, i);
            lemma_bit_is_div(b as nat, i);
            vstd::bits::lemma_u64_shr_is_div(a | b, j);
            vstd::bits::lemma_u64_shr_is_div(a & b, j);
            vstd::bits::lemma_u64_shr_is_div(a ^ b, j);
            vstd::bits::lemma_u64_shr_is_div(!a, j);
            vstd::bits::lemma_u64_shr_is_div(a, j);
            vstd::bits::lemma_u64_shr_is_div(b, j);
            assert(
                ((((a | b) >> j) % 2 == 1) == (((a >> j) % 2 == 1) || ((b >> j) % 2 == 1)))
                && ((((a & b) >> j) % 2 == 1) == (((a >> j) % 2 == 1) && ((b >> j) % 2 == 1)))
                && ((((a ^ b) >> j) % 2 == 1) == (((a >> j) % 2 == 1) != ((b >> j) % 2 == 1)))
                && ((((!a) >> j) % 2 == 1) == !((a >> j) % 2 == 1))
            ) by (bit_vector)
                requires j < 64;
        } else {
            lemma_bit_high((a | b) as nat, 64, i);
            lemma_bit_high((a & b) as nat, 64, i);
            lemma_bit_high((a ^ b) as nat, 64, i);
            lemma_bit_high((!a) as nat, 64, i);
            lemma_bit_high(a as nat, 64, i);
            lemma_bit_high(b as nat, 64, i);
        }
    }
}

impl BitSetInt for u64 {
    open spec fn width() -> nat {
        64
    }

    fn bits() -> (r: u32) {
        64
    }

    open spec fn spec_nat(self) -> nat {
        self as nat
    }

    proof fn lemma_range(x: Self) {
        lemma2_to64();
    }

    proof fn lemma_nat_inj(x: Self, y: Self) {
    }

    fn max_single_bit() -> (r: Self) {
        proof { lemma2_to64(); lemma_pow2_unfold(64); }
        0x8000_0000_0000_0000
    }

    fn is_zero(self) -> (r: bool) {
        self == 0
    }

    fn zero() -> (r: Self) {
        0
    }

    fn one() -> (r: Self) {
        1
    }

    fn inc(&self) -> (r: Option<Self>) {
        proof { lemma2_to64(); }
        if *self == 0 {
            return Some(1);
        }
        let new = self.shl_one();
        if new > *self {
            Some(new)
        } else {
            None
        }
    }

    fn dec(&self) -> (r: Option<Self>) {
        let new = *self / 2;
        if new == *self {
            None
        } else {
            Some(new)
        }
    }

    fn count_u32(&self) -> (r: u32) {
        let mut x = *self;
        let mut c: u32 = 0;
        proof {
            lemma2_to64();
            lemma_popcnt_bound(x as nat, 64);
        }
        while x != 0
            invariant
                c + popcnt(x as nat) == popcnt(*self as nat),
                popcnt(*self as nat) <= 64,
            decreases x,
        {
            c = c + (x % 2) as u32;
            x = x / 2;
        }
        c
    }

    fn count(&self) -> (r: Self) {
        let c = self.count_u32();
        proof {
            lemma2_to64();
            lemma_popcnt_bound(*self as nat, 64);
        }
        c as u64
    }

    fn all_ones() -> (r: Self) {
        proof { lemma2_to64(); }
        0xFFFF_FFFF_FFFF_FFFF
    }

    fn from_usize(value: usize) -> (r: Self) {
        proof { lemma2_to64(); }
        value as u64
    }

    open spec fn one_spec() -> Self {
        1
    }

    proof fn lemma_one_spec() {
    }

    fn to_u128(self) -> (r: u128) {
        self as u128
    }

    fn try_usize(self) -> (r: Option<usize>) {
        if (self as u128) <= (usize::MAX as u128) {
            Some(self as usize)
        } else {
            None
        }
    }

    fn try_from_u32(value: u32) -> (r: Option<Self>) {
        proof { lemma2_to64(); }
        Some(value as u64)
    }

    fn eq_val(self, other: Self) -> (r: bool) {
        self == other
    }

    fn lt_val(self, other: Self) -> (r: bool) {
        self < other
    }

    fn shl_one(self) -> (r: Self) {
        proof { lemma2_to64(); }
        if self < 0x8000_0000_0000_0000 {
            self * 2
        } else {
            (self - 0x8000_0000_0000_0000) * 2
        }
    }

    fn shr_one(self) -> (r: Self) {
        self / 2
    }

    fn bit_or(self, other: Self) -> (r: Self) {
        proof { lemma_u64_bitwise(self, other); }
        self | other
    }

    fn bit_and(self, other: Self) -> (r: Self) {
        proof { lemma_u64_bitwise(self, other); }
        self & other
    }

    fn bit_xor(self, other: Self) -> (r: Self) {
        proof { lemma_u64_bitwise(self, other); }
        self ^ other
    }

    fn bit_not(self) -> (r: Self) {
        proof { lemma_u64_bitwise(self, self); }
        !self
    }
}


proof fn lemma_u128_bitwise(a: u128, b: u128)
    ensures
        forall|i: nat| #[trigger] bit_of((a | b) as nat, i) == (bit_of(a as nat, i) || bit_of(b as nat, i)),
        forall|i: nat| #[trigger] bit_of((a & b) as nat, i) == (bit_of(a as nat, i) && bit_of(b as nat, i)),
        forall|i: nat| #[trigger] bit_of((a ^ b) as nat, i) == (bit_of(a as nat, i) != bit_of(b as nat, i)),
        forall|i: nat| #[trigger] bit_of((!a) as nat, i) == (i < 128 && !bit_of(a as nat, i)),
{
    lemma2_to64(); lemma_pow2_adds(64, 64);
    assert forall|i: nat|
        #![trigger bit_of((a | b) as nat, i)]
        #![trigger bit_of((a & b) as nat, i)]
        #![trigger bit_of((a ^ b) as nat, i)]
        #![trigger bit_of((!a) as nat, i)]
        (bit_of((a | b) as nat, i) == (bit_of(a as nat, i) || bit_of(b as nat, i)))
        && (bit_of((a & b) as nat, i) == (bit_of(a as nat, i) && bit_of(b as nat, i)))
        && (bit_of((a ^ b) as nat, i) == (bit_of(a as nat, i) != bit_of(b as nat, i)))
        && (bit_of((!a) as nat, i) == (i < 128 && !bit_of(a as nat, i))) by {
        if i < 128 {
            let j = i as u128;
            lemma_bit_is_div((a | b) as nat, i);
            lemma_bit_is_div((a & b) as nat, i);
            lemma_bit_is_div((a ^ b) as nat, i);
            lemma_bit_is_div((!a) as nat, i);
            lemma_bit_is_div(a as nat, i);
            lemma_bit_is_div(b as nat, i);
            vstd::bits::lemma_u128_shr_is_div(a | b, j);
            vstd::bits::lemma_u128_shr_is_div(a & b, j);
            vstd::bits::lemma_u128_shr_is_div(a ^ b, j);
            vstd::bits::lemma_u128_shr_is_div(!a, j);
            vstd::bits::lemma_u128_shr_is_div(a, j);
            vstd::bits::lemma_u128_shr_is_div(b, j);
            assert(
                ((((a | b) >> j) % 2 == 1) == (((a >> j) % 2 == 1) || ((b >> j) % 2 == 1)))
                && ((((a & b) >> j) % 2 == 1) == (((a >> j) % 2 == 1) && ((b >> j) % 2 == 1)))
                && ((((a ^ b) >> j) % 2 == 1) == (((a >> j) % 2 == 1) != ((b >> j) % 2 == 1)))
                && ((((!a) >> j) % 2 == 1) == !((a >> j) % 2 == 1))
            ) by (bit_vector)
                requires j < 128;
        } else {
            lemma_bit_high((a | b) as nat, 128, i);
            lemma_bit_high((a & b) as nat, 128, i);
            lemma_bit_high((a ^ b) as nat, 128, i);
            lemma_bit_high((!a) as nat, 128, i);
            lemma_bit_high(a as nat, 128, i);
            lemma_bit_high(b as nat, 128, i);
        }
    }
}

impl BitSetInt for u128 {
    open spec fn width() -> nat {
        128
    }

    fn bits() -> (r: u32) {
        128
    }

    open spec fn spec_nat(self) -> nat {
        self as nat
    }

    proof fn lemma_range(x: Self) {
        lemma2_to64(); lemma_pow2_adds(64, 64);
    }

    proof fn lemma_nat_inj(x: Self, y: Self) {
    }

    fn max_single_bit() -> (r: Self) {
        proof { lemma2_to64(); lemma_pow2_unfold(64); lemma_pow2_adds(64, 63); }
        0x8000_0000_0000_0000_0000_0000_0000_0000
    }

    fn is_zero(self) -> (r: bool) {
        self == 0
    }

    fn zero() -> (r: Self) {
        0
    }

    fn one() -> (r: Self) {
        1
    }

    fn inc(&self) -> (r: Option<Self>) {
        proof { lemma2_to64(); lemma_pow2_adds(64, 64); }
        if *self == 0 {
            return Some(1);
        }
        let new = self.shl_one();
        if new > *self {
            Some(new)
        } else {
            None
        }
    }

    fn dec(&self) -> (r: Option<Self>) {
        let new = *self / 2;
        if new == *self {
            None
        } else {
            Some(new)
        }
    }

    fn count_u32(&self) -> (r: u32) {
        let mut x = *self;
        let mut c: u32 = 0;
        proof {
            lemma2_to64(); lemma_pow2_adds(64, 64);
            lemma_popcnt_bound(x as nat, 128);
        }
        while x != 0
            invariant
                c + popcnt(x as nat) == popcnt(*self as nat),
                popcnt(*self as nat) <= 128,
            decreases x,
        {
            c = c + (x % 2) as u32;
            x = x / 2;
        }
        c
    }

    fn count(&self) -> (r: Self) {
        let c = self.count_u32();
        proof {
            lemma2_to64(); lemma_pow2_adds(64, 64);
            lemma_popcnt_bound(*self as nat, 128);
        }
        c as u128
    }

    fn all_ones() -> (r: Self) {
        proof { lemma2_to64(); lemma_pow2_adds(64, 64); }
        0xFFFF_FFFF_FFFF_FFFF_FFFF_FFFF_FFFF_FFFF
    }

    fn from_usize(value: usize) -> (r: Self) {
        proof { lemma2_to64(); lemma_pow2_adds(64, 64); }
        value as u128
    }

    open spec fn one_spec() -> Self {
        1
    }

    proof fn lemma_one_spec() {
    }

    fn to_u128(self) -> (r: u128) {
        self as u128
    }

    fn try_usize(self) -> (r: Option<usize>) {
        if (self as u128) <= (usize::MAX as u128) {
            Some(self as usize)
        } else {
            None
        }
    }

    fn try_from_u32(value: u32) -> (r: Option<Self>) {
        proof { lemma2_to64(); lemma_pow2_adds(64, 64); }
        Some(value as u128)
    }

    fn eq_val(self, other: Self) -> (r: bool) {
        self == other
    }

    fn lt_val(self, other: Self) -> (r: bool) {
        self < other
    }

    fn shl_one(self) -> (r: Self) {
        proof { lemma2_to64(); lemma_pow2_adds(64, 64); }
        if self < 0x8000_0000_0000_0000_0000_0000_0000_0000 {
            self * 2
        } else {
            (self - 0x8000_0000_0000_0000_0000_0000_0000_0000) * 2
        }
    }

    fn shr_one(self) -> (r: Self) {
        self / 2
    }

    fn bit_or(self, other: Self) -> (r: Self) {
        proof { lemma_u128_bitwise(self, other); }
        self | other
    }

    fn bit_and(self, other: Self) -> (r: Self) {
        proof { lemma_u128_bitwise(self, other); }
        self & other
    }

    fn bit_xor(self, other: Self) -> (r: Self) {
        proof { lemma_u128_bitwise(self, other); }
        self ^ other
    }

    fn bit_not(self) -> (r: Self) {
        proof { lemma_u128_bitwise(self, self); }
        !self
    }
}

} // verus!
