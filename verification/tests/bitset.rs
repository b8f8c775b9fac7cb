use rustoku::bitset::bit::Bit;
use rustoku::bitset::bitset::BitSet;
use rustoku::bitset::traits::BitSetInt;

const ITEM1: Bit<u16> = Bit(0b1000);
const SET1: BitSet<u16> = BitSet(0b1111_0000);
const SET2: BitSet<u16> = BitSet(0b1010_1010);

#[test]
fn inc() {
    let max: Bit<u16> = Bit::max();
    let zero: Bit<u16> = Bit::zero();

    assert_eq!(ITEM1.inc(), Some(Bit(0b1_0000)));
    let item2 = ITEM1.inc().unwrap();
    assert_eq!(item2.inc(), Some(Bit(0b10_0000)));
    assert_eq!(max.inc(), None);
    assert_eq!(zero.inc(), Some(Bit(0b1)));
}

#[test]
fn dec() {
    let max: Bit<u16> = Bit::max();
    let zero: Bit<u16> = Bit::zero();

    assert_eq!(ITEM1.dec(), Some(Bit(0b100)));
    assert_eq!(max.dec(), Some(Bit(0b0100_0000_0000_0000)));
    assert_eq!(zero.dec(), None);
}

#[test]
fn try_from() {
    assert_eq!(<Bit<u16>>::from_value(4), Bit(0b1000));
}

#[test]
fn try_to() {
    assert_eq!(Bit(0b1_0000u32).to_value(), 5u32);
}

#[test]
fn inter() {
    assert_eq!(SET1.intersect(SET2), BitSet(0b1010_0000));
}

#[test]
fn union() {
    assert_eq!(SET1.union(SET2), BitSet(0b1111_1010));
}

#[test]
fn disjunct_union() {
    assert_eq!(SET1.disjunct_union(SET2), BitSet(0b0101_1010));
}

#[test]
fn is_disjoint() {
    assert!(!SET1.is_disjoint(SET2));
    let item3 = BitSet(0b0000_1111);
    assert!(SET1.is_disjoint(item3));
}

#[test]
fn insert() {
    assert_eq!(SET1.insert_value(1), BitSet(0b1111_0001));
    assert_eq!(SET1.insert(Bit(0b1)), BitSet(0b1111_0001));
    assert_eq!(SET1.insert_value(3), BitSet(0b1111_0100));
    assert_eq!(SET1.insert(Bit(0b100)), BitSet(0b1111_0100));
    assert_eq!(SET1.insert_value(0), BitSet(0b1111_0000));
    assert_eq!(SET1.insert_value(8), BitSet(0b1111_0000));
}

#[test]
fn remove() {
    assert_eq!(SET1.remove_value(8), BitSet(0b0111_0000));
    assert_eq!(SET1.remove_value(2), BitSet(0b1111_0000));
    assert_eq!(SET1.remove_value(0), BitSet(0b1111_0000));
    assert_eq!(SET1.remove(Bit(0b1_0000_0000)), BitSet(0b1111_0000));
}

#[test]
fn count() {
    assert_eq!(SET1.size(), 4);
    assert_eq!(SET1.insert_value(2).count(), 5);
    assert_eq!(SET1.insert_value(2).count_u32(), 5u32);
}

#[test]
fn debug() {
    let vec = vec![8, 7, 6, 5];
    let string = format!("{:?}", vec);
    let item1_str = format!("{:?}", SET1.debug_values());
    assert_eq!(item1_str, string);
}

#[test]
fn fulls() {
    let full = <BitSet<u16>>::full(9);
    assert_eq!(full, <BitSet<u16>>::from_binary(0b1_1111_1111u16));
    let full = <BitSet<u16>>::full(4);
    assert_eq!(full, <BitSet<u16>>::from_binary(0b1111u16));
}

#[test]
fn itert() {
    let b: BitSet<u32> = BitSet(0b110);
    let mut it = b.into_iter();
    let two = Bit(0b10);
    let three = Bit(0b100);
    assert_eq!(it.next().unwrap(), two);
    assert_eq!(it.next().unwrap(), three);
    assert!(it.next().is_none());

    let v: Vec<Bit<u32>> = b.into_iter().collect_bits();
    assert_eq!(v.len(), 2);
    assert_eq!(v[0], Bit(0b10));
    assert_eq!(v[1], Bit(0b100));
}

#[test]
fn zero() {
    assert_eq!(0u8, 0);
    assert!(0u8.is_zero());
    assert_eq!(0u16, 0);
    assert!(0u16.is_zero());
    assert_eq!(0u32, 0);
    assert!(0u32.is_zero());
    assert_eq!(0u64, 0);
    assert!(0u64.is_zero());
    assert_eq!(0u128, 0);
    assert!(0u128.is_zero());
}

#[test]
fn max_single_bit_bit() {
    assert_eq!(<u8>::max_single_bit(), 0b1000_0000);
    assert_eq!(<u16>::max_single_bit(), 0b1000_0000_0000_0000);
    assert_eq!(<u32>::max_single_bit(), 0b1000_0000_0000_0000_0000_0000_0000_0000);
    assert_eq!(
        <u64>::max_single_bit(),
        0b1000_0000_0000_0000_0000_0000_0000_0000_0000_0000_0000_0000_0000_0000_0000_0000
    );
    assert_eq!(<u128>::max_single_bit(), 1u128 << 127);
}

#[test]
fn should_inc_until_max() {
    let zero = <u8>::zero();
    assert_eq!(zero.inc(), Some(<u8>::one()));
    assert_eq!(zero.inc().unwrap().inc(), Some(0b10));
    assert_eq!(<u8>::max_single_bit().inc(), None);
}

#[test]
fn should_dec_until_zero() {
    assert_eq!(<u8>::one().dec(), Some(<u8>::zero()));
    assert_eq!(<u8>::zero().dec(), None);
    assert_eq!(<u8>::max_single_bit().dec(), Some(0b100_0000));
}

#[test]
fn bit_values_round_trip() {
    for v in 1u16..=16 {
        assert_eq!(Bit::from_value(v).to_value(), v);
    }
    assert_eq!(Bit::<u16>::from_value(0), Bit::zero());
}

#[test]
fn set_difference_and_contains() {
    let d = SET1.difference(SET2);
    assert_eq!(d, BitSet(0b0101_0000));
    assert!(SET1.contains(Bit(0b1000_0000)));
    assert!(!SET1.contains(Bit(0b1)));
    assert_eq!(SET1.shift_right(), BitSet(0b0111_1000));
    assert_eq!(SET1.shift_left(), BitSet(0b1_1110_0000));
}
