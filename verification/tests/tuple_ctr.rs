use rustoku::bitset::bit::Bit;
use rustoku::bitset::bitset::BitSet;
use rustoku::human_calcs::tuple_ctr::{Ctr, TupleCtr};
use rustoku::SudokuSize;

#[test]
fn ctr_test() {
    let mut c: TupleCtr<u16> = TupleCtr::new(SudokuSize::Three);

    for (i, v) in c.array.iter().enumerate() {
        let val: u16 = 1 << i as u16;
        assert_eq!(v.values, BitSet::from_binary(val));
        assert_eq!(v.indices, BitSet::empty())
    }

    c.insert(4, BitSet::from_binary(0b1101));

    for (i, v) in c.array.into_iter().enumerate() {
        if i == 0 || i == 2 || i == 3 {
            assert_eq!(
                v.indices.intersect(BitSet::from_bit(<Bit<u16>>::from_value(5))),
                BitSet::from_binary(0b10000)
            );
            assert_eq!(v.ind_count, 1);
        } else {
            assert_eq!(
                v.indices.intersect(BitSet::from_bit(<Bit<u16>>::from_value(4))),
                BitSet::from_binary(0)
            );
            assert_eq!(v.ind_count, 0);
        }
    }
}

#[test]
fn insert_and_contain() {
    let mut ctr: Ctr<u32> = Ctr::new(Bit::one());
    ctr.insert_index(2);
    assert_eq!(ctr.indices, BitSet::from_binary(0b100));
    assert!(ctr.contains_index(2));
    assert!(!ctr.contains_index(1));
    assert!(!ctr.contains_index(3));
}

#[test]
fn combo_test() {
    let one = BitSet::from_binary(1u16);
    let two = BitSet::from_binary(0b10u16);
    let three = BitSet::from_binary(0b100u16);
    let four = BitSet::from_binary(0b1000u16);
    let five = BitSet::from_binary(0b1_0000_u16);
    let six = BitSet::from_binary(0b10_0000_u16);
    let seven = BitSet::from_binary(0b100_0000_u16);
    let eight = BitSet::from_binary(0b1000_0000_u16);
    let nine = BitSet::from_binary(0b1_0000_0000_u16);

    let array: [BitSet<u16>; 9] = [one, two, three, four, five, six, seven, eight, nine];
    let mut the_counter = TupleCtr::new(SudokuSize::Three);
    for (i, x) in array.iter().enumerate() {
        the_counter.insert(i, *x);
    }

    let res = the_counter.combo_fn(1, true);
    assert_eq!(res.len(), 9);
    let res = the_counter.combo_fn(2, true);
    assert_eq!(res.len(), 36);
    let res = the_counter.combo_fn(3, true);
    assert_eq!(res.len(), 84);

    the_counter = TupleCtr::new(SudokuSize::Three);
    the_counter.insert(0, one);
    the_counter.insert(1, two);
    let res = the_counter.combo_fn(1, true);
    assert_eq!(res.len(), 2);
    let res = the_counter.combo_fn(2, true);
    assert_eq!(res.len(), 0);
    the_counter.insert(0, two);
    the_counter.insert(1, one);
    the_counter.insert(8, nine);
    the_counter.insert(8, one);
    the_counter.insert(8, two);

    let res = the_counter.combo_fn(2, true);
    assert_eq!(res.len(), 1);
    assert_eq!(res[0].values, BitSet::from_binary(0b11));
    assert_eq!(res[0].indices, BitSet::from_binary(0b11));
    assert_eq!(res[0].ind_count, 2);
    the_counter.insert(7, eight);
    the_counter.insert(7, one);
    the_counter.insert(7, two);
    let res = the_counter.combo_fn(2, true);
    assert_eq!(res.len(), 1);
    assert_eq!(res[0].values, BitSet::from_binary(0b11));
    assert_eq!(res[0].indices, BitSet::from_binary(0b11));
    assert_eq!(res[0].ind_count, 2);

    the_counter.insert(6, eight);
    the_counter.insert(8, seven);
    the_counter.insert(7, nine);
    the_counter.insert(6, seven);

    let res = the_counter.combo_fn(2, true);
    assert_eq!(res.len(), 1);
    assert_eq!(res[0].values, BitSet::from_binary(0b11));
    assert_eq!(res[0].indices, BitSet::from_binary(0b11));
    assert_eq!(res[0].ind_count, 2);
    let res = the_counter.combo_fn(3, true);
    assert_eq!(res.len(), 0);
    let res = the_counter.combo_fn(4, true);
    assert_eq!(res.len(), 0);
}
