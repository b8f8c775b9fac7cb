use rustoku::bitset::bit::Bit;
use rustoku::bitset::bitset::BitSet;
use rustoku::square::possibilities::Possibilities;
use rustoku::square::square::Square;
use rustoku::{SudError, SudokuSize};

const SIZE: SudokuSize = SudokuSize::Three;

type TSquare = Square<u16>;
type Res = Result<(), SudError>;

fn b(v: u16) -> Bit<u16> {
    Bit::from_value(v)
}

fn empty_square() -> TSquare {
    let mut sq = TSquare::new(b(0), SIZE, 0).unwrap();
    sq.set_original(BitSet::empty(), SIZE);
    sq
}

fn value_square() -> TSquare {
    TSquare::new(b(3), SIZE, 0).unwrap()
}

fn test_set(vals: &[u16]) -> BitSet<u16> {
    let mut set = BitSet::new();
    for val in vals {
        set = set.insert_value(*val);
    }
    set
}

fn test_square(vals: &[u16]) -> TSquare {
    let mut sq = empty_square();
    let set = test_set(vals);
    sq.set_original(set, SIZE);
    sq
}

#[test]
fn possibilities_tests() -> Res {
    type ASet = BitSet<u64>;
    let mut p: Possibilities<u64> = Possibilities::empty();
    assert_eq!(p.get(), &ASet::empty());
    assert_eq!(p.count(), 0);

    p.insert(Bit::from_value(3));
    assert_eq!(p.get(), &ASet::new().insert_value(3));
    let four = Bit::from_value(3u64).inc().unwrap();
    p.insert(four);
    assert_eq!(p.get(), &ASet::new().insert_value(4).insert_value(3));
    assert_eq!(p.count(), 2);
    p.remove(Bit::from_value(3));
    assert_eq!(p.get(), &ASet::new().insert_value(4));
    assert_eq!(p.count(), 1);
    Ok(())
}

#[test]
fn new_empty_test() -> Res {
    let sq = TSquare::new(b(0), SIZE, 0)?;
    assert_eq!(sq.value, None);
    assert!(!sq.fixed);
    assert_eq!(sq.count(), 9u32);
    assert_eq!(sq.flags.get(), &BitSet::full(SIZE.house_size()));
    assert_eq!(sq.flags.get().count_u32(), SIZE.house_size() as u32);
    Ok(())
}

#[test]
fn new_value_test() -> Res {
    let sq = TSquare::new(b(3), SIZE, 0)?;
    assert_eq!(sq.value, Some(b(3)));
    assert!(sq.fixed);
    assert_eq!(sq.flags.get(), &BitSet::new());
    Ok(())
}

#[test]
fn fixed() -> Res {
    let sq = empty_square();
    assert!(!sq.is_fixed());
    let sq = value_square();
    assert!(sq.is_fixed());
    Ok(())
}

#[test]
fn should_not_inc() -> Res {
    let mut sq = value_square();
    let res = sq.inc();
    assert!(!res);
    assert_eq!(sq.val(), Some(b(3)));
    Ok(())
}

#[test]
fn should_inc() -> Res {
    let mut sq = empty_square();
    let res = sq.inc();
    assert!(res);
    assert_eq!(sq.val(), Some(b(1)));
    Ok(())
}

#[test]
fn inc_thru_range() -> Res {
    let mut sq = empty_square();
    let max = SIZE.house_size();
    for i in 1..=max {
        let res = sq.inc();
        assert!(res);
        assert_eq!(sq.val(), Some(b(i as u16)))
    }

    let res = sq.inc();
    assert!(!res);
    assert_eq!(sq.val(), Some(b(max as u16)));
    Ok(())
}

#[test]
fn set_value() -> Res {
    let mut sq = empty_square();
    sq.set_value(Some(b(4)));
    assert_eq!(sq.val(), Some(b(4)));
    assert_eq!(sq.count(), 0);
    Ok(())
}

#[test]
fn set_orig() -> Res {
    let sq = test_square(&[3, 5]);
    assert_eq!(sq.count(), 7);
    assert!(!sq.poss_contains(b(3)));
    assert!(!sq.poss_contains(b(5)));
    assert!(sq.poss_contains(b(4)));
    Ok(())
}

#[test]
fn insert_should_not_change_pot() -> Res {
    let mut sq = test_square(&[3, 5]);
    sq.insert_pot(b(4));
    assert_eq!(sq.count(), 7);
    assert!(sq.poss_contains(b(4)));
    assert!(!sq.poss_contains(b(3)));
    assert!(!sq.poss_contains(b(5)));
    Ok(())
}

#[test]
fn insert_should_change_pot() -> Res {
    let mut sq = test_square(&[3, 5]);
    sq.insert_pot(b(3));
    assert_eq!(sq.count(), 8);
    assert!(sq.poss_contains(b(4)));
    assert!(sq.poss_contains(b(3)));
    assert!(!sq.poss_contains(b(5)));
    Ok(())
}

#[test]
fn insert_set() -> Res {
    let mut sq = test_square(&[1, 2, 3, 5, 6]);
    let to_insert = test_set(&[1, 3]);
    sq.insert_set(to_insert);
    assert_eq!(sq.count(), 6);
    assert!(sq.poss_contains(b(4)));
    assert!(sq.poss_contains(b(3)));
    assert!(sq.poss_contains(b(1)));
    assert!(!sq.poss_contains(b(5)));
    assert!(!sq.poss_contains(b(2)));
    Ok(())
}

#[test]
fn insert_set_no_change() -> Res {
    let mut sq = test_square(&[1, 2, 3, 5, 6]);
    let to_insert = test_set(&[4, 7]);
    sq.insert_set(to_insert);
    assert_eq!(sq.count(), 4, "{:?}", sq.flags);
    assert!(sq.poss_contains(b(4)));
    assert!(!sq.poss_contains(b(3)));
    assert!(!sq.poss_contains(b(1)));
    assert!(!sq.poss_contains(b(5)));
    assert!(!sq.poss_contains(b(2)));
    Ok(())
}

#[test]
fn insert_set_overlap() -> Res {
    let mut sq = test_square(&[1, 2, 3, 5, 6]);
    let to_insert = test_set(&[2, 7]);
    sq.insert_set(to_insert);
    assert_eq!(sq.count(), 5);
    assert!(sq.poss_contains(b(4)));
    assert!(!sq.poss_contains(b(3)));
    assert!(!sq.poss_contains(b(1)));
    assert!(!sq.poss_contains(b(5)));
    assert!(sq.poss_contains(b(2)));
    Ok(())
}

#[test]
fn remove_should_change_pot() -> Res {
    let mut sq = test_square(&[3, 5]);
    sq.remove_pot(b(2));
    assert_eq!(sq.count(), 6);
    assert!(sq.poss_contains(b(4)));
    assert!(!sq.poss_contains(b(3)));
    assert!(!sq.poss_contains(b(5)));
    assert!(!sq.poss_contains(b(2)));
    Ok(())
}

#[test]
fn remove_not_should_change_pot() -> Res {
    let mut sq = test_square(&[3, 5]);
    sq.remove_pot(b(3));
    assert_eq!(sq.count(), 7);
    assert!(sq.poss_contains(b(4)));
    assert!(!sq.poss_contains(b(3)));
    assert!(!sq.poss_contains(b(5)));
    Ok(())
}

#[test]
fn remove_set1() -> Res {
    let mut sq = test_square(&[3, 5]);
    let to_remove = test_set(&[2, 7]);
    sq.remove_set(to_remove);
    assert_eq!(sq.count(), 5);
    assert!(sq.poss_contains(b(4)));
    assert!(!sq.poss_contains(b(3)));
    assert!(!sq.poss_contains(b(5)));
    assert!(!sq.poss_contains(b(2)));
    Ok(())
}

#[test]
fn remove_set2_overlap() -> Res {
    let mut sq = test_square(&[3, 5]);
    let to_remove = test_set(&[3, 7]);
    sq.remove_set(to_remove);
    assert_eq!(sq.count(), 6);
    assert!(sq.poss_contains(b(4)));
    assert!(!sq.poss_contains(b(3)));
    assert!(!sq.poss_contains(b(5)));
    Ok(())
}

#[test]
fn remove_set3_nochange() -> Res {
    let mut sq = test_square(&[3, 5]);
    let to_remove = test_set(&[3, 5]);
    sq.remove_set(to_remove);
    assert_eq!(sq.count(), 7);
    assert!(sq.poss_contains(b(4)));
    assert!(!sq.poss_contains(b(3)));
    assert!(!sq.poss_contains(b(5)));
    Ok(())
}

#[test]
fn reset_keeps_givens() -> Res {
    let mut sq = value_square();
    sq.reset();
    assert_eq!(sq.val(), Some(b(3)));
    let mut sq = test_square(&[3, 5]);
    sq.inc();
    assert_eq!(sq.val(), Some(b(1)));
    sq.reset();
    assert_eq!(sq.val(), None);
    assert_eq!(sq.count(), 7);
    Ok(())
}
