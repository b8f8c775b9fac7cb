use std::collections::HashSet;

use rustoku::bitset::bitset::BitSet;
use rustoku::grid::{Col, Coord, GridBox, House, HouseCoord, Row};
use rustoku::human_calcs::tuples::hidden_tup::HiddenTuple;
use rustoku::human_calcs::tuples::naked_tup::NakedTuple;
use rustoku::{Move, SudError, Sudoku, SudokuSize, Technique};

fn involved(tmove: &Move<u16>) -> HashSet<usize> {
    tmove.involved_vec().iter().map(|pair| pair.index().to_usize()).collect()
}

fn involved32(tmove: &Move<u32>) -> HashSet<usize> {
    tmove.involved_vec().iter().map(|pair| pair.index().to_usize()).collect()
}

#[test]
fn naked_tuple_test1() -> Result<(), SudError> {
    let mut puz: Sudoku<u32> = Sudoku::new_with_size(
        vec![
            vec![7, 0, 0, 8, 4, 9, 0, 3, 0],
            vec![9, 2, 8, 1, 3, 5, 0, 0, 6],
            vec![4, 0, 0, 2, 6, 7, 0, 8, 9],
            vec![6, 4, 2, 7, 8, 3, 9, 5, 1],
            vec![3, 9, 7, 4, 5, 1, 6, 2, 8],
            vec![8, 1, 5, 6, 9, 2, 3, 0, 0],
            vec![2, 0, 4, 5, 1, 6, 0, 9, 3],
            vec![1, 0, 0, 0, 0, 8, 0, 6, 0],
            vec![5, 0, 0, 0, 0, 4, 0, 1, 0],
        ]
        .iter()
        .flatten()
        .cloned()
        .collect::<Vec<_>>(),
        SudokuSize::Three,
    )?;

    let i0 = Coord::new(7, 1, SudokuSize::Three);
    let i1 = Coord::new(7, 2, SudokuSize::Three);
    let i2 = Coord::new(7, 3, SudokuSize::Three);

    assert_eq!(puz._get(i0.to_usize()).poss(), &BitSet::from_binary(0b0_0100_0100));
    assert_eq!(puz._get(i1.to_usize()).poss(), &BitSet::from_binary(0b1_0000_0100));
    assert_eq!(puz._get(i2.to_usize()).poss(), &BitSet::from_binary(0b1_0000_0100));

    // Tuples that do not remove potential values are not tuples
    let hint = NakedTuple::findtuples(&puz, House::Box(2), 2, Technique::NakedDouble);
    assert!(hint.is_none());
    let hint = NakedTuple::findtuples(&puz, House::Row(1), 2, Technique::NakedDouble);
    assert!(hint.is_none());
    let hint = NakedTuple::findtuples(&puz, House::Row(7), 2, Technique::NakedDouble);
    assert!(hint.is_some());
    hint.unwrap()[0].clone().apply(&mut puz);

    assert_eq!(puz._get(i0.to_usize()).poss(), &BitSet::from_binary(0b0_0100_0000));
    assert_eq!(puz._get(i1.to_usize()).poss(), &BitSet::from_binary(0b1_0000_0100));
    assert_eq!(puz._get(i2.to_usize()).poss(), &BitSet::from_binary(0b1_0000_0100));

    // Other values in the box are not affected
    let f3 = puz._get(Row::new(8, 1, SudokuSize::Three).to_usize()).poss();
    let f4 = puz._get(Row::new(8, 2, SudokuSize::Three).to_usize()).poss();
    assert_eq!(f3, &BitSet::from_binary(0b0_1110_0100));
    assert_eq!(f4, &BitSet::from_binary(0b1_0010_0100));

    let hint2 = NakedTuple::findtuples(&puz, House::Col(1), 2, Technique::NakedDouble);
    assert!(&hint2.is_some());
    Ok(())
}

#[test]
fn naked_tuple_2() -> Result<(), SudError> {
    let inp = "687..4523953..261414235697831...724676....3.5.2....7.1.96..1.3223.....57.7.....69";
    let mut puz: Sudoku<u32> = Sudoku::new_with_size(inp, SudokuSize::Three)?;

    let hint = NakedTuple::findtuples(&puz, House::Box(4), 2, Technique::NakedDouble);
    assert!(hint.is_some());
    let themove = hint.unwrap()[0].clone().apply(&mut puz);
    assert_eq!(
        puz._get(GridBox::new(4, 0, SudokuSize::Three).to_usize()).poss(),
        &BitSet::from_binary(0b1_0000)
    );
    let ivec = involved32(&themove);
    assert!(ivec.contains(&GridBox::new(4, 1, SudokuSize::Three).to_usize()));
    assert!(ivec.contains(&GridBox::new(4, 5, SudokuSize::Three).to_usize()));
    assert_eq!(ivec.len(), 2);

    let cvec: Vec<usize> = themove
        .removed_potentials_vec()
        .iter()
        .map(|pair| pair.index().to_usize())
        .collect();
    assert!(cvec.contains(&GridBox::new(4, 0, SudokuSize::Three).to_usize()));
    assert!(cvec.contains(&GridBox::new(4, 3, SudokuSize::Three).to_usize()));
    assert!(cvec.contains(&GridBox::new(4, 4, SudokuSize::Three).to_usize()));
    assert!(cvec.contains(&GridBox::new(4, 6, SudokuSize::Three).to_usize()));
    assert!(cvec.contains(&GridBox::new(4, 7, SudokuSize::Three).to_usize()));
    assert!(cvec.contains(&GridBox::new(4, 8, SudokuSize::Three).to_usize()));
    assert_eq!(cvec.len(), 6);
    Ok(())
}

#[test]
fn naked_triple1() -> Result<(), SudError> {
    let inp = "39....7........65.5.7...349.4938.5.66.1.54983853...4..9..8..134..294.8654.....297";
    let mut puz: Sudoku<u32> = Sudoku::new_with_size(inp, SudokuSize::Three)?;

    let hint = NakedTuple::findtuples(&puz, House::Box(1), 3, Technique::NakedTriple);
    assert!(hint.is_some());

    let tmove = hint.unwrap()[0].clone().apply(&mut puz);
    let ivec = involved32(&tmove);
    assert!(ivec.contains(&GridBox::new(1, 1, SudokuSize::Three).to_usize()), "{:?}", ivec);
    assert!(ivec.contains(&GridBox::new(1, 6, SudokuSize::Three).to_usize()), "{:?}", ivec);
    assert!(ivec.contains(&GridBox::new(1, 7, SudokuSize::Three).to_usize()), "{:?}", ivec);

    assert_eq!(
        puz._get(GridBox::new(1, 1, SudokuSize::Three).to_usize()).poss(),
        &BitSet::from_binary(0b10_0011)
    );
    assert_eq!(
        puz._get(GridBox::new(1, 6, SudokuSize::Three).to_usize()).poss(),
        &BitSet::from_binary(0b10_0011)
    );
    assert_eq!(
        puz._get(GridBox::new(1, 7, SudokuSize::Three).to_usize()).poss(),
        &BitSet::from_binary(0b10_0011)
    );
    Ok(())
}

#[test]
fn naked_triple2() -> Result<(), SudError> {
    let inp = "...29438....17864.48.3561....48375.1...4157..5..629834953782416126543978.4.961253";
    let mut puz: Sudoku<u32> = Sudoku::new_with_size(inp, SudokuSize::Three)?;

    let hint = NakedTuple::findtuples(&puz, House::Col(1), 3, Technique::NakedTriple);
    assert!(hint.is_some());
    let tmove = hint.unwrap()[0].clone().apply(&mut puz);
    let ivec = involved32(&tmove);

    assert!(ivec.contains(&Col::new(1, 1, SudokuSize::Three).to_usize()));
    assert!(ivec.contains(&Col::new(1, 3, SudokuSize::Three).to_usize()));
    assert!(ivec.contains(&Col::new(1, 4, SudokuSize::Three).to_usize()));

    assert_eq!(
        puz._get(Col::new(1, 1, SudokuSize::Three).to_usize()).poss(),
        &BitSet::from_binary(0b1_0000_0100)
    );
    assert_eq!(
        puz._get(Col::new(1, 3, SudokuSize::Three).to_usize()).poss(),
        &BitSet::from_binary(0b1_0010_0000)
    );
    assert_eq!(
        puz._get(Col::new(1, 4, SudokuSize::Three).to_usize()).poss(),
        &BitSet::from_binary(0b1_0010_0100)
    );

    // No other tuples but a new triple on row 0
    for rcb in 0..puz.house_size() {
        assert!(
            NakedTuple::findtuples(&puz, House::Row(rcb), 2, Technique::NakedDouble).is_none(),
            "num: {} Row size: {} \n",
            rcb,
            2
        );
        assert!(
            NakedTuple::findtuples(&puz, House::Col(rcb), 2, Technique::NakedDouble).is_none(),
            "num: {} Col size: {} \n",
            rcb,
            2
        );
        assert!(
            NakedTuple::findtuples(&puz, House::Col(rcb), 3, Technique::NakedTriple).is_none(),
            "num: {} Col size: {} \n",
            rcb,
            3
        );
        assert!(
            NakedTuple::findtuples(&puz, House::Box(rcb), 2, Technique::NakedDouble).is_none(),
            "num: {} Box size: {} \n",
            rcb,
            2
        );
        assert!(
            NakedTuple::findtuples(&puz, House::Box(rcb), 3, Technique::NakedTriple).is_none(),
            "num: {} Box size: {} \n",
            rcb,
            3
        );
    }
    Ok(())
}

#[test]
fn naked_quad() -> Result<(), SudError> {
    let inp = ".1.72.563.56.3.247732546189693287415247615938581394........2...........1..587....";
    let mut puz: Sudoku<u32> = Sudoku::new_with_size(inp, SudokuSize::Three)?;

    let hint = NakedTuple::findtuples(&puz, House::Row(7), 4, Technique::NakedQuad);
    assert!(hint.is_some());
    let tmove = hint.unwrap()[0].clone().apply(&mut puz);
    let ivec = involved32(&tmove);

    assert!(ivec.contains(&Row::new(7, 0, SudokuSize::Three).to_usize()), "{:?}", tmove);
    assert!(ivec.contains(&Row::new(7, 2, SudokuSize::Three).to_usize()));
    assert!(ivec.contains(&Row::new(7, 3, SudokuSize::Three).to_usize()));
    assert!(ivec.contains(&Row::new(7, 5, SudokuSize::Three).to_usize()));
    Ok(())
}

#[test]
fn hidden_not_detected() -> Result<(), SudError> {
    let inp = "....6........42736..673..4..94....68....964.76.7.5.9231......85.6..8.271..5.1..94";
    let puz: Sudoku<u16> = Sudoku::new_with_size(inp, SudokuSize::Three)?;
    let hint = NakedTuple::findtuples(&puz, House::Box(0), 2, Technique::NakedDouble);
    assert!(hint.is_none());
    let hint = NakedTuple::findtuples(&puz, House::Row(0), 2, Technique::NakedDouble);
    assert!(hint.is_none());
    Ok(())
}

#[test]
fn hidden_tuple1() -> Result<(), SudError> {
    let inp = ".49132....81479...327685914.96.518...75.28....38.46..5853267...712894563964513...";
    let mut puz: Sudoku<u16> = Sudoku::new_with_size(inp, SudokuSize::Three)?;
    assert_eq!(
        puz._get(Col::new(8, 4, SudokuSize::Three).to_usize()).poss(),
        &BitSet::from_binary(0b1_0010_0001)
    );
    assert_eq!(
        puz._get(Col::new(8, 6, SudokuSize::Three).to_usize()).poss(),
        &BitSet::from_binary(0b1_0000_0001)
    );
    let hint = HiddenTuple::findtuples(&puz, House::Col(8), 2, Technique::HiddenDouble);
    assert!(hint.is_some());

    let tmove = hint.unwrap()[0].clone().apply(&mut puz);
    let changes = tmove.removed_potentials_vec();
    assert_eq!(changes.len(), 1);

    let ivec = involved(&tmove);
    assert!(ivec.contains(&Col::new(8, 4, SudokuSize::Three).to_usize()));
    assert!(ivec.contains(&Col::new(8, 6, SudokuSize::Three).to_usize()));

    assert_eq!(
        puz._get(Col::new(8, 4, SudokuSize::Three).to_usize()).poss(),
        &BitSet::from_binary(0b1_0000_0001)
    );
    Ok(())
}

#[test]
fn hidden_tuple2() -> Result<(), SudError> {
    let inp = "....6........42736..673..4..94....68....964.76.7.5.9231......85.6..8.271..5.1..94";

    let mut puz: Sudoku<u16> = Sudoku::new_with_size(inp, SudokuSize::Three)?;
    assert_eq!(
        puz._get(GridBox::new(0, 0, SudokuSize::Three).to_usize()).poss(),
        &BitSet::from_binary(0b1_1101_1110)
    );
    assert_eq!(
        puz._get(GridBox::new(0, 1, SudokuSize::Three).to_usize()).poss(),
        &BitSet::from_binary(0b0_1101_1111)
    );
    let hint = HiddenTuple::findtuples(&puz, House::Box(0), 2, Technique::HiddenDouble);
    assert!(hint.is_some());

    let tmove = hint.unwrap()[0].clone().apply(&mut puz);
    let changes = tmove.removed_potentials_vec();
    assert_eq!(changes.len(), 2);

    let ivec = involved(&tmove);
    assert!(ivec.contains(&0));
    assert!(ivec.contains(&1));

    assert_eq!(puz._get(1).poss(), &BitSet::from_binary(0b100_1000));

    // Same as row
    let mut puz: Sudoku<u16> = Sudoku::new_with_size(inp, SudokuSize::Three)?;
    let hint = HiddenTuple::findtuples(&puz, House::Row(0), 2, Technique::HiddenDouble);
    assert!(hint.is_some());

    let tmove = hint.unwrap()[0].clone().apply(&mut puz);
    let changes = tmove.removed_potentials_vec();
    assert_eq!(changes.len(), 2);

    let ivec = involved(&tmove);
    assert!(ivec.contains(&0));
    assert!(ivec.contains(&1));

    assert_eq!(puz._get(1).poss(), &BitSet::from_binary(0b100_1000));
    Ok(())
}

#[test]
fn hidden_double3() -> Result<(), SudError> {
    let inp = ".3.....1...8.9....4..6.8......57694....98352....124...276..519....7.9....95...47.";
    let puz: Sudoku<u16> = Sudoku::new_with_size(inp, SudokuSize::Three)?;
    let hint = HiddenTuple::findtuples(&puz, House::Row(0), 2, Technique::HiddenDouble);
    assert_eq!(puz._get(6).poss(), &BitSet::from_binary(0b1110_0010));
    assert_eq!(puz._get(8).poss(), &BitSet::from_binary(0b1_1111_1010));

    assert!(hint.is_none());
    Ok(())
}

#[test]
fn hidden_triple1() -> Result<(), SudError> {
    let inp = "28....473534827196.71.34.8.3..5...4....34..6.46.79.31..9.2.3654..3..9821....8.937";
    let mut puz: Sudoku<u16> = Sudoku::new_with_size(inp, SudokuSize::Three)?;
    let hint = HiddenTuple::findtuples(&puz, House::Box(6), 3, Technique::HiddenTriple);
    let tmove = hint.unwrap()[0].clone().apply(&mut puz);
    let ind1 = GridBox::new(6, 7, SudokuSize::Three).to_usize();
    let ind2 = GridBox::new(6, 8, SudokuSize::Three).to_usize();
    let ivec = involved(&tmove);
    assert!(ivec.contains(&ind1));
    assert!(ivec.contains(&ind2));
    assert_eq!(ivec.len(), 3);
    let cvec = tmove.removed_potentials_vec();
    assert_eq!(cvec.len(), 2, "{:?}", tmove);

    assert_eq!(tmove.technique(), &Some(Technique::HiddenTriple));
    Ok(())
}

#[test]
fn hidden_triple2() -> Result<(), SudError> {
    let inp = "5..62..37..489........5....93........2....6.57.......3.....9.........7..68.57...2";
    let mut puz: Sudoku<u16> = Sudoku::new_with_size(inp, SudokuSize::Three)?;
    let hint = HiddenTuple::findtuples(&puz, House::Col(5), 3, Technique::HiddenTriple);
    let tmove = hint.unwrap()[0].clone().apply(&mut puz);
    let ivec = tmove.involved_vec();
    let cvec = tmove.removed_potentials_vec();
    assert_eq!(ivec.len(), 3);
    assert_eq!(cvec.len(), 3, "involved: {:?}, \n\nchanges: {:?}", ivec, cvec);
    assert_eq!(tmove.technique(), &Some(Technique::HiddenTriple));
    Ok(())
}

#[test]
fn hidden_quad() -> Result<(), SudError> {
    let inp = ".3.....1...8.9....4..6.8......57694....98352....124...276..519....7.9....95..247.";
    let mut puz: Sudoku<u16> = Sudoku::new_with_size(inp, SudokuSize::Three)?;
    let hint = HiddenTuple::findtuples(&puz, House::Col(8), 4, Technique::HiddenQuad);
    let tmove = hint.unwrap()[0].clone().apply(&mut puz);
    let ivec = tmove.involved_vec();
    let cvec = tmove.removed_potentials_vec();
    assert_eq!(ivec.len(), 4);
    assert_eq!(cvec.len(), 4);
    assert_eq!(tmove.technique(), &Some(Technique::HiddenQuad));
    Ok(())
}

#[test]
fn naked_hint_moves_are_tagged_and_remove_only_possible_values() -> Result<(), SudError> {
    let inp = "687..4523953..261414235697831...724676....3.5.2....7.1.96..1.3223.....57.7.....69";
    let puz: Sudoku<u32> = Sudoku::new_with_size(inp, SudokuSize::Three)?;
    let moves = NakedTuple::findtuples(&puz, House::Box(4), 2, Technique::NakedDouble).unwrap();
    for m in &moves {
        assert_eq!(m.technique(), &Some(Technique::NakedDouble));
        assert!(m.change().is_none());
        for pair in m.removed_potentials_vec() {
            let cell = puz._get(pair.index().to_usize());
            assert_eq!(cell.poss().intersect(*pair.value()), *pair.value());
        }
    }
    Ok(())
}

#[test]
fn hidden_tuple_records_exact() -> Result<(), SudError> {
    let inp = ".49132....81479...327685914.96.518...75.28....38.46..5853267...712894563964513...";
    let puz: Sudoku<u16> = Sudoku::new_with_size(inp, SudokuSize::Three)?;
    let hint = HiddenTuple::findtuples(&puz, House::Col(8), 2, Technique::HiddenDouble).unwrap();
    let mv = &hint[0];
    let removed = mv.removed_potentials_vec();
    assert_eq!(removed.len(), 1);
    assert_eq!(removed[0].index().to_usize(), 44);
    assert_eq!(removed[0].value(), &BitSet::from_binary(0b10_0000));
    let used = mv.involved_vec();
    let mut cells: Vec<usize> = used.iter().map(|p| p.index().to_usize()).collect();
    cells.sort();
    assert_eq!(cells, vec![44, 62]);
    for p in used.iter() {
        assert_eq!(p.value(), &BitSet::from_binary(0b1_0000_0001));
    }
    Ok(())
}
