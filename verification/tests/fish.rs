use std::collections::HashSet;

use rustoku::grid::House;
use rustoku::human_calcs::fish::basicfish::BasicFish;
use rustoku::human_calcs::fish::finned::FinnedFish;
use rustoku::{Move, SudError, Sudoku, SudokuSize, Technique};

fn involved16(tmove: &Move<u16>) -> HashSet<usize> {
    tmove.involved_vec().iter().map(|pair| pair.index().to_usize()).collect()
}

fn involved32(tmove: &Move<u32>) -> HashSet<usize> {
    tmove.involved_vec().iter().map(|pair| pair.index().to_usize()).collect()
}

#[test]
fn xwing() -> Result<(), SudError> {
    let inp = ".41729.3.769..34.2.3264.7194.39..17.6.7..49.319537..24214567398376.9.541958431267";
    let mut puz: Sudoku<u16> = Sudoku::new_with_size(inp, SudokuSize::Three)?;

    let hint = BasicFish::fish(&puz, &House::Row(()), 2, Technique::XWing);
    let tmove = hint.as_ref().unwrap()[0].clone().apply(&mut puz);
    let ivec = involved16(&tmove);
    let inv: [usize; 4] = [13, 16, 40, 43];
    for i in inv.iter() {
        assert!(ivec.contains(i), "{:?}\n{:?}", ivec, &hint);
    }
    Ok(())
}

#[test]
fn xwing2() -> Result<(), SudError> {
    let inp = "98..62753.65..3...327.5...679..3.5...5...9...832.45..9673591428249.87..5518.2...7";
    let mut puz: Sudoku<u16> = Sudoku::new_with_size(inp, SudokuSize::Three)?;

    let hint = BasicFish::fish(&puz, &House::Col(()), 2, Technique::XWing);
    let tmove = hint.unwrap()[0].clone().apply(&mut puz);
    let ivec = involved16(&tmove);
    let cvec = tmove.removed_potentials_vec();
    let inv: [usize; 4] = [9, 13, 36, 40];
    for i in inv.iter() {
        assert!(ivec.contains(i));
    }
    assert_eq!(cvec.len(), 9, "{:?}", &cvec);
    assert_eq!(ivec.len(), 4, "{:?}", &ivec);
    Ok(())
}

#[test]
fn basicfish_swordfish() -> Result<(), SudError> {
    let inp = "16.543.7..786.14354358.76.172.458.696..912.57...376..4.16.3..4.3...8..16..71645.3";
    let mut puz: Sudoku<u16> = Sudoku::new_with_size(inp, SudokuSize::Three)?;

    let hint = BasicFish::fish(&puz, &House::Row(()), 3, Technique::Swordfish);
    let tmove = hint.unwrap()[0].clone().apply(&mut puz);
    let ivec = involved16(&tmove);
    let cvec = tmove.removed_potentials_vec();
    let inv: [usize; 6] = [9, 13, 22, 25, 72, 79];
    for i in inv.iter() {
        assert!(ivec.contains(i));
    }
    assert_eq!(cvec.len(), 2, "{:?}", &tmove);
    assert_eq!(ivec.len(), 6, "{:?}", &tmove);
    Ok(())
}

#[test]
fn swordfish2() -> Result<(), SudError> {
    let inp = "1.85..2345..3.2178...8..5698..6.5793..59..4813....865298.2.631.......8.....78.9..";
    let mut puz: Sudoku<u16> = Sudoku::new_with_size(inp, SudokuSize::Three)?;

    let hint = BasicFish::fish(&puz, &House::Row(()), 3, Technique::Swordfish);
    let tmove = hint.unwrap()[0].clone().apply(&mut puz);
    let ivec = involved16(&tmove);
    let cvec = tmove.removed_potentials_vec();
    let inv: [usize; 8] = [10, 11, 13, 28, 29, 31, 56, 58];
    for i in inv.iter() {
        assert!(ivec.contains(i));
    }
    assert_eq!(cvec.len(), 11, "{:?}", &tmove);
    assert_eq!(ivec.len(), 8, "{:?}", &tmove);
    Ok(())
}

#[test]
fn jellyfish() -> Result<(), SudError> {
    let inp = "2.......3.8..3..5...34.21....12.54......9......93.86....25.69...9..2..7.4.......1";
    let mut puz: Sudoku<u16> = Sudoku::new_with_size(inp, SudokuSize::Three)?;

    let hint = BasicFish::fish(&puz, &House::Row(()), 4, Technique::Jellyfish);
    let tmove = hint.unwrap()[0].clone().apply(&mut puz);
    let ivec = involved16(&tmove);
    let cvec = tmove.removed_potentials_vec();
    let inv: [usize; 15] = [18, 19, 22, 26, 27, 28, 31, 35, 45, 46, 49, 53, 54, 55, 58];
    for i in inv.iter() {
        assert!(ivec.contains(i));
    }
    assert_eq!(cvec.len(), 9, "{:?}", &tmove);
    assert_eq!(ivec.len(), 15, "{:?}", &tmove);
    Ok(())
}

#[test]
fn jellyfish2() -> Result<(), SudError> {
    let inp = "2.41.358.....2.3411.34856..732954168..5.1.9..6198324....15.82..3..24.....263....4";
    let mut puz: Sudoku<u16> = Sudoku::new_with_size(inp, SudokuSize::Three)?;

    let hint = BasicFish::fish(&puz, &House::Row(()), 4, Technique::Jellyfish);
    let tmove = hint.unwrap()[0].clone().apply(&mut puz);
    let ivec = involved16(&tmove);
    let inv: [usize; 10] = [1, 4, 8, 19, 25, 26, 52, 53, 55, 58];
    for i in inv.iter() {
        assert!(ivec.contains(i), "{:?} \n themove: {:?}", &ivec, tmove);
    }
    Ok(())
}

#[test]
fn test_index_from_what() -> Result<(), SudError> {
    assert_eq!(
        FinnedFish::<u16>::index_from_what::<()>(&House::Row(()), 0, 3, SudokuSize::Three),
        3usize
    );
    assert_eq!(FinnedFish::<u16>::index_from_what(&House::Row(()), 3, 3, SudokuSize::Three), 30);
    assert_eq!(FinnedFish::<u16>::index_from_what(&House::Col(()), 0, 3, SudokuSize::Three), 27);
    assert_eq!(FinnedFish::<u16>::index_from_what(&House::Col(()), 3, 3, SudokuSize::Three), 30);
    Ok(())
}

#[test]
fn fxwing() -> Result<(), SudError> {
    let inp = ".5267.3.8.3...562767..325.128...61.5.6....2.4714523869827314956.9.267483346958712";
    let mut puz: Sudoku<u32> = Sudoku::new_with_size(inp, SudokuSize::Three)?;

    let hint = FinnedFish::fish(&puz, &House::Row(()), 2, Technique::FinnedXWing);
    let tmove = hint.unwrap()[0].clone().apply(&mut puz);
    let ivec = involved32(&tmove);
    let cvec = tmove.removed_potentials_vec();
    let inv: [usize; 5] = [9, 11, 13, 29, 31];
    for i in inv.iter() {
        assert!(ivec.contains(i));
    }
    assert_eq!(ivec.len(), 5);
    assert_eq!(cvec.len(), 1);
    Ok(())
}

#[test]
fn finned_swordfish() -> Result<(), SudError> {
    let inp = "2.3.1865.416753982.58.26.1.84.362.9562.8.543.53.14.826.652...483.458.26..826.457.";
    let mut puz: Sudoku<u32> = Sudoku::new_with_size(inp, SudokuSize::Three)?;

    let hint = FinnedFish::fish(&puz, &House::Col(()), 3, Technique::FinnedSwordfish);
    let tmove = hint.unwrap()[0].clone().apply(&mut puz);
    let ivec = involved32(&tmove);
    let cvec = tmove.removed_potentials_vec();
    let inv: [usize; 7] = [8, 18, 26, 40, 44, 54, 58];
    for i in inv.iter() {
        assert!(ivec.contains(i));
    }
    assert_eq!(cvec.len(), 1, "{:?}", &tmove);
    assert_eq!(ivec.len(), 7, "{:?}", &tmove);
    Ok(())
}

#[test]
fn basic_index_from_what_matches_finned() {
    for primary in 0..9 {
        for secondary in 0..9 {
            assert_eq!(
                BasicFish::<u16>::index_from_what(&House::Row(()), primary, secondary, SudokuSize::Three),
                primary * 9 + secondary
            );
            assert_eq!(
                BasicFish::<u16>::index_from_what(&House::Col(()), primary, secondary, SudokuSize::Three),
                secondary * 9 + primary
            );
        }
    }
}

#[test]
fn fish_moves_keep_the_solution() -> Result<(), SudError> {
    let inp = "98..62753.65..3...327.5...679..3.5...5...9...832.45..9673591428249.87..5518.2...7";
    let mut puz: Sudoku<u16> = Sudoku::new_with_size(inp, SudokuSize::Three)?;
    let hint = BasicFish::fish(&puz, &House::Col(()), 2, Technique::XWing).unwrap();
    let tmove = hint[0].clone().apply(&mut puz);
    assert_eq!(tmove.technique(), &Some(Technique::XWing));
    assert!(puz.compare_with_solution()?);
    Ok(())
}
