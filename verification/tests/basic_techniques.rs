use std::collections::HashSet;

use rustoku::bitset::bit::Bit;
use rustoku::bitset::bitset::BitSet;
use rustoku::grid::grid_traits::Rotate;
use rustoku::grid::House;
use rustoku::human_calcs::basic::claiming::ClaimingCandidate;
use rustoku::human_calcs::basic::pointing::PointingCandidate;
use rustoku::human_calcs::basic::single_cand::SingleCandidate;
use rustoku::human_calcs::basic::single_poss::SinglePossibility;
use rustoku::human_calcs::guess::Guess;
use rustoku::{Move, Solution, SudError, Sudoku, SudokuSize, Technique};

#[test]
fn locked_claiming() -> Result<(), SudError> {
    let in_str = "318..54.6...6.381...6.8.5.3864952137123476958795318264.3.5..78......73.5....39641";
    let in_str2 = "762..8..198......615.....87478..3169526..98733198..425835..1692297685314641932758";
    let mut puzzle = Sudoku::new_with_size(in_str, SudokuSize::Three)?;
    let hint = ClaimingCandidate::claiming_candidate(&puzzle, &House::Row(1));

    let mut expected = Move::new();
    expected.method = Some(Technique::Claiming);
    expected.add_used_to_solve(puzzle.upgrade_index(10), BitSet::from_value(7u16));
    expected.add_used_to_solve(puzzle.upgrade_index(11), BitSet::from_value(7u16));
    expected.add_removed_potential(puzzle.upgrade_index(19), BitSet::from_value(7u16));
    let report = hint.unwrap().apply(&mut puzzle);
    assert_eq!(report, expected);

    let mut puzzle = Sudoku::new_with_size(in_str, SudokuSize::Three)?.cwrotate(1)?;
    let hint = ClaimingCandidate::claiming_candidate(&puzzle, &House::Col(7));
    let mut expected = Move::new();
    expected.method = Some(Technique::Claiming);
    expected.add_used_to_solve(puzzle.upgrade_index(16), BitSet::from_value(7u32));
    expected.add_used_to_solve(puzzle.upgrade_index(25), BitSet::from_value(7u32));
    expected.add_removed_potential(puzzle.upgrade_index(15), BitSet::from_value(7u32));
    let report = hint.unwrap().apply(&mut puzzle);
    assert_eq!(report, expected);

    let mut puzzle = Sudoku::new_with_size(in_str, SudokuSize::Three)?.cwrotate(2)?;
    let hint = ClaimingCandidate::claiming_candidate(&puzzle, &House::Row(7));
    let mut expected = Move::new();
    expected.method = Some(Technique::Claiming);
    expected.add_used_to_solve(puzzle.upgrade_index(69), BitSet::from_value(7u64));
    expected.add_used_to_solve(puzzle.upgrade_index(70), BitSet::from_value(7u64));
    expected.add_removed_potential(puzzle.upgrade_index(61), BitSet::from_value(7u64));
    let report = hint.unwrap().apply(&mut puzzle);
    assert_eq!(report, expected);

    let copy = Sudoku::<u64>::new_with_size(in_str, SudokuSize::Three)?;
    let _copy = copy.unique_solution()?.cwrotate(2)?;
    assert!(puzzle.compare_with_solution().unwrap());

    let mut puzzle = Sudoku::new_with_size(in_str2, SudokuSize::Three)?;
    let hint = ClaimingCandidate::claiming_candidate(&puzzle, &House::Col(5));
    let mut expected = Move::new();
    expected.method = Some(Technique::Claiming);
    expected.add_used_to_solve(puzzle.upgrade_index(14), BitSet::from_value(4u128));
    expected.add_used_to_solve(puzzle.upgrade_index(23), BitSet::from_value(4u128));
    let changes = [3, 4, 12, 13, 21, 22];
    for c in &changes {
        expected.add_removed_potential(puzzle.upgrade_index(*c), BitSet::from_value(4u128));
    }
    let report = hint.unwrap().apply(&mut puzzle);
    assert_eq!(report, expected);
    assert!(puzzle.compare_with_solution()?);
    Ok(())
}

#[test]
fn locked_pointing() -> Result<(), SudError> {
    let in_str = "984........25...4...19.4..2..6.9723...36.2...2.9.3561.195768423427351896638..9751";
    let in_str2 = "34...6.7..8....93...2.3..6.....1.....9736485......2...............6.8.9....923785";
    let mut puzzle = <Sudoku<u64>>::new_with_size(in_str, SudokuSize::Three)?;
    let hint = PointingCandidate::pointing_candidate(&puzzle, &House::Row(2usize));

    let mut expected = Move::new();
    expected.method = Some(Technique::Pointing);
    expected.add_used_to_solve(puzzle.upgrade_index(18), BitSet::from_value(5));
    expected.add_used_to_solve(puzzle.upgrade_index(19), BitSet::from_value(5));
    expected.add_removed_potential(puzzle.upgrade_index(24), BitSet::from_value(5));
    let report = hint.unwrap().apply(&mut puzzle);
    assert_eq!(report, expected, "{:?}", report);
    assert!(puzzle.compare_with_solution()?);

    let mut puzzle: Sudoku<u16> = Sudoku::new_with_size(in_str, SudokuSize::Three)?.cwrotate(1)?;
    let hint = PointingCandidate::pointing_candidate(&puzzle, &House::Col(6));
    let mut expected = Move::new();
    expected.method = Some(Technique::Pointing);
    expected.add_used_to_solve(puzzle.upgrade_index(6), BitSet::from_value(5u16));
    expected.add_used_to_solve(puzzle.upgrade_index(15), BitSet::from_value(5));
    expected.add_removed_potential(puzzle.upgrade_index(60), BitSet::from_value(5u16));
    let report = hint.unwrap().apply(&mut puzzle);
    assert_eq!(report, expected);
    assert!(puzzle.compare_with_solution()?);

    let mut puzzle: Sudoku<u16> = Sudoku::new_with_size(in_str, SudokuSize::Three)
        .expect("valid puzzle")
        .cwrotate(2)
        .expect("Should rotate");
    let hint = PointingCandidate::pointing_candidate(&puzzle, &House::Row(6));
    let mut expected = Move::new();
    expected.method = Some(Technique::Pointing);
    expected.add_used_to_solve(puzzle.upgrade_index(61), BitSet::from_value(5u16));
    expected.add_used_to_solve(puzzle.upgrade_index(62), BitSet::from_value(5u16));
    expected.add_removed_potential(puzzle.upgrade_index(56), BitSet::from_value(5u16));
    let report = hint.unwrap().apply(&mut puzzle);
    assert_eq!(report, expected);
    assert!(puzzle.compare_with_solution()?);

    let mut puzzle = Sudoku::new_with_size(in_str2, SudokuSize::Three)?;
    let hint = PointingCandidate::pointing_candidate(&puzzle, &House::Row(6));
    let mut expected = Move::new();
    expected.method = Some(Technique::Pointing);
    expected.add_used_to_solve(puzzle.upgrade_index(57), BitSet::from_value(1u16));
    expected.add_used_to_solve(puzzle.upgrade_index(59), BitSet::from_value(1u16));
    let changes = [54, 55, 56, 60, 61, 62];
    for c in &changes {
        expected.add_removed_potential(puzzle.upgrade_index(*c), BitSet::from_value(1u16));
    }
    let report = hint.unwrap().apply(&mut puzzle);
    assert_eq!(report, expected);
    assert!(puzzle.compare_with_solution()?);

    let hint2 = PointingCandidate::pointing_candidate(&puzzle, &House::Row(6)).unwrap();
    let ivec: HashSet<usize> = hint2.involved_vec().iter().map(|pair| pair.index().to_usize()).collect();
    assert_eq!(hint2.technique(), &Some(Technique::Pointing));
    assert!(ivec.contains(&60));
    assert!(ivec.contains(&62));
    assert!(!ivec.contains(&61));

    hint2.apply(&mut puzzle);
    let hint3 = PointingCandidate::new()._hint(&puzzle).unwrap();
    hint3[0].clone().apply(&mut puzzle);
    let hint4 = PointingCandidate::new()._hint(&puzzle);
    assert!(hint4.is_none(), "{:?}", hint4);

    let puzzle: Sudoku<u32> = Sudoku::new_with_size(in_str2, SudokuSize::Three)?;
    assert_eq!(puzzle.grid.items[11].poss(), &BitSet::from_binary(0b11_0001));
    assert_eq!(puzzle.grid.items[28].poss(), &BitSet::from_binary(0b11_0110));
    let hint = PointingCandidate::pointing_candidate(&puzzle, &House::Col(0));
    assert!(hint.is_none(), "{:?}", hint);
    Ok(())
}

#[test]
fn issuefromothertest() {
    let mut s: Sudoku<u16> = Sudoku::new_with_size(
        ".28..7....16.83.7.....2.85113729.......73........463.729..7.......86.14....3..7..",
        SudokuSize::Three,
    )
    .unwrap();
    loop {
        if let Some(hint) = PointingCandidate::pointing_candidate(&s, &House::Col(5)) {
            hint.apply(&mut s);
        } else {
            break;
        }
    }
}

#[test]
fn single_cand() -> Result<(), SudError> {
    let inv: Vec<u32> = vec![
        vec![5, 3, 4, 0, 7, 0, 0, 0, 0],
        vec![6, 0, 2, 1, 9, 5, 0, 0, 0],
        vec![0, 9, 8, 0, 0, 0, 0, 6, 0],
        vec![8, 0, 0, 0, 6, 0, 0, 0, 3],
        vec![4, 0, 0, 8, 0, 3, 0, 0, 1],
        vec![0, 0, 0, 0, 2, 0, 0, 0, 6],
        vec![0, 6, 0, 0, 0, 0, 2, 8, 0],
        vec![0, 0, 0, 4, 1, 9, 0, 0, 5],
        vec![0, 0, 0, 0, 8, 0, 0, 7, 9],
    ]
    .iter()
    .flatten()
    .cloned()
    .collect();
    let mut puz = Sudoku::new_with_size(inv, SudokuSize::Three).unwrap();

    let expected: Vec<Vec<u32>> = vec![
        vec![5, 3, 4, 6, 7, 8, 9, 1, 2],
        vec![6, 7, 2, 1, 9, 5, 3, 4, 8],
        vec![1, 9, 8, 3, 4, 2, 5, 6, 7],
        vec![8, 5, 9, 7, 6, 1, 4, 2, 3],
        vec![4, 2, 6, 8, 5, 3, 7, 9, 1],
        vec![7, 1, 3, 9, 2, 4, 8, 5, 6],
        vec![9, 6, 1, 5, 3, 7, 2, 8, 4],
        vec![2, 8, 7, 4, 1, 9, 6, 3, 5],
        vec![3, 4, 5, 2, 8, 6, 1, 7, 9],
    ];

    let mut count = 0;
    while let Some(hint) = SingleCandidate::_hint(&puz) {
        hint.apply(&mut puz);
        count += 1;
    }

    assert_eq!(count, 50);
    for (act, exp) in puz.grid.iter().iter().zip(expected.iter().flatten()) {
        assert_eq!(act.val(), Some(Bit::from_value(*exp)));
    }
    Ok(())
}

#[test]
fn single_possibility_test() -> Result<(), SudError> {
    let mut puz = <Sudoku<u16>>::new_with_size(
        vec![
            vec![5, 3, 4, 0, 7, 0, 0, 0, 0],
            vec![6, 0, 2, 1, 9, 5, 0, 0, 0],
            vec![0, 9, 8, 0, 0, 0, 0, 6, 0],
            vec![8, 0, 0, 0, 6, 0, 0, 0, 3],
            vec![4, 0, 0, 8, 0, 3, 0, 0, 1],
            vec![0, 1, 0, 0, 2, 0, 0, 0, 6],
            vec![0, 6, 0, 0, 0, 0, 2, 8, 0],
            vec![0, 0, 0, 4, 1, 9, 0, 0, 5],
            vec![0, 0, 0, 0, 8, 0, 0, 7, 9],
        ]
        .iter()
        .flatten()
        .cloned()
        .collect::<Vec<u16>>(),
        SudokuSize::Three,
    )?;

    loop {
        if let Some(m) = SinglePossibility::_hint(&puz) {
            m.apply(&mut puz);
        } else {
            break;
        }
    }
    assert_eq!(puz.remaining(), 0);

    let inp = "...15..3.9..4....7.58.9....31....72.4.......8.......5....24...55.......6.71..9...";
    let mut puz: Sudoku<u16> = Sudoku::new_with_size(inp, SudokuSize::Three)?;
    let mut count = 0;
    loop {
        if let Some(m) = SinglePossibility::_hint(&puz) {
            m.apply(&mut puz);
            count += 1;
        } else {
            break;
        }
    }
    assert!(count > 4);
    match puz.solution() {
        Solution::One(s) => assert!(s.iter().iter().all(|v| *v > 0 && *v <= 9)),
        _ => assert!(false, "{:?}", puz.solution()),
    }
    Ok(())
}

#[test]
fn guess_solve() -> Result<(), SudError> {
    let inp = "..53.....8......2..7..1.5..4....53...1..7...6..32...8..6.5....9..4....3......97..";
    let mut puz = <Sudoku<u16>>::new_with_size(inp, SudokuSize::Three)?;

    let mut remaining = puz.remaining();
    assert_ne!(remaining, 0);
    while remaining > 0 {
        Guess::_hint(&puz).unwrap().apply(&mut puz);
        let new_remaining = puz.remaining();
        assert_eq!(new_remaining, remaining - 1);
        remaining = new_remaining;
    }
    assert_eq!(remaining, 0);
    Ok(())
}

#[test]
fn technique_names() {
    assert_eq!(Technique::XWing.to_string(), "X-Wing");
    assert_eq!(Technique::NakedTuple(5).to_string(), "Naked Tuple size: 5");
    assert_eq!(Technique::FinnedN(12).to_string(), "Finned Fish size: 12");
    assert_eq!(Technique::Guess.to_string(), "Guess");
}
