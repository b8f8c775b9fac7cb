use rustoku::bitset::bit::Bit;
use rustoku::grid::{Coord, Index};
use rustoku::{InitialInput, OutputString, SudError, Sudoku, SudokuSize};

type TSudoku = Sudoku<u16>;
const SIZE: SudokuSize = SudokuSize::Three;

fn basic_sud() -> TSudoku {
    Sudoku::<u16>::new_with_size(
        ".28..7....16.83.7.....2.85113729.......73........463.729..7.......86.14....3..7..",
        SIZE,
    )
    .unwrap()
}

fn vecinput() -> Vec<u64> {
    vec![
        5, 3, 0, 0, 7, 0, 0, 0, 0, 6, 0, 0, 1, 9, 5, 0, 0, 0, 0, 9, 8, 0, 0, 0, 0, 6, 0, 8, 0, 0,
        0, 6, 0, 0, 0, 3, 4, 0, 0, 8, 0, 3, 0, 0, 1, 7, 0, 0, 0, 2, 0, 0, 0, 6, 0, 6, 0, 0, 0, 0,
        2, 8, 0, 0, 0, 0, 4, 1, 9, 0, 0, 5, 0, 0, 0, 0, 8, 0, 0, 7, 9,
    ]
}

fn get_example() -> Vec<Vec<u16>> {
    vec![
        vec![5, 3, 0, 0, 7, 0, 0, 0, 0],
        vec![6, 0, 0, 1, 9, 5, 0, 0, 0],
        vec![0, 9, 8, 0, 0, 0, 0, 6, 0],
        vec![8, 0, 0, 0, 6, 0, 0, 0, 3],
        vec![4, 0, 0, 8, 0, 3, 0, 0, 1],
        vec![7, 0, 0, 0, 2, 0, 0, 0, 6],
        vec![0, 6, 0, 0, 0, 0, 2, 8, 0],
        vec![0, 0, 0, 4, 1, 9, 0, 0, 5],
        vec![0, 0, 0, 0, 8, 0, 0, 7, 9],
    ]
}

fn test_sud() -> TSudoku {
    TSudoku::new_with_size(get_example().iter().flatten().cloned().collect::<Vec<u16>>(), SIZE)
        .unwrap()
}

#[test]
fn was_valid_entry_valid_base() -> Result<(), SudError> {
    let sud = test_sud();
    for i in 0..SIZE.total() {
        assert!(sud.was_valid_entry(i), "{:?}", i);
    }
    Ok(())
}

#[test]
fn set() -> Result<(), SudError> {
    let mut sud = test_sud();
    let ind = 2usize;
    sud.set(ind, 1)?;
    assert_eq!(sud._get(ind).val(), Some(Bit::from_value(1)));
    assert!(sud.was_valid_entry(ind));
    assert_eq!(sud.get(ind).unwrap(), 1);

    let ind = 3;
    sud.set(ind, 2)?;
    assert_eq!(sud._get(ind).val(), Some(Bit::from_value(2)));
    assert!(sud.was_valid_entry(ind));
    assert_eq!(sud.get(ind)?, 2);
    Ok(())
}

#[test]
fn set_bad() -> Result<(), SudError> {
    let mut sud = test_sud();
    let ind = 1;
    assert!(sud.set(ind, 3).is_err());
    assert!(sud.set(ind, 9).is_err());

    let ind = 2;
    assert!(sud.set(ind, 3).is_err());
    assert!(sud.set(ind, 10).is_err());
    Ok(())
}

#[test]
fn unselv() -> Result<(), SudError> {
    let mut sud = test_sud();
    let unsolved = sud.remaining();
    assert!(unsolved > 20 && unsolved < 70);
    let ind = 2;
    sud.set(ind, 2)?;
    let oneless = sud.remaining();
    assert_eq!(oneless, unsolved - 1);
    Ok(())
}

fn test_okay<T: InitialInput<V>, V: rustoku::bitset::traits::BitSetInt>(inputvec: T) {
    let s: Result<Sudoku<V>, _> = Sudoku::new_with_size(inputvec, SIZE);
    assert!(s.is_ok());
}

#[test]
fn new() -> Result<(), SudError> {
    // Good puzzle, should not return an error
    let s = TSudoku::new_with_size(
        ".28..7....16.83.7.....2.85113729.......73........463.729..7.......86.14....3..7..",
        SIZE,
    )?;
    let s_sol = s.unique_solution()?;

    // With a multibyte character for empty cells
    let t = TSudoku::new_with_size("😇28😇😇7😇😇😇😇16😇83😇7😇😇😇😇😇2😇85113729😇😇😇😇😇😇😇73😇😇😇😇😇😇😇😇463😇729😇😇7😇😇😇😇😇😇😇86😇14😇😇😇😇3😇😇7😇😇", SIZE)?;
    assert!(s == t);
    let t_sol = t.unique_solution()?;
    assert_eq!(s_sol, t_sol);

    let t = TSudoku::new_with_size(
        "028007000016083070000020851137290000000730000000046307290070000000860140000300700",
        SIZE,
    )?;
    assert!(s == t);
    let t_sol = t.unique_solution()?;
    assert_eq!(s_sol, t_sol);

    // This puzzle is invalid.
    let s = TSudoku::new_with_size(
        ".27..7....16.83.7.....2.85113729.......73........463.729..7.......86.14....3..7..",
        SIZE,
    );
    assert!(s.is_err());

    // Short by one puzzle string
    let s = TSudoku::new_with_size(
        ".28.7....16.83.7.....2.85113729.......73........463.729..7.......86.14....3..7..",
        SIZE,
    );
    assert!(s.is_err());

    let mut s = vecinput();
    s.pop();
    let s = Sudoku::<u64>::new_with_size(s, SIZE);
    assert!(s.is_err());

    // Long by one puzzle string
    let s = TSudoku::new_with_size(
        ".28...7....16.83.7.....2.85113729.......73........463.729..7.......86.14....3..7..",
        SIZE,
    );
    assert!(s.is_err());

    let mut s = vecinput();
    s.push(2u64);
    let s = Sudoku::<u64>::new_with_size(s, SIZE);
    assert!(s.is_err());

    // negative sign
    let s = TSudoku::new_with_size(
        ".-28..7....16.83.7.....2.85113729.......73........463.729..7.......86.14....3..7..",
        SIZE,
    );
    assert!(s.is_err());

    // Regular 1-D vector, should not error.
    test_okay(vecinput().iter().map(|v| *v as u16).collect::<Vec<u16>>());
    test_okay(vecinput().iter().map(|v| *v as u32).collect::<Vec<u32>>());
    test_okay(vecinput().iter().map(|v| *v as u128).collect::<Vec<u128>>());
    test_okay(vecinput());
    Ok(())
}

#[test]
fn validatetest() -> Result<(), SudError> {
    let s = basic_sud();
    assert!(s.unique_solution().is_ok(), "{:?}", s.unique_solution());

    // Has two solutions
    let multi = TSudoku::new_with_size(
        ".28..7....16.83.7.....2.8511372........73........463.729..7.......86.14....3..7..",
        SIZE,
    )?;
    match multi.unique_solution() {
        Err(SudError::MultipleSolution(_)) => (),
        x => panic!("{:?}", x),
    }

    // Invalid puzzle, conflicting in the first row
    let conflict = TSudoku::new_with_size(
        ".78..7....16.83.7.....2.8511372........73........463.729..7.......86.14....3..7..",
        SIZE,
    );
    assert!(conflict.is_err());
    Ok(())
}

fn expected_poss<T: PartialEq>(expected: &[T], poss: &[T]) {
    assert_eq!(poss.len(), expected.len());
    for exp in expected {
        assert!(poss.contains(exp));
    }
}

#[test]
fn setv() -> Result<(), SudError> {
    let mut s = basic_sud();
    // Index 37 or row 4, col 1
    let expected: Vec<u16> = vec![4, 5, 6, 8];
    let poss = s.possibilities(Coord::new(4, 1, SIZE).to_usize()).unwrap();
    expected_poss(&expected, &poss);
    let remaining = s.remaining();

    assert_eq!(s._get(Coord::new(4, 1, SIZE).to_usize()).val(), None);

    // Invalid entry: nothing changes
    assert!(s.set(Index::new(37, SIZE), 2u16).is_err());
    assert_eq!(s.get_square((4, 1))?.val(), None);
    expected_poss(&expected, &s.possibilities((4, 1))?);
    assert_eq!(s.remaining(), remaining);

    // Now a valid number
    s.set(37, 5)?;
    assert_eq!(s.get_square((4, 1))?.val(), Some(Bit::from_value(5)));
    assert_eq!(s.possibilities((4, 1))?.len(), 0);

    // 5 is no longer possible in the affected cells
    assert!(!s.possibilities((7, 1))?.contains(&5));
    assert!(!s.possibilities((5, 0))?.contains(&5));
    assert!(!s.possibilities((4, 5))?.contains(&5));

    assert_eq!(s.remaining(), remaining - 1);
    Ok(())
}

#[test]
fn undotest() -> Result<(), SudError> {
    let mut s = basic_sud();
    s.set(37, 5u16)?;
    assert_eq!(s.get((4, 1))?, 5);

    assert_eq!(s.possibilities((4, 1))?.len(), 0);
    assert!(!s.possibilities((7, 1))?.contains(&5));
    assert!(!s.possibilities((5, 0))?.contains(&5));
    assert!(!s.possibilities((4, 5))?.contains(&5));

    let remaining = s.remaining();
    s.undo();

    let expected: Vec<u16> = vec![4, 5, 6, 8];
    let poss = s.possibilities((4, 1)).unwrap();
    expected_poss(&expected, &poss);

    // 5 is back in the row, column and box
    assert!(s.possibilities((7, 1))?.contains(&5));
    assert!(s.possibilities((5, 0))?.contains(&5));
    assert!(s.possibilities((4, 5))?.contains(&5));

    assert_eq!(s.remaining(), remaining + 1);
    Ok(())
}

#[test]
fn completeundo() {
    let mut s = basic_sud();
    let original_remaining = s.remaining();
    let original_grid = s.grid.clone();

    while s.remaining() > 0 {
        if let Some(themove) = s.human_solver.next(&s) {
            themove.apply(&mut s);
        } else {
            panic!("Unsolvable Puzzle");
        }
    }
    assert_eq!(s.remaining(), 0);
    assert!(s.is_solved());

    let grid = s.grid.clone();
    let moves = s.moves.clone();

    let mut reverse_count = 0;
    while s.undo().is_some() {
        reverse_count += 1;
    }

    assert_eq!(s.moves.len(), 0);
    assert_eq!(reverse_count, moves.len());
    assert_eq!(s.remaining(), original_remaining);
    assert_eq!(s.grid, original_grid);

    assert!(s.compare_with_solution().is_ok());

    let mut move_number = 0;
    while s.remaining() > 0 {
        if let Some(themove) = s.human_solver.next(&s) {
            let a_move = themove.apply(&mut s);
            assert_eq!(
                a_move, moves[move_number],
                "Original: {:?}\n\nSecond: {:?}",
                moves[move_number], a_move
            );
            move_number += 1;
        } else {
            panic!("Unsolvable Puzzle");
        }
    }

    assert_eq!(s.remaining(), 0);
    assert_eq!(s.moves.len(), moves.len());
    assert_eq!(s.grid, grid);
    assert_eq!(s.moves, moves);
}

#[test]
fn possibilities() {
    let s = test_sud();
    // Row 4, Col 2 is Index 38
    let poss = s.possibilities(Index::new(38, SIZE).to_usize()).unwrap();
    assert_eq!(poss.len(), 4, "Possiblities: {:?}", poss);
    assert!(poss.contains(&2));
    assert!(poss.contains(&5));
    assert!(poss.contains(&6));
    assert!(poss.contains(&9));

    let poss = s.possibilities(Coord::new(4, 2, SIZE).to_usize()).unwrap();
    assert_eq!(poss.len(), 4);
    assert!(poss.contains(&2));
    assert!(poss.contains(&5));
    assert!(poss.contains(&6));
    assert!(poss.contains(&9));
}

#[test]
fn is_valid_entry() -> Result<(), SudError> {
    let s = basic_sud();
    // Index 41 is Row 4, Col 4
    assert!(s.is_valid_entry(41, 1)?);
    assert!(s.is_valid_entry(41, 5)?);
    assert!(s.is_valid_entry(41, 8)?);
    assert!(!s.is_valid_entry(41, 2)?);
    assert!(!s.is_valid_entry(41, 6)?);
    assert!(!s.is_valid_entry(41, 9)?);

    assert!(s.is_valid_entry(Coord::new(4, 5, SIZE).to_usize(), 1)?);
    assert!(s.is_valid_entry(Coord::new(4, 5, SIZE).to_usize(), 5)?);
    assert!(s.is_valid_entry(Coord::new(4, 5, SIZE).to_usize(), 8)?);
    assert!(!s.is_valid_entry(Coord::new(4, 5, SIZE).to_usize(), 2)?);
    assert!(!s.is_valid_entry(Coord::new(4, 5, SIZE).to_usize(), 6)?);
    assert!(!s.is_valid_entry(Coord::new(4, 5, SIZE).to_usize(), 9)?);
    Ok(())
}

#[test]
fn basic_solve() -> Result<(), SudError> {
    let s = basic_sud();
    let valid_sol = s.unique_solution();
    assert!(valid_sol.is_ok(), "{:?}", valid_sol);

    let brute = s.unique_solution()?;
    assert_ne!(&s.grid.to_inner(), brute);
    assert!(s.remaining() > 0);
    assert!(brute.items.iter().all(|v| v != &0));
    Ok(())
}

#[test]
fn ninebynine_no_delimit() -> Result<(), SudError> {
    let sudoku = <Sudoku<u16>>::new(
        ".5..83.17...1..4..3.4..56.8....3...9.9.8245....6....7...9....5...729..861.36.72.4",
    )?;
    assert_eq!(
        sudoku.output_string('.', None),
        ".5..83.17...1..4..3.4..56.8....3...9.9.8245....6....7...9....5...729..861.36.72.4".to_owned()
    );
    let sol = sudoku.unique_solution()?.output_string('.', None);
    assert_eq!(
        sol,
        "652483917978162435314975628825736149791824563436519872269348751547291386183657294".to_string()
    );
    Ok(())
}

#[test]
fn ninebynine_with_delmit() -> Result<(), SudError> {
    let sudoku = <Sudoku<u16>>::new(
        ".5..83.17...1..4..3.4..56.8....3...9.9.8245....6....7...9....5...729..861.36.72.4",
    )?;
    assert_eq!(
        sudoku.output_string('0', Some(',')),
        "0,5,0,0,8,3,0,1,7,0,0,0,1,0,0,4,0,0,3,0,4,0,0,5,6,0,8,0,0,0,0,3,0,0,0,9,0,9,0,8,2,4,5,0,0,0,0,6,0,0,0,0,7,0,0,0,9,0,0,0,0,5,0,0,0,7,2,9,0,0,8,6,1,0,3,6,0,7,2,0,4"
            .to_owned()
    );
    let sol = sudoku.unique_solution()?.output_string('.', Some(','));
    assert_eq!(
        sol,
        "6,5,2,4,8,3,9,1,7,9,7,8,1,6,2,4,3,5,3,1,4,9,7,5,6,2,8,8,2,5,7,3,6,1,4,9,7,9,1,8,2,4,5,6,3,4,3,6,5,1,9,8,7,2,2,6,9,3,4,8,7,5,1,5,4,7,2,9,1,3,8,6,1,8,3,6,5,7,2,9,4"
            .to_string()
    );
    Ok(())
}
