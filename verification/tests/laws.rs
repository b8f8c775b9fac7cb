use rustoku::grid::grid_traits::Rotate;
use rustoku::grid::Index;
use rustoku::human_calcs::basic::single_cand::SingleCandidate;
use rustoku::{Hint, Move, OutputString, Solution, SudError, Sudoku, SudokuSize};

const PUZ: &str = ".28..7....16.83.7.....2.85113729.......73........463.729..7.......86.14....3..7..";

fn values(s: &Sudoku<u16>) -> Vec<u16> {
    s.value_iter()
}

#[test]
fn set_then_undo_restores_the_puzzle() -> Result<(), SudError> {
    let mut s = Sudoku::<u16>::new(PUZ)?;
    let before = s.grid.clone();
    let remaining = s.remaining();
    let poss: Vec<Vec<u16>> = (0..81).map(|i| s.possibilities(i).unwrap()).collect();

    s.set(37, 5)?;
    assert_eq!(s.remaining(), remaining - 1);
    let undone = s.undo();
    assert!(undone.is_some());
    assert_eq!(s.grid, before);
    assert_eq!(s.remaining(), remaining);
    for i in 0..81 {
        assert_eq!(s.possibilities(i)?, poss[i]);
    }
    assert!(s.moves.is_empty());
    Ok(())
}

#[test]
fn remove_potential_then_undo_restores_the_puzzle() -> Result<(), SudError> {
    let mut s = Sudoku::<u16>::new(PUZ)?;
    let before: Vec<Vec<u16>> = (0..81).map(|i| s.possibilities(i).unwrap()).collect();
    s.remove_potential(37, 4)?;
    assert!(!s.possibilities(37)?.contains(&4));
    s.undo();
    for i in 0..81 {
        assert_eq!(s.possibilities(i)?, before[i]);
    }
    Ok(())
}

#[test]
fn hint_then_undo_restores_the_puzzle() -> Result<(), SudError> {
    let mut s = Sudoku::<u16>::new(PUZ)?;
    let before = s.grid.clone();
    let hint = s.human_solver.next(&s).unwrap();
    hint.apply(&mut s);
    assert_ne!(s.grid.to_inner(), before.to_inner());
    s.undo();
    assert_eq!(s.grid, before);
    Ok(())
}

#[test]
fn undo_on_a_fresh_puzzle_does_nothing() -> Result<(), SudError> {
    let mut s = Sudoku::<u16>::new(PUZ)?;
    let before = s.grid.clone();
    assert!(s.undo().is_none());
    assert_eq!(s.grid, before);
    Ok(())
}

#[test]
fn four_quarter_turns_give_the_puzzle_back() -> Result<(), SudError> {
    let s = Sudoku::<u16>::new(PUZ)?;
    let turned = Sudoku::<u16>::new(PUZ)?.cwrotate(4)?;
    assert!(s == turned);
    assert_eq!(values(&s), values(&turned));
    Ok(())
}

#[test]
fn one_quarter_turn_moves_the_first_row_to_the_last_column() -> Result<(), SudError> {
    let s = Sudoku::<u16>::new(PUZ)?;
    let vals = values(&s);
    let turned = Sudoku::<u16>::new(PUZ)?.cwrotate(1)?;
    let tv = values(&turned);
    for r in 0..9 {
        for c in 0..9 {
            // new (r, c) holds old (8 - c, r)
            assert_eq!(tv[r * 9 + c], vals[(8 - c) * 9 + r]);
        }
    }
    Ok(())
}

#[test]
fn each_error_kind() {
    // A length that is no puzzle size
    assert_eq!(Sudoku::<u16>::new(".-28").err(), Some(SudError::InputLengthError(4)));
    // Too short
    assert_eq!(
        Sudoku::<u16>::new_with_size(&PUZ[1..], SudokuSize::Three).err(),
        Some(SudError::InputLengthError(80))
    );
    // Houses wider than the integer type
    let zeros = vec![0u16; 625];
    assert_eq!(
        Sudoku::<u16>::new_with_size(zeros, SudokuSize::Five).err(),
        Some(SudError::InvalidPuzzle)
    );
    // A value above the house size
    let mut big = vec![0u16; 81];
    big[0] = 10;
    assert!(matches!(
        Sudoku::<u16>::new_with_size(big, SudokuSize::Three),
        Err(SudError::ValueNotPossible(_))
    ));
    // Two equal values in a row
    assert!(matches!(
        Sudoku::<u16>::new(".27..7....16.83.7.....2.85113729.......73........463.729..7.......86.14....3..7.."),
        Err(SudError::IllegalOperation(_))
    ));
    // No solution although no house holds a value twice
    let mut none = vec![0u16; 81];
    for (i, v) in none.iter_mut().enumerate().take(8) {
        *v = (i + 1) as u16;
    }
    none[17] = 9;
    let s = Sudoku::<u16>::new_with_size(none, SudokuSize::Three).unwrap();
    assert!(matches!(s.solution(), Solution::NoSolution));
    assert_eq!(s.unique_solution().err(), Some(SudError::NoSolution));
    // Several solutions
    let multi = Sudoku::<u16>::new(
        ".28..7....16.83.7.....2.8511372........73........463.729..7.......86.14....3..7..",
    )
    .unwrap();
    assert!(matches!(multi.unique_solution(), Err(SudError::MultipleSolution(_))));
    // A cell outside the puzzle
    let s = Sudoku::<u16>::new(PUZ).unwrap();
    assert_eq!(s.get(81usize).err(), Some(SudError::InvalidLocation((81, 0))));
    assert_eq!(s.get((9usize, 0usize)).err(), Some(SudError::InvalidLocation((9, 0))));
    // a column past the edge is outside the grid too, not the next row
    assert_eq!(s.get((0usize, 9usize)).err(), Some(SudError::InvalidLocation((0, 9))));
    assert_eq!(s.get((1usize, 1usize)), s.get(10usize));
    // Not solved yet
    // empty cells are missing values, not conflicts
    let open = s.remaining();
    assert_eq!(s.validate_against_solution().err(), Some(SudError::NotSolved(open, 0)));
    // A hint that cannot be made
    let mut s = Sudoku::<u16>::new(PUZ).unwrap();
    let mut m = Move::new();
    m.set_value(Index::new(1, SudokuSize::Three), 3, true);
    assert_eq!(Hint(m).try_apply(&mut s).err(), Some(SudError::HumanSolveError));
}

#[test]
fn setting_a_value_that_is_not_possible_changes_nothing() -> Result<(), SudError> {
    let mut s = Sudoku::<u16>::new(PUZ)?;
    let before = s.grid.clone();
    assert!(matches!(s.set(37usize, 2), Err(SudError::ValueNotPossible(_))));
    assert!(matches!(s.set(1usize, 3), Err(SudError::ValueNotPossible(_))));
    assert_eq!(s.grid, before);
    assert!(s.moves.is_empty());
    Ok(())
}

#[test]
fn single_candidate_hint_sets_the_only_possible_value() -> Result<(), SudError> {
    let inp = "..53.....8......2..7..1.5..4....53...1..7...6..32...8..6.5....9..4....3......97..";
    let mut s = Sudoku::<u16>::new(inp)?;
    // Fill the puzzle with single candidates while there are any
    while let Some(m) = SingleCandidate::_hint(&s) {
        let idx = m.change().unwrap().index().to_usize();
        let poss = s.possibilities(idx)?;
        assert_eq!(poss.len(), 1);
        let made = m.apply(&mut s);
        assert_eq!(s.get(idx)?, poss[0]);
        assert_eq!(made.change().unwrap().value(), &poss[0]);
    }
    Ok(())
}

#[test]
fn output_of_an_empty_house_uses_the_empty_char() -> Result<(), SudError> {
    let s = Sudoku::<u16>::new(PUZ)?;
    let text = s.output_string('_', Some('|'));
    assert_eq!(text.len(), 81 * 2 - 1);
    assert!(text.starts_with("_|2|8|_|_|7"));
    Ok(())
}

#[test]
fn error_messages() {
    assert_eq!(
        SudError::NotSolved(3, 12).to_string(),
        "Not yet solved. 3 missing values and 12 conflicting values"
    );
    assert_eq!(
        SudError::InputLengthError(80).to_string(),
        "Input length different than expected.  Actual: 80, expected: 81"
    );
    assert_eq!(
        SudError::ValueNotPossible("37".to_owned()).to_string(),
        "The value entered is not a valid possibility at index 37"
    );
    assert_eq!(
        SudError::InvalidLocation((9, 0)).to_string(),
        "The location of : (9, 0) exceeds puzzle parameters"
    );
    assert_eq!(SudError::IllegalOperation("no").to_string(), "Illegal operation: no");
    assert_eq!(SudError::NoSolution.to_string(), "There is no solution for the given input");
    assert_eq!(
        SudError::MultipleSolution(2).to_string(),
        "There is not a unique solution. There are 2 solutions."
    );
}

#[test]
fn puzzle_text_uses_dots_for_empty_cells() -> Result<(), SudError> {
    let s = Sudoku::<u16>::new(PUZ)?;
    assert_eq!(s.to_string(), PUZ);
    Ok(())
}
