use rustoku::{SudError, Sudoku, SudokuSize};

fn example() -> Result<Sudoku<u16>, SudError> {
    Sudoku::<u16>::new_with_size(
        "53..7....6..195....98....6.8...6...34..8.3..17...2...6.6....28....419..5....8..79",
        SudokuSize::Three,
    )
}

#[test]
fn set_value_joins_the_trackers() -> Result<(), SudError> {
    let mut sud = example()?;
    assert_eq!(sud.all_groups_values(2).debug_values(), vec![9u16, 8, 7, 6, 5, 3]);
    sud.set(2usize, 4)?;
    assert_eq!(sud.all_groups_values(2).debug_values(), vec![9u16, 8, 7, 6, 5, 4, 3]);
    assert_eq!(sud.all_groups_values(20).debug_values(), vec![9u16, 8, 6, 5, 4, 3]);
    Ok(())
}

#[test]
fn undo_takes_the_value_out_of_the_trackers() -> Result<(), SudError> {
    let mut sud = example()?;
    sud.set(2usize, 4)?;
    sud.undo();
    assert_eq!(sud.all_groups_values(2).debug_values(), vec![9u16, 8, 7, 6, 5, 3]);
    assert_eq!(sud.all_groups_values(10).debug_values(), vec![9u16, 8, 6, 5, 3, 1]);
    Ok(())
}
