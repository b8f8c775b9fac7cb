use rustoku::bitset::bitset::BitSet;
use rustoku::{Index, IndexValuePair, Move, SudError, Sudoku, SudokuSize};

#[test]
fn pair_text_names_cell_and_value() {
    let p = IndexValuePair::new(Index::new(13, SudokuSize::Three), 7u16);
    assert_eq!(p.to_text(), "Index: 13, Coordinate: r1, c4Value: 7");
}

#[test]
fn move_text_of_a_set() -> Result<(), SudError> {
    let mut sud = Sudoku::<u16>::new_with_size(
        "53..7....6..195....98....6.8...6...34..8.3..17...2...6.6....28....419..5....8..79",
        SudokuSize::Three,
    )?;
    let m = sud.set(2usize, 4)?;
    assert_eq!(m.to_text(), "Square 2, coordinate 0, 2 was set to 4");
    Ok(())
}

#[test]
fn move_text_lists_used_cells() {
    let mut m: Move<u16> = Move::new();
    m.add_used_to_solve(Index::new(10, SudokuSize::Three), BitSet::from_value(7u16));
    m.add_used_to_solve(Index::new(11, SudokuSize::Three), BitSet::from_value(7u16));
    assert_eq!(m.to_text(), "10,11 indexes were used to solve");
}

#[test]
fn move_text_of_an_empty_move() {
    let m: Move<u16> = Move::new();
    assert_eq!(m.to_text(), "");
}

#[test]
fn human_solve_hard_puzzle_matches_brute_force() -> Result<(), SudError> {
    let inp = "8..........36......7..9.2...5...7.......457.....1...3...1....68..85...1..9....4..";
    let puz = Sudoku::<u16>::new(inp)?;
    let (sol, moves) = puz.human_solve()?;
    assert_eq!(&sol, puz.unique_solution()?);
    assert!(moves.iter().all(|m| m.technique().is_some()));
    Ok(())
}
