use rustoku::human_calcs::humansolve::solver::HumanSolver;
use rustoku::{SudError, Sudoku, SudokuSize};

fn example() -> Result<Sudoku<u16>, SudError> {
    Sudoku::<u16>::new_with_size(
        "53..7....6..195....98....6.8...6...34..8.3..17...2...6.6....28....419..5....8..79",
        SudokuSize::Three,
    )
}

#[test]
fn square_text_of_an_open_cell() -> Result<(), SudError> {
    let sud = example()?;
    assert_eq!(sud._get(2).debug_text(), "Value: Bit(0), Poss: [Bit(1), Bit(2), Bit(8)]");
    Ok(())
}

#[test]
fn square_text_of_a_given() -> Result<(), SudError> {
    let sud = example()?;
    assert_eq!(sud._get(0).debug_text(), "Value: Bit(16), Poss: []");
    Ok(())
}

#[test]
fn solver_text_lists_techniques_easiest_first() {
    let solver: HumanSolver<u16> = HumanSolver::new();
    assert_eq!(
        solver.debug_text(),
        "HumanSolver:\nmethods: [SingleCandidate, NakedDouble, SinglePossibility, NakedTriple, Pointing, \
         Claiming, HiddenDouble, NakedQuad, HiddenTriple, XWing, HiddenQuad, Swordfish, FinnedXWing, \
         FinnedSwordfish, Jellyfish, FinnedJellyfish, Guess]\ncurrent: 0"
    );
}
