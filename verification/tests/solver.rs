use rustoku::human_calcs::humansolve::solver::HumanSolver;
use rustoku::{Grid, Solution, SudError, Sudoku, SudokuSize, Technique};

fn get_solution(puz: &Sudoku<u16>) -> Grid<u16> {
    match puz.solution() {
        Solution::One(g) => g.clone(),
        _ => panic!("Does not have a unique solution"),
    }
}

#[test]
fn all_single_poss() -> Result<(), SudError> {
    // This example is solveable with only the easiest techniques
    let puz = Sudoku::new_with_size(
        vec![
            vec![5u16, 3, 4, 0, 7, 0, 0, 0, 0],
            vec![6, 0, 2, 1, 9, 5, 0, 0, 0],
            vec![0, 9, 8, 0, 0, 0, 0, 6, 0],
            vec![8, 0, 0, 0, 6, 0, 0, 0, 3],
            vec![4, 0, 0, 8, 0, 3, 0, 0, 1],
            vec![0, 1, 0, 0, 2, 0, 0, 0, 6],
            vec![0, 6, 0, 0, 0, 0, 2, 8, 0],
            vec![0, 0, 0, 4, 1, 9, 0, 0, 5],
            vec![0, 0, 0, 0, 8, 0, 0, 7, 9],
        ]
        .iter()
        .flatten()
        .cloned()
        .collect::<Vec<_>>(),
        SudokuSize::Three,
    )?;

    let human = HumanSolver::new();
    let (sol, moves) = human.solve(&puz)?;
    for amove in moves {
        // No technique harder than a single possibility is needed
        assert!(matches!(
            amove.technique().unwrap(),
            Technique::SingleCandidate | Technique::SinglePossibility | Technique::NakedDouble
        ));
    }

    let solution = get_solution(&puz);
    assert_eq!(sol.to_inner(), solution);
    Ok(())
}

#[test]
fn pointing() -> Result<(), SudError> {
    let in_str = "984........25...4...19.4..2..6.9723...36.2...2.9.3561.195768423427351896638..9751";
    let in_str2 = "34...6.7..8....93...2.3..6.....1.....9736485......2...............6.8.9....923785";

    let puz = Sudoku::<u16>::new_with_size(in_str, SudokuSize::Three)?;
    let (sol, moves) = puz.human_solve()?;
    assert_eq!(&sol, puz.unique_solution()?);
    assert!(moves.iter().all(|m| m.technique() != &Some(Technique::Guess)), "{:?}", moves);

    let puz = Sudoku::<u32>::new(in_str2)?;
    let (sol, moves) = puz.human_solve()?;
    assert_eq!(&sol, puz.unique_solution()?);
    assert!(moves.iter().all(|m| m.technique() != &Some(Technique::Guess)), "{:?}", &moves);
    Ok(())
}

#[test]
fn tuple1() -> Result<(), SudError> {
    let inp = ".49132....81479...327685914.96.518...75.28....38.46..5853267...712894563964513...";
    let puz = Sudoku::<u64>::new(inp)?;
    let (sol, moves) = puz.human_solve()?;
    assert_eq!(&sol, puz.unique_solution()?);
    assert!(moves.iter().all(|m| m.technique() != &Some(Technique::Guess)), "{:?}", moves);
    Ok(())
}

#[test]
fn hiddenquad() -> Result<(), SudError> {
    let inp = ".3.....1...8.9....4..6.8......57694....98352....124...276..519....7.9....95...47.";
    let sud = Sudoku::<u128>::new(inp)?;
    let (sol, moves) = sud.human_solve()?;
    assert!(moves.iter().all(|m| m.technique() != &Some(Technique::Guess)), "{:?}", moves);
    let puz = Sudoku::<u128>::new(inp)?;
    let _brute = puz.unique_solution()?;

    assert!(puz.compare_with_solution()?);
    assert_eq!(&sol, puz.unique_solution()?);
    Ok(())
}

#[test]
fn jelly() -> Result<(), SudError> {
    let inp = "2.41.358.....2.3411.34856..732954168..5.1.9..6198324....15.82..3..24.....263....4";
    let puz = Sudoku::<u32>::new(inp)?;
    let (sol, moves) = puz.human_solve()?;
    assert_eq!(&sol, puz.unique_solution()?);
    assert!(moves.iter().all(|m| m.technique() != &Some(Technique::Guess)), "{:?}", moves);
    Ok(())
}

#[test]
fn finned_jelly() -> Result<(), SudError> {
    let inp = "...16.87..1.875..38.73..651.5.62173...17..5.473.5..1...7........8.256917.62..7...";
    let puz = Sudoku::<u16>::new(inp)?;
    let (sol, moves) = puz.human_solve()?;
    assert_eq!(&sol, puz.unique_solution()?);
    assert!(moves.iter().all(|m| m.technique() != &Some(Technique::Guess)), "{:?}", moves);
    // a finned jellyfish is used
    assert!(moves.iter().any(|m| m.technique() == &Some(Technique::FinnedJellyfish)));
    assert!(moves.iter().all(|m| m.technique() != &Some(Technique::Guess)), "{:?}", moves);
    Ok(())
}

#[test]
fn hardest() -> Result<(), SudError> {
    let inp = "..53.....8......2..7..1.5..4....53...1..7...6..32...8..6.5....9..4....3......97..";
    let puz = Sudoku::<u16>::new(inp)?;
    let (sol, moves) = puz.human_solve()?;
    assert_eq!(&sol, puz.unique_solution()?);
    println!(
        "Number of guesses for the hardest sudoku: {}",
        moves.iter().filter(|m| m.technique() == &Some(Technique::Guess)).count()
    );
    Ok(())
}

#[test]
fn solve_up_to_stops_before_harder_techniques() -> Result<(), SudError> {
    let inp = "2.41.358.....2.3411.34856..732954168..5.1.9..6198324....15.82..3..24.....263....4";
    let mut puz = Sudoku::<u32>::new(inp)?;
    let human = HumanSolver::new();
    human.solve_up_to(&mut puz, Technique::Jellyfish);
    for m in puz.moves.iter() {
        let t = m.technique().unwrap();
        assert!(
            t != Technique::Jellyfish && t != Technique::FinnedJellyfish && t != Technique::Guess,
            "{:?}",
            t
        );
    }
    // Every value set is the value of the unique solution
    assert!(puz.compare_with_solution()?);
    Ok(())
}

#[test]
fn solve_to_stops_at_the_technique() -> Result<(), SudError> {
    let inp = "2.41.358.....2.3411.34856..732954168..5.1.9..6198324....15.82..3..24.....263....4";
    let mut puz = Sudoku::<u32>::new(inp)?;
    let human = HumanSolver::new();
    human.solve_to(&mut puz, Technique::Jellyfish);
    // Either the puzzle is solved, or the next hint is a jellyfish
    if !puz.is_solved() {
        let next = human.next(&puz).unwrap();
        assert_eq!(next.inner().technique(), &Some(Technique::Jellyfish));
    }
    assert!(puz.moves.iter().all(|m| m.technique() != &Some(Technique::Jellyfish)));
    Ok(())
}

#[test]
fn human_solve_keeps_givens() -> Result<(), SudError> {
    let inp = "984........25...4...19.4..2..6.9723...36.2...2.9.3561.195768423427351896638..9751";
    let puz = Sudoku::<u16>::new(inp)?;
    let (sol, _moves) = puz.human_solve()?;
    let givens = puz.value_iter();
    for (i, g) in givens.iter().enumerate() {
        if *g != 0 {
            assert_eq!(sol._get(i), g);
        } else {
            assert_ne!(*sol._get(i), 0);
        }
    }
    Ok(())
}

#[test]
fn solver_order_keeps_ties() {
    let solver: HumanSolver<u16> = HumanSolver::new();
    let claiming = solver.methods.iter().position(|t| *t == Technique::Claiming).unwrap();
    let hidden = solver.methods.iter().position(|t| *t == Technique::HiddenDouble).unwrap();
    assert!(claiming < hidden);
    for w in solver.methods.windows(2) {
        assert!(w[0].difficulty_tenths() <= w[1].difficulty_tenths());
    }
}
