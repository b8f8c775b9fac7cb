use rustoku::bitset::bit::Bit;
use rustoku::brute::BruteForce;
use rustoku::{SudError, Sudoku, SudokuSize, Solution};

const SIZE: SudokuSize = SudokuSize::Three;
type TSudoku = Sudoku<u16>;

fn get_example() -> Vec<Vec<u16>> {
    vec![
        vec![5, 3, 0, 0, 7, 0, 0, 0, 0],
        vec![6, 0, 0, 1, 9, 5, 0, 0, 0],
        vec![0, 9, 8, 0, 0, 0, 0, 6, 0],
        vec![8, 0, 0, 0, 6, 0, 0, 0, 3],
        vec![4, 0, 0, 8, 0, 3, 0, 0, 1],
        vec![7, 0, 0, 0, 2, 0, 0, 0, 6],
        vec![0, 6, 0, 0, 0, 0, 2, 8, 0],
        vec![0, 0, 0, 4, 1, 9, 0, 0, 5],
        vec![0, 0, 0, 0, 8, 0, 0, 7, 9],
    ]
}

fn flat(v: &Vec<Vec<u16>>) -> Vec<u16> {
    v.iter().flatten().cloned().collect::<Vec<u16>>()
}

fn test_sud() -> TSudoku {
    TSudoku::new_with_size(flat(&get_example()), SIZE).unwrap()
}

fn assert_vector<T: PartialEq>(lhs: Vec<T>, rhs: Vec<T>) {
    assert_eq!(lhs.len(), rhs.len());
    for left in lhs {
        assert!(rhs.contains(&left));
    }
}

#[test]
fn simple_checks() -> Result<(), SudError> {
    let sud = test_sud();
    let poss1 = sud.possibilities(2usize)?;
    let expected = vec![1, 2, 4];
    assert_vector(poss1, expected);

    let poss1 = sud.possibilities(3usize)?;
    let expected = vec![2, 6];
    assert_vector(poss1, expected);
    Ok(())
}

#[test]
fn simple_brute() -> Result<(), SudError> {
    let input: Vec<u16> = vec![1, 0, 2, 0, 2, 0, 3, 0, 3, 0, 4, 0, 4, 0, 1, 0];
    let sud = TSudoku::new_with_size(input, SudokuSize::Two)?;
    let _sol = sud.solution();
    Ok(())
}

#[test]
fn move_right_test() -> Result<(), SudError> {
    let grid = test_sud().grid;
    let mut pos = BruteForce::move_right(&grid, 0);
    assert_eq!(pos, Some(2));
    pos = BruteForce::move_right(&grid, pos.unwrap());
    assert_eq!(pos, Some(3));

    let pos = BruteForce::move_right(&grid, 77);
    assert_eq!(pos, Some(78));
    let pos = BruteForce::move_right(&grid, pos.unwrap());
    assert_eq!(pos, None);
    Ok(())
}

#[test]
fn increment() -> Result<(), SudError> {
    let mut grid = test_sud().grid;
    let ind = 77;
    assert_eq!(grid.items.get(ind).unwrap().val(), None);
    let mut inced = BruteForce::inc(&mut grid, ind);
    assert!(inced);

    assert_eq!(grid.items.get(ind).unwrap().val(), Some(Bit::from_value(2u16)));
    inced = BruteForce::inc(&mut grid, ind);
    assert!(inced);

    assert_eq!(grid.items.get(ind).unwrap().val(), Some(Bit::from_value(6u16)));
    inced = BruteForce::inc(&mut grid, ind);
    assert!(!inced);
    Ok(())
}

#[test]
fn reset_test() -> Result<(), SudError> {
    let mut grid = test_sud().grid;
    let ind = 77;
    BruteForce::inc(&mut grid, ind);
    BruteForce::inc(&mut grid, ind);
    BruteForce::inc(&mut grid, ind);

    BruteForce::reset(&mut grid, ind);

    assert_eq!(grid.items.get(ind).unwrap().val(), None);
    let mut inced = BruteForce::inc(&mut grid, ind);
    assert!(inced);

    assert_eq!(grid.items.get(ind).unwrap().val(), Some(Bit::from_value(2u16)));
    inced = BruteForce::inc(&mut grid, ind);
    assert!(inced);

    assert_eq!(grid.items.get(ind).unwrap().val(), Some(Bit::from_value(6u16)));
    inced = BruteForce::inc(&mut grid, ind);
    assert!(!inced);
    Ok(())
}

#[test]
fn mini_brute() -> Result<(), SudError> {
    let mut sud = test_sud();
    let mut position = 2;
    assert!(BruteForce::inc(&mut sud.grid, position));
    assert_eq!(sud.get(position)?, 1);
    assert!(sud.was_valid_entry(position));

    position = BruteForce::move_right(&sud.grid, position).unwrap();
    assert_eq!(position, 3);

    assert!(BruteForce::inc(&mut sud.grid, position));
    assert_eq!(sud.get(position)?, 2);
    assert!(sud.was_valid_entry(position));

    position = BruteForce::move_right(&sud.grid, position).unwrap();
    assert_eq!(position, 5);

    assert!(BruteForce::inc(&mut sud.grid, position));
    assert_eq!(sud.get(position)?, 2);
    assert!(!sud.was_valid_entry(position));

    assert!(BruteForce::inc(&mut sud.grid, position));
    assert_eq!(sud.get(position)?, 4);
    assert!(sud.was_valid_entry(position));

    BruteForce::reset(&mut sud.grid, position);
    assert_eq!(sud.get(position)?, 0);
    let expected = vec![2, 4, 6, 8];
    assert_vector(sud.possibilities(position).unwrap(), expected);

    position = 3;
    assert!(BruteForce::inc(&mut sud.grid, position));
    assert_eq!(sud.get(position)?, 6);
    assert!(sud.was_valid_entry(position));

    assert!(!BruteForce::inc(&mut sud.grid, position));
    assert_eq!(sud.get(position)?, 6);
    Ok(())
}

#[test]
fn sudoku_test() -> Result<(), SudError> {
    let example = get_example();
    let expected: Vec<u16> = flat(&vec![
        vec![5, 3, 4, 6, 7, 8, 9, 1, 2],
        vec![6, 7, 2, 1, 9, 5, 3, 4, 8],
        vec![1, 9, 8, 3, 4, 2, 5, 6, 7],
        vec![8, 5, 9, 7, 6, 1, 4, 2, 3],
        vec![4, 2, 6, 8, 5, 3, 7, 9, 1],
        vec![7, 1, 3, 9, 2, 4, 8, 5, 6],
        vec![9, 6, 1, 5, 3, 7, 2, 8, 4],
        vec![2, 8, 7, 4, 1, 9, 6, 3, 5],
        vec![3, 4, 5, 2, 8, 6, 1, 7, 9],
    ]);

    let already_solved = TSudoku::new_with_size(expected.clone(), SudokuSize::Three)?;
    let solved = already_solved.solution();
    match solved.clone() {
        Solution::One(v) => assert_eq!(expected, v.items),
        _ => assert!(false, "Not a direct match:\n{:?}", solved),
    }

    let res = TSudoku::new_with_size(flat(&example), SIZE)?;
    let res = res.unique_solution()?;

    assert!(res.iter().iter().zip(expected.iter()).all(|(v, e)| *v == *e));
    Ok(())
}

#[test]
fn two_solutions() {
    let example: Vec<Vec<u16>> = vec![
        vec![2, 9, 5, 7, 4, 3, 8, 6, 1],
        vec![4, 3, 1, 8, 6, 5, 9, 0, 0],
        vec![8, 7, 6, 1, 9, 2, 5, 4, 3],
        vec![3, 8, 7, 4, 5, 9, 2, 1, 6],
        vec![6, 1, 2, 3, 8, 7, 4, 9, 5],
        vec![5, 4, 9, 2, 1, 6, 7, 3, 8],
        vec![7, 6, 3, 5, 2, 4, 1, 8, 9],
        vec![9, 2, 8, 6, 7, 1, 3, 5, 4],
        vec![1, 5, 4, 9, 3, 8, 6, 0, 0],
    ];

    let expected1: Vec<u16> = flat(&vec![
        vec![2, 9, 5, 7, 4, 3, 8, 6, 1],
        vec![4, 3, 1, 8, 6, 5, 9, 2, 7],
        vec![8, 7, 6, 1, 9, 2, 5, 4, 3],
        vec![3, 8, 7, 4, 5, 9, 2, 1, 6],
        vec![6, 1, 2, 3, 8, 7, 4, 9, 5],
        vec![5, 4, 9, 2, 1, 6, 7, 3, 8],
        vec![7, 6, 3, 5, 2, 4, 1, 8, 9],
        vec![9, 2, 8, 6, 7, 1, 3, 5, 4],
        vec![1, 5, 4, 9, 3, 8, 6, 7, 2],
    ]);

    let expected2: Vec<u16> = flat(&vec![
        vec![2, 9, 5, 7, 4, 3, 8, 6, 1],
        vec![4, 3, 1, 8, 6, 5, 9, 7, 2],
        vec![8, 7, 6, 1, 9, 2, 5, 4, 3],
        vec![3, 8, 7, 4, 5, 9, 2, 1, 6],
        vec![6, 1, 2, 3, 8, 7, 4, 9, 5],
        vec![5, 4, 9, 2, 1, 6, 7, 3, 8],
        vec![7, 6, 3, 5, 2, 4, 1, 8, 9],
        vec![9, 2, 8, 6, 7, 1, 3, 5, 4],
        vec![1, 5, 4, 9, 3, 8, 6, 2, 7],
    ]);

    if let Solution::Multi(vec) = TSudoku::new_with_size(flat(&example), SIZE).unwrap().solution() {
        assert_eq!(vec.len(), 2, "{:?}", &vec);
        if vec[0].iter().iter().zip(expected1.iter()).all(|(a, e)| *a == *e) {
            assert!(vec[1].iter().iter().zip(expected2.iter()).all(|(a, e)| *a == *e));
        } else {
            assert!(vec[0].iter().iter().zip(expected2.iter()).all(|(a, e)| *a == *e));
            assert!(vec[1].iter().iter().zip(expected1.iter()).all(|(a, e)| *a == *e));
        }
    } else {
        assert!(false, "There was only 1 solution")
    }
}

#[test]
fn oh_no_test() {
    let example: Vec<Vec<u16>> = vec![
        vec![0, 0, 0, 0, 0, 0, 0, 0, 0],
        vec![6, 7, 2, 1, 9, 5, 3, 4, 8],
        vec![1, 9, 8, 3, 4, 2, 5, 6, 7],
        vec![8, 5, 9, 7, 6, 1, 4, 2, 3],
        vec![4, 2, 6, 8, 5, 3, 7, 9, 1],
        vec![7, 1, 3, 9, 2, 4, 8, 5, 6],
        vec![9, 6, 1, 5, 3, 7, 2, 8, 4],
        vec![2, 8, 7, 4, 1, 9, 6, 3, 5],
        vec![0, 0, 0, 0, 0, 0, 0, 0, 0],
    ];

    let res = TSudoku::new_with_size(flat(&example), SIZE).unwrap();
    assert!(
        match res.solution() {
            Solution::Multi(vec) => vec.len() == 2,
            _ => false,
        },
        "{:?}",
        res.solution()
    );

    let example: Vec<Vec<u16>> = vec![
        vec![2, 0, 0, 0, 0, 0, 0, 0, 0],
        vec![0, 0, 0, 0, 0, 0, 0, 0, 0],
        vec![1, 9, 8, 3, 4, 2, 5, 6, 7],
        vec![8, 5, 9, 7, 6, 1, 4, 2, 3],
        vec![4, 2, 6, 8, 5, 3, 7, 9, 1],
        vec![7, 1, 3, 9, 2, 4, 8, 5, 6],
        vec![9, 6, 1, 5, 3, 7, 2, 8, 4],
        vec![0, 0, 0, 0, 0, 0, 0, 0, 0],
        vec![0, 0, 0, 0, 0, 0, 0, 0, 0],
    ];
    let res = TSudoku::new_with_size(flat(&example), SIZE);
    if let Err(SudError::ExcessiveSolutions(_)) = res {
    } else {
        assert!(false, "expected SudError::ExcessiveSolutions")
    }

    let example: Vec<Vec<u16>> = vec![
        vec![0, 0, 0, 0, 0, 0, 0, 0, 0],
        vec![0, 0, 0, 0, 0, 0, 0, 0, 0],
        vec![0, 9, 8, 3, 4, 2, 5, 6, 7],
        vec![8, 5, 9, 7, 6, 1, 4, 2, 3],
        vec![4, 2, 6, 8, 5, 3, 7, 9, 1],
        vec![7, 1, 3, 9, 2, 4, 8, 5, 6],
        vec![9, 6, 1, 5, 3, 7, 2, 8, 4],
        vec![0, 0, 0, 0, 0, 0, 0, 0, 0],
        vec![0, 0, 0, 0, 0, 0, 0, 0, 0],
    ];
    let res = TSudoku::new_with_size(flat(&example), SIZE);
    if let Err(SudError::ExcessiveSolutions(_)) = res {
    } else {
        assert!(false, "expected SudError::ExcessiveSolutions")
    }
}

#[test]
fn brute_solution_keeps_givens_and_fills_all() -> Result<(), SudError> {
    let sud = test_sud();
    let sol = sud.unique_solution()?;
    let givens = flat(&get_example());
    for (i, g) in givens.iter().enumerate() {
        assert!(sol.items[i] >= 1 && sol.items[i] <= 9);
        if *g != 0 {
            assert_eq!(sol.items[i], *g);
        }
    }
    Ok(())
}
