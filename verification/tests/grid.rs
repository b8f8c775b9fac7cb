use rustoku::grid::{Col, Coord, GridBox, GridCoord, HouseCoord, Index, Row};
use rustoku::{Grid, SudokuSize};

fn unique_test_vec(size: SudokuSize) -> Vec<i32> {
    let mut v = Vec::with_capacity(size.total());
    for n in 0..size.total() {
        v.push(n as i32);
    }
    assert_eq!(v.len(), size.total());
    v
}

fn row_house_test_vec(size: SudokuSize) -> Vec<i32> {
    let mut v = Vec::with_capacity(size.total());
    for n in 0..size.total() {
        v.push((n % size.house_size()) as i32);
    }
    assert_eq!(v.len(), size.total());
    v
}

fn test_grid(size: SudokuSize) -> (Grid<i32>, Grid<i32>) {
    (
        Grid { items: unique_test_vec(size), size },
        Grid { items: row_house_test_vec(size), size },
    )
}

const SIZE: SudokuSize = SudokuSize::Three;

fn ncoord(one: usize, two: usize) -> Coord {
    Coord::new(one, two, SIZE)
}

/// The values of the cells of a house, in order.
fn values<H: HouseCoord>(grid: &Grid<i32>, house: H) -> Vec<i32> {
    grid.house_iter(house).iter().map(|i| grid.items[*i]).collect()
}

#[test]
fn new_test() {
    let grid = test_grid(SudokuSize::Three).0;
    let new_grid = Grid::new(grid.items.clone(), grid.size);
    assert_eq!(grid, new_grid);

    let grid = test_grid(SudokuSize::Three).1;
    let new_grid = Grid::new(grid.items.clone(), grid.size);
    assert_eq!(grid, new_grid);
}

#[test]
fn row_iter() {
    let grid = test_grid(SudokuSize::Three).0;
    let mut iter = values(&grid, ncoord(0, 0).row()).into_iter();
    let mut not_begininning = values(&grid, ncoord(0, 5).row()).into_iter();
    let mut mid_iter = values(&grid, ncoord(7, 0).row()).into_iter();
    for expected in 0..9 {
        assert_eq!(iter.next().unwrap(), expected);
        assert_eq!(not_begininning.next().unwrap(), expected);
        assert_eq!(mid_iter.next().unwrap(), expected + 7 * SIZE.house_size() as i32);
    }
    assert!(iter.next().is_none());
    assert!(mid_iter.next().is_none());

    let mut iter = values(&grid, ncoord(8, 0).row()).into_iter();
    let mut mid_iter = values(&grid, ncoord(8, 8).row()).into_iter();
    for expected in 72..81 {
        assert_eq!(iter.next().unwrap(), expected);
        assert_eq!(mid_iter.next().unwrap(), expected);
    }
    assert!(iter.next().is_none());
    assert!(mid_iter.next().is_none());

    let grid = test_grid(SudokuSize::Eight).0;
    let mut iter = values(&grid, Coord::new(0, 0, SudokuSize::Eight).row()).into_iter();
    for expected in 0..64 {
        assert_eq!(iter.next().unwrap(), expected);
    }
    assert!(iter.next().is_none());
}

#[test]
fn col_iter() {
    let grid = test_grid(SudokuSize::Three).0;
    let mut iter = values(&grid, ncoord(0, 0).col()).into_iter();
    let mut mid_iter = values(&grid, ncoord(7, 0).col()).into_iter();
    for expected in 0..9 {
        assert_eq!(iter.next().unwrap(), expected * 9);
        assert_eq!(mid_iter.next().unwrap(), expected * 9);
    }
    assert!(iter.next().is_none());
    assert!(mid_iter.next().is_none());

    let mut iter = values(&grid, ncoord(0, 8).col()).into_iter();
    let mut mid_iter = values(&grid, ncoord(8, 8).col()).into_iter();
    for expected in 0..9 {
        assert_eq!(iter.next().unwrap(), expected * 9 + 8);
        assert_eq!(mid_iter.next().unwrap(), expected * 9 + 8);
    }
    assert!(iter.next().is_none());
    assert!(mid_iter.next().is_none());

    let grid = test_grid(SudokuSize::Eight).0;
    let mut iter = values(&grid, Coord::new(0, 0, SudokuSize::Eight).col()).into_iter();
    for expected in 0..64 {
        assert_eq!(iter.next().unwrap(), expected * 64);
    }
    assert!(iter.next().is_none());
}

#[test]
fn box_iter() {
    let grid = test_grid(SudokuSize::Three).1;
    let mut iter = values(&grid, ncoord(0, 0).to_box()).into_iter();
    let mut mid_iter = values(&grid, GridBox::new(2, 1, SIZE)).into_iter();
    for expected in 0..9 {
        let v = iter.next();
        assert_eq!(v.unwrap(), expected % 3);
        assert_eq!(mid_iter.next().unwrap(), expected % 3 + 6);
    }
    assert!(iter.next().is_none());

    let mut iter = values(&grid, ncoord(0, 4).to_box()).into_iter();
    let mut mid_iter = values(&grid, ncoord(2, 5).to_box()).into_iter();
    for expected in 0..9 {
        assert_eq!(iter.next().unwrap(), expected % 3 + 3);
        assert_eq!(mid_iter.next().unwrap(), expected % 3 + 3);
    }
    assert!(iter.next().is_none());
    assert!(mid_iter.next().is_none());

    let grid = test_grid(SudokuSize::Eight).1;
    let mut iter = values(&grid, Coord::new(0, 0, SudokuSize::Eight).to_box()).into_iter();
    for expected in 0..64 {
        assert_eq!(iter.next().unwrap(), expected % 8);
    }
    assert!(iter.next().is_none());
}

#[test]
fn single_unique_items_iter() {
    let grid = test_grid(SIZE).0;
    for i in 0..SIZE.total() {
        let val = grid.items.get(i).unwrap();
        let count = grid.single_iterator(i).iter().filter(|v| grid.items[**v] == *val).count();
        assert_eq!(count, 3);
    }
}

#[test]
fn row_house_single_iter() {
    let grid = test_grid(SIZE).1;
    for i in 0..SIZE.total() {
        let val = grid.items.get(i).unwrap();
        let count = grid.single_iterator(i).iter().filter(|v| grid.items[**v] == *val).count();
        assert_eq!(count, 13);
    }
}

#[test]
fn gridcoord_index() {
    let size = SudokuSize::Three;
    let index = Index::new(5, size);
    assert_eq!(index.index(), Index::new(5, size));
    assert_eq!(index.row(), Row::new(0, 5, size));
    assert_eq!(index.to_box(), GridBox::new(1, 2, size));
    assert_eq!(index.coord(), Coord::new(0, 5, size));
    assert_eq!(index.col(), Col::new(5, 0, size));
}

#[test]
fn tousize() {
    let size = SudokuSize::Four;
    let row = Row::new(2, 2, size);
    assert_eq!(row.index().to_usize(), 34);

    let col = Col::new(1, 2, size);
    assert_eq!(col.index().to_usize(), 33);

    let abox = GridBox::new(2, 2, size);
    assert_eq!(abox.index().to_usize(), 10);
}

#[test]
fn types_index() {
    let ind = Index::new(0, SudokuSize::Three);
    let ind1 = ind.inc();
    assert!(ind1.is_some());

    let ind = Index::new(80, SudokuSize::Three);
    let ind1 = ind.inc();
    assert!(ind1.is_none());

    let coord = ind.coord();
    assert_eq!(coord, Coord::new(8, 8, SIZE));
    assert_eq!(ind.row(), Row::new(8, 8, SIZE));
    assert_eq!(ind.col(), Col::new(8, 8, SIZE));
    assert_eq!(ind.to_box(), GridBox::new(8, 8, SIZE));
}

#[test]
fn coord() {
    let ind = Coord::new(0, 0, SudokuSize::Three);
    let ind1 = ind.inc();
    assert!(ind1.is_some());

    let ind = Coord::new(8, 8, SudokuSize::Three);
    let ind1 = ind.inc();
    assert!(ind1.is_none());

    assert_eq!(ind.index(), Index::new(80, SIZE));
    assert_eq!(ind.row(), Row::new(8, 8, SIZE));
    assert_eq!(ind.col(), Col::new(8, 8, SIZE));
    assert_eq!(ind.to_box(), GridBox::new(8, 8, SIZE));
}

#[test]
fn row() {
    let ind = Row::new(0, 0, SudokuSize::Three);
    let ind1 = ind.inc();
    assert!(ind1.is_some());

    let ind = Row::new(8, 8, SudokuSize::Three);
    let ind1 = ind.inc();
    assert!(ind1.is_none());

    assert_eq!(ind.index(), Index::new(80, SIZE));
    assert_eq!(ind.coord(), Coord::new(8, 8, SIZE));
    assert_eq!(ind.col(), Col::new(8, 8, SIZE));
    assert_eq!(ind.to_box(), GridBox::new(8, 8, SIZE));
}

#[test]
fn col() {
    let ind = Col::new(0, 0, SudokuSize::Three);
    let ind1 = ind.inc();
    assert!(ind1.is_some());

    let ind = Col::new(8, 8, SudokuSize::Three);
    let ind1 = ind.inc();
    assert!(ind1.is_none());

    assert_eq!(ind.index(), Index::new(80, SIZE));
    assert_eq!(ind.row(), Row::new(8, 8, SIZE));
    assert_eq!(ind.coord(), Coord::new(8, 8, SIZE));
    assert_eq!(ind.to_box(), GridBox::new(8, 8, SIZE));
}

#[test]
fn gridbox() {
    let ind = GridBox::new(0, 0, SudokuSize::Three);
    let ind1 = ind.inc();
    assert!(ind1.is_some());

    let ind = GridBox::new(8, 8, SudokuSize::Three);
    let ind1 = ind.inc();
    assert!(ind1.is_none());

    assert_eq!(ind.index(), Index::new(80, SIZE));
    assert_eq!(ind.row(), Row::new(8, 8, SIZE));
    assert_eq!(ind.col(), Col::new(8, 8, SIZE));
    assert_eq!(ind.coord(), Coord::new(8, 8, SIZE));
}

#[test]
fn index_flat_and_pair() {
    let ind = Index::new(40, SIZE);
    assert_eq!(ind.to_usize(), 40);
    assert_eq!(ind.to_pair(), (4, 4));
    assert_eq!(ncoord(4, 4).to_usize(), 40);
}
