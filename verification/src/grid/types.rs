use vstd::prelude::*;
use crate::sudokusize::SudokuSize;

verus! {

/// Flat index of cell `k` of row `r`.
pub open spec fn cell_row(s: SudokuSize, r: nat, k: nat) -> nat {
    r * s.spec_house() + k
}

/// Flat index of cell `k` of column `c`.
pub open spec fn cell_col(s: SudokuSize, c: nat, k: nat) -> nat {
    k * s.spec_house() + c
}

/// Flat index of cell `i` of box `b`; cells of a box go row by row.
pub open spec fn cell_box(s: SudokuSize, b: nat, i: nat) -> nat {
    let w = s.spec_size();
    ((b / w) * w + i / w) * s.spec_house() + (b % w) * w + i % w
}

/// Row of a flat index.
pub open spec fn row_of(s: SudokuSize, flat: nat) -> nat {
    flat / s.spec_house()
}

/// Column of a flat index.
pub open spec fn col_of(s: SudokuSize, flat: nat) -> nat {
    flat % s.spec_house()
}

/// Box of a flat index.
pub open spec fn box_of(s: SudokuSize, flat: nat) -> nat {
    let w = s.spec_size();
    (row_of(s, flat) / w) * w + col_of(s, flat) / w
}

/// Offset of a flat index within its box.
pub open spec fn box_offset(s: SudokuSize, flat: nat) -> nat {
    let w = s.spec_size();
    (row_of(s, flat) % w) * w + col_of(s, flat) % w
}

/// A cell of a row: the row number and the place in the row.
#[derive(Copy, Clone, Default, Debug, PartialEq, Eq, Structural, Ord, PartialOrd, Hash)]
pub struct Row {
    pub row: usize,
    pub inner_index: usize,
    pub size: SudokuSize,
}

/// A cell of a column: the column number and the place in the column.
#[derive(Copy, Clone, Default, Debug, PartialEq, Eq, Structural, Ord, PartialOrd, Hash)]
pub struct Col {
    pub col: usize,
    pub inner_index: usize,
    pub size: SudokuSize,
}

/// A cell of a box: the box number and the place in the box.
#[derive(Copy, Clone, Default, Debug, PartialEq, Eq, Structural, Ord, PartialOrd, Hash)]
pub struct GridBox {
    pub box_num: usize,
    pub inner_index: usize,
    pub size: SudokuSize,
}

/// A cell by its place in the row dominant order of all cells.
#[derive(Copy, Clone, Default, Debug, PartialEq, Eq, Structural, Ord, PartialOrd, Hash)]
pub struct Index {
    pub inner_index: usize,
    pub size: SudokuSize,
}

/// A cell by row and column.
#[derive(Copy, Clone, Default, Debug, PartialEq, Eq, Structural, Ord, PartialOrd, Hash)]
pub struct Coord {
    pub row: usize,
    pub col: usize,
    pub size: SudokuSize,
}

impl Row {
    pub fn new(row: usize, inner_index: usize, size: SudokuSize) -> (r: Self)
        ensures
            r == (Row { row, inner_index, size }),
    {
        Self { row, inner_index, size }
    }

    pub fn size(self) -> (r: SudokuSize)
        ensures
            r == self.size,
    {
        self.size
    }
}

impl Col {
    pub fn new(col: usize, inner_index: usize, size: SudokuSize) -> (r: Self)
        ensures
            r == (Col { col, inner_index, size }),
    {
        Self { col, inner_index, size }
    }

    pub fn size(self) -> (r: SudokuSize)
        ensures
            r == self.size,
    {
        self.size
    }
}

impl GridBox {
    pub fn new(box_num: usize, inner_index: usize, size: SudokuSize) -> (r: Self)
        ensures
            r == (GridBox { box_num, inner_index, size }),
    {
        Self { box_num, inner_index, size }
    }

    pub fn size(self) -> (r: SudokuSize)
        ensures
            r == self.size,
    {
        self.size
    }
}

impl Index {
    pub fn new(inner_index: usize, size: SudokuSize) -> (r: Self)
        ensures
            r == (Index { inner_index, size }),
    {
        Index { inner_index, size }
    }

    pub fn size(self) -> (r: SudokuSize)
        ensures
            r == self.size,
    {
        self.size
    }

    pub fn to_usize(self) -> (r: usize)
        ensures
            r == self.inner_index,
    {
        self.inner_index
    }

    /// The row and column of the index.
    pub fn to_pair(self) -> (r: (usize, usize))
        ensures
            r.0 == row_of(self.size, self.inner_index as nat),
            r.1 == col_of(self.size, self.inner_index as nat),
    {
        let h = self.size.house_size();
        (self.inner_index / h, self.inner_index % h)
    }
}

impl Coord {
    pub fn new(row: usize, col: usize, size: SudokuSize) -> (r: Self)
        ensures
            r == (Coord { row, col, size }),
    {
        Coord { row, col, size }
    }

    pub fn size(self) -> (r: SudokuSize)
        ensures
            r == self.size,
    {
        self.size
    }

    /// The flat index `row * house_size + col`.
    pub fn to_usize(&self) -> (r: usize)
        requires
            self.row * self.size.spec_house() + self.col <= usize::MAX,
        ensures
            r == cell_row(self.size, self.row as nat, self.col as nat),
    {
        let h = self.size.house_size();
        proof {
            self.size.lemma_sizes();
            assert(self.row * h <= self.row * self.size.spec_house());
        }
        self.row * h + self.col
    }
}

} // verus!
