use vstd::prelude::*;
use crate::errors::SudError;
use crate::sudokusize::SudokuSize;
use crate::grid::arith::{lemma_flat_bound, lemma_split, lemma_unflat, lemma_box_bound};
use crate::grid::types::{Row, Col, GridBox, Index, Coord, cell_row, cell_col, cell_box, row_of, col_of, box_of, box_offset};

verus! {

/// The cell at row `r` and column `c` of a grid: where it is and which box holds it.
pub proof fn lemma_rc(s: SudokuSize, r: nat, c: nat)
    requires
        r < s.spec_house(),
        c < s.spec_house(),
    ensures
        cell_row(s, r, c) < s.spec_total(),
        row_of(s, cell_row(s, r, c)) == r,
        col_of(s, cell_row(s, r, c)) == c,
        box_of(s, cell_row(s, r, c)) == (r / s.spec_size()) * s.spec_size() + c / s.spec_size(),
        box_offset(s, cell_row(s, r, c)) == (r % s.spec_size()) * s.spec_size() + c % s.spec_size(),
        (r / s.spec_size()) * s.spec_size() + c / s.spec_size() < s.spec_house(),
        (r % s.spec_size()) * s.spec_size() + c % s.spec_size() < s.spec_house(),
        (c % s.spec_size()) * s.spec_size() + r % s.spec_size() < s.spec_house(),
{
    s.lemma_sizes();
    let h = s.spec_house();
    let w = s.spec_size();
    lemma_flat_bound(h, r, c);
    lemma_split(h, r, c);
    lemma_unflat(w, r);
    lemma_unflat(w, c);
    lemma_flat_bound(w, r / w, c / w);
    lemma_flat_bound(w, r % w, c % w);
    lemma_flat_bound(w, c % w, r % w);
}

/// A flat index below the total splits into a row and a column.
pub proof fn lemma_flat(s: SudokuSize, i: nat)
    requires
        i < s.spec_total(),
    ensures
        row_of(s, i) < s.spec_house(),
        col_of(s, i) < s.spec_house(),
        cell_row(s, row_of(s, i), col_of(s, i)) == i,
{
    s.lemma_sizes();
    lemma_unflat(s.spec_house(), i);
}

/// The cell at offset `i` of box `b`.
pub proof fn lemma_box_cell(s: SudokuSize, b: nat, i: nat)
    requires
        b < s.spec_house(),
        i < s.spec_house(),
    ensures
        cell_box(s, b, i) == cell_row(s, (b / s.spec_size()) * s.spec_size() + i / s.spec_size(), (b % s.spec_size()) * s.spec_size() + i % s.spec_size()),
        (b / s.spec_size()) * s.spec_size() + i / s.spec_size() < s.spec_house(),
        (b % s.spec_size()) * s.spec_size() + i % s.spec_size() < s.spec_house(),
        cell_box(s, b, i) < s.spec_total(),
        box_of(s, cell_box(s, b, i)) == b,
        box_offset(s, cell_box(s, b, i)) == i,
{
    s.lemma_sizes();
    let w = s.spec_size();
    let h = s.spec_house();
    lemma_box_bound(w, h, b, i);
    let r = (b / w) * w + i / w;
    let c = (b % w) * w + i % w;
    lemma_rc(s, r, c);
    lemma_split(w, b / w, i / w);
    lemma_split(w, b % w, i % w);
    lemma_unflat(w, b);
    lemma_unflat(w, i);
}

/// A place on the grid.
pub trait GridCoord: Copy + Sized {
    spec fn spec_size(self) -> SudokuSize;

    /// Every part of the coordinate lies inside the grid.
    spec fn spec_ok(self) -> bool;

    /// The flat index of the cell.
    spec fn spec_flat(self) -> nat;

    /// The offset within the box that `to_box` gives.
    spec fn spec_box_inner(self) -> nat;

    /// The next coordinate that `inc` gives.
    spec fn spec_inc(self) -> Option<Self>;

    /// The coordinate that `beginning` gives.
    spec fn spec_beginning(self) -> Self;

    proof fn lemma_ok(self)
        requires
            self.spec_ok(),
        ensures
            self.spec_flat() < self.spec_size().spec_total(),
            self.spec_box_inner() < self.spec_size().spec_house(),
            self.spec_inc() matches Some(n) ==> n.spec_ok() && n.spec_size() == self.spec_size(),
    ;

    /// The cell as a flat index.
    fn index(self) -> (r: Index)
        requires
            self.spec_ok(),
        ensures
            r.size == self.spec_size(),
            r.inner_index == self.spec_flat(),
            r.inner_index < self.spec_size().spec_total(),
    ;

    /// The cell as row and column.
    fn coord(self) -> (r: Coord)
        requires
            self.spec_ok(),
        ensures
            r.size == self.spec_size(),
            r.row == row_of(self.spec_size(), self.spec_flat()),
            r.col == col_of(self.spec_size(), self.spec_flat()),
            r.row < self.spec_size().spec_house(),
            r.col < self.spec_size().spec_house(),
    ;

    /// The cell as a place in its row.
    fn row(self) -> (r: Row)
        requires
            self.spec_ok(),
        ensures
            r.size == self.spec_size(),
            r.row == row_of(self.spec_size(), self.spec_flat()),
            r.inner_index == col_of(self.spec_size(), self.spec_flat()),
            r.row < self.spec_size().spec_house(),
            r.inner_index < self.spec_size().spec_house(),
    ;

    /// The cell as a place in its column.
    fn col(self) -> (r: Col)
        requires
            self.spec_ok(),
        ensures
            r.size == self.spec_size(),
            r.col == col_of(self.spec_size(), self.spec_flat()),
            r.inner_index == row_of(self.spec_size(), self.spec_flat()),
            r.col < self.spec_size().spec_house(),
            r.inner_index < self.spec_size().spec_house(),
    ;

    /// The box holding the cell.
    fn to_box(self) -> (r: GridBox)
        requires
            self.spec_ok(),
        ensures
            r.size == self.spec_size(),
            r.box_num == box_of(self.spec_size(), self.spec_flat()),
            r.inner_index == self.spec_box_inner(),
            r.box_num < self.spec_size().spec_house(),
            r.inner_index < self.spec_size().spec_house(),
    ;

    /// The next place of the same kind.
    fn inc(self) -> (r: Option<Self>)
        requires
            self.spec_ok(),
        ensures
            r == self.spec_inc(),
    ;

    /// The first place of the same kind.
    fn beginning(self) -> (r: Self)
        ensures
            r == self.spec_beginning(),
    ;

    /// Whether two coordinates name the same cell.
    fn equal(&self, other: &Self) -> (r: bool)
        requires
            self.spec_ok(),
            other.spec_ok(),
        ensures
            r == (self.spec_size() == other.spec_size() && row_of(self.spec_size(), self.spec_flat()) == row_of(other.spec_size(), other.spec_flat())
                && col_of(self.spec_size(), self.spec_flat()) == col_of(other.spec_size(), other.spec_flat())),
    {
        let a = self.coord();
        let b = other.coord();
        a == b
    }
}

/// A place in a row, column or box.
pub trait HouseCoord: GridCoord {
    /// The number of the row, column or box.
    spec fn spec_number(self) -> nat;

    /// The place within the row, column or box.
    spec fn spec_place(self) -> nat;

    /// The flat index of place `k` of house `number`.
    spec fn spec_cell(size: SudokuSize, number: nat, k: nat) -> nat;

    proof fn lemma_house(self)
        ensures
            self.spec_flat() == Self::spec_cell(self.spec_size(), self.spec_number(), self.spec_place()),
            self.spec_ok() == (self.spec_number() < self.spec_size().spec_house() && self.spec_place() < self.spec_size().spec_house()),
            self.spec_place() + 1 < self.spec_size().spec_house() ==> (self.spec_inc() matches Some(n)
                && n.spec_number() == self.spec_number() && n.spec_place() == self.spec_place() + 1
                && n.spec_size() == self.spec_size()),
            self.spec_place() + 1 >= self.spec_size().spec_house() ==> self.spec_inc() is None,
            self.spec_beginning().spec_number() == self.spec_number(),
            self.spec_beginning().spec_place() == 0,
            self.spec_beginning().spec_size() == self.spec_size(),
    ;

    /// The first place of house `number`.
    fn start(number: usize, size: SudokuSize) -> (r: Self)
        ensures
            r.spec_number() == number,
            r.spec_place() == 0,
            r.spec_size() == size,
    ;

    /// The first place of the same house.
    fn restart(&self) -> (r: Self)
        ensures
            r.spec_number() == self.spec_number(),
            r.spec_place() == 0,
            r.spec_size() == self.spec_size(),
    ;

    /// The flat index of the cell.
    fn to_usize(&self) -> (r: usize)
        requires
            self.spec_ok(),
        ensures
            r == self.spec_flat(),
    {
        self.index().inner_index
    }
}

impl GridCoord for Index {
    open spec fn spec_size(self) -> SudokuSize {
        self.size
    }

    open spec fn spec_ok(self) -> bool {
        self.inner_index < self.size.spec_total()
    }

    open spec fn spec_flat(self) -> nat {
        self.inner_index as nat
    }

    open spec fn spec_box_inner(self) -> nat {
        box_offset(self.size, self.inner_index as nat)
    }

    open spec fn spec_inc(self) -> Option<Self> {
        if self.inner_index + 1 >= self.size.spec_house() {
            None
        } else {
            Some(Index { inner_index: (self.inner_index + 1) as usize, size: self.size })
        }
    }

    open spec fn spec_beginning(self) -> Self {
        Index { inner_index: 0, size: self.size }
    }

    proof fn lemma_ok(self) {
        let i = self.inner_index as nat;
        let w = self.size.spec_size();
        lemma_flat(self.size, i);
        let r = row_of(self.size, i);
        let c = col_of(self.size, i);
        lemma_rc(self.size, r, c);
        self.size.lemma_sizes();
        assert(box_offset(self.size, i) == (r % w) * w + c % w);
        assert((r % w) * w + c % w < self.size.spec_house());
        assert(self.spec_box_inner() < self.size.spec_house());
        if self.inner_index + 1 < self.size.spec_house() {
            let n = Index { inner_index: (self.inner_index + 1) as usize, size: self.size };
            assert(n.spec_ok());
            assert(self.spec_inc() == Some(n));
        }
    }

    fn index(self) -> (r: Index) {
        proof { self.lemma_ok(); lemma_flat(self.size, self.spec_flat()); lemma_rc(self.size, row_of(self.size, self.spec_flat()), col_of(self.size, self.spec_flat())); }
        Index::new(self.inner_index, self.size())
    }

    fn coord(self) -> (r: Coord) {
        proof { self.lemma_ok(); lemma_flat(self.size, self.spec_flat()); lemma_rc(self.size, row_of(self.size, self.spec_flat()), col_of(self.size, self.spec_flat())); }
        let size = self.size();
        let h = size.house_size();
        Coord::new(self.inner_index / h, self.inner_index % h, size)
    }

    fn row(self) -> (r: Row) {
        proof { self.lemma_ok(); lemma_flat(self.size, self.spec_flat()); lemma_rc(self.size, row_of(self.size, self.spec_flat()), col_of(self.size, self.spec_flat())); }
        let size = self.size();
        let h = size.house_size();
        Row::new(self.inner_index / h, self.inner_index % h, size)
    }

    fn col(self) -> (r: Col) {
        proof { self.lemma_ok(); lemma_flat(self.size, self.spec_flat()); lemma_rc(self.size, row_of(self.size, self.spec_flat()), col_of(self.size, self.spec_flat())); }
        let size = self.size();
        let h = size.house_size();
        Col::new(self.inner_index % h, self.inner_index / h, size)
    }

    fn to_box(self) -> (r: GridBox) {
        proof { self.lemma_ok(); lemma_flat(self.size, self.spec_flat()); lemma_rc(self.size, row_of(self.size, self.spec_flat()), col_of(self.size, self.spec_flat())); }
        let size = self.size();
        let coord = self.coord();
        let width = size.size();
        proof {
            size.lemma_sizes();
            lemma_box_bound(width as nat, size.spec_house(), coord.row as nat, coord.col as nat);
        }
        let box_num = (coord.row / width) * width + (coord.col / width);
        let offset = (coord.row % width) * width + coord.col % width;
        GridBox::new(box_num, offset, size)
    }

    fn inc(self) -> (r: Option<Self>) {
        proof { self.size.lemma_sizes(); }
        let h = self.size.house_size();
        if self.inner_index + 1 >= h {
            None
        } else {
            Some(Index::new(self.inner_index + 1, self.size()))
        }
    }

    fn beginning(self) -> (r: Self) {
        Index::new(0, self.size())
    }
}

impl GridCoord for Coord {
    open spec fn spec_size(self) -> SudokuSize {
        self.size
    }

    open spec fn spec_ok(self) -> bool {
        self.row < self.size.spec_house() && self.col < self.size.spec_house()
    }

    open spec fn spec_flat(self) -> nat {
        cell_row(self.size, self.row as nat, self.col as nat)
    }

    open spec fn spec_box_inner(self) -> nat {
        ((self.col as nat) % self.size.spec_size()) * self.size.spec_size() + (self.row as nat) % self.size.spec_size()
    }

    open spec fn spec_inc(self) -> Option<Self> {
        if (self.col + 1) % (self.size.spec_house() as int) == 0 {
            if self.row + 1 >= self.size.spec_house() {
                None
            } else {
                Some(Coord { row: (self.row + 1) as usize, col: 0, size: self.size })
            }
        } else {
            Some(Coord { row: self.row, col: (self.col + 1) as usize, size: self.size })
        }
    }

    open spec fn spec_beginning(self) -> Self {
        Coord { row: 0, col: 0, size: self.size }
    }

    proof fn lemma_ok(self) {
        lemma_rc(self.size, self.row as nat, self.col as nat);
        self.size.lemma_sizes();
        let w = self.size.spec_size();
        assert(((self.col as nat) % w) * w + (self.row as nat) % w < self.size.spec_house());
        assert(self.spec_box_inner() == ((self.col as nat) % w) * w + (self.row as nat) % w);
        vstd::arithmetic::div_mod::lemma_mod_self_0(self.size.spec_house() as int);
        if self.col + 1 < self.size.spec_house() {
            vstd::arithmetic::div_mod::lemma_small_mod((self.col + 1) as nat, self.size.spec_house());
        }
        if (self.col + 1) % (self.size.spec_house() as int) != 0 {
            assert(self.col + 1 < self.size.spec_house());
            assert(self.spec_inc() == Some(Coord { row: self.row, col: (self.col + 1) as usize, size: self.size }));
        } else {
            if self.row + 1 < self.size.spec_house() {
                assert(self.spec_inc() == Some(Coord { row: (self.row + 1) as usize, col: 0, size: self.size }));
            }
        }
    }

    fn index(self) -> (r: Index) {
        proof { self.lemma_ok(); lemma_flat(self.size, self.spec_flat()); lemma_rc(self.size, row_of(self.size, self.spec_flat()), col_of(self.size, self.spec_flat())); }
        proof { lemma_rc(self.size, self.row as nat, self.col as nat); }
        let max = self.size().house_size();
        proof { lemma_flat_bound(max as nat, self.row as nat, self.col as nat); self.size.lemma_sizes(); }
        Index::new(self.row * max + self.col, self.size())
    }

    fn coord(self) -> (r: Coord) {
        proof { self.lemma_ok(); lemma_flat(self.size, self.spec_flat()); lemma_rc(self.size, row_of(self.size, self.spec_flat()), col_of(self.size, self.spec_flat())); }
        proof { lemma_rc(self.size, self.row as nat, self.col as nat); }
        self
    }

    fn row(self) -> (r: Row) {
        proof { self.lemma_ok(); lemma_flat(self.size, self.spec_flat()); lemma_rc(self.size, row_of(self.size, self.spec_flat()), col_of(self.size, self.spec_flat())); }
        proof { lemma_rc(self.size, self.row as nat, self.col as nat); }
        Row::new(self.row, self.col, self.size())
    }

    fn col(self) -> (r: Col) {
        proof { self.lemma_ok(); lemma_flat(self.size, self.spec_flat()); lemma_rc(self.size, row_of(self.size, self.spec_flat()), col_of(self.size, self.spec_flat())); }
        proof { lemma_rc(self.size, self.row as nat, self.col as nat); }
        Col::new(self.col, self.row, self.size())
    }

    fn to_box(self) -> (r: GridBox) {
        proof { self.lemma_ok(); lemma_flat(self.size, self.spec_flat()); lemma_rc(self.size, row_of(self.size, self.spec_flat()), col_of(self.size, self.spec_flat())); }
        proof { lemma_rc(self.size, self.row as nat, self.col as nat); }
        let size = self.size();
        let width = size.size();
        proof {
            self.size.lemma_sizes();
            lemma_box_bound(width as nat, self.size.spec_house(), self.row as nat, self.col as nat);
        }
        let box_num = (self.row / width) * width + (self.col / width);
        let offset = (self.col % width) * width + self.row % width;
        GridBox::new(box_num, offset, size)
    }

    fn inc(self) -> (r: Option<Self>) {
        let size = self.size();
        let h = size.house_size();
        let carry = (self.col + 1) % h == 0;
        if carry {
            if (self.row + 1) >= h {
                None
            } else {
                Some(Coord::new(self.row + 1, 0, size))
            }
        } else {
            Some(Coord::new(self.row, self.col + 1, size))
        }
    }

    fn beginning(self) -> (r: Self) {
        Coord::new(0, 0, self.size())
    }
}

impl GridCoord for GridBox {
    open spec fn spec_size(self) -> SudokuSize {
        self.size
    }

    open spec fn spec_ok(self) -> bool {
        self.box_num < self.size.spec_house() && self.inner_index < self.size.spec_house()
    }

    open spec fn spec_flat(self) -> nat {
        cell_box(self.size, self.box_num as nat, self.inner_index as nat)
    }

    open spec fn spec_box_inner(self) -> nat {
        self.inner_index as nat
    }

    open spec fn spec_inc(self) -> Option<Self> {
        if self.inner_index + 1 >= self.size.spec_house() {
            None
        } else {
            Some(GridBox { box_num: self.box_num, inner_index: (self.inner_index + 1) as usize, size: self.size })
        }
    }

    open spec fn spec_beginning(self) -> Self {
        GridBox { box_num: self.box_num, inner_index: 0, size: self.size }
    }

    proof fn lemma_ok(self) {
        lemma_box_cell(self.size, self.box_num as nat, self.inner_index as nat);
        self.size.lemma_sizes();
        assert(self.spec_size() == self.size);
        assert(self.spec_box_inner() == self.inner_index);
        assert(self.inner_index < self.size.spec_house());
        if self.inner_index + 1 < self.size.spec_house() {
            let n = GridBox { box_num: self.box_num, inner_index: (self.inner_index + 1) as usize, size: self.size };
            assert(n.spec_ok());
            assert(self.spec_inc() == Some(n));
        }
    }

    fn index(self) -> (r: Index) {
        proof { self.lemma_ok(); lemma_flat(self.size, self.spec_flat()); lemma_rc(self.size, row_of(self.size, self.spec_flat()), col_of(self.size, self.spec_flat())); }
        self.coord().index()
    }

    fn coord(self) -> (r: Coord) {
        proof { self.lemma_ok(); lemma_flat(self.size, self.spec_flat()); lemma_rc(self.size, row_of(self.size, self.spec_flat()), col_of(self.size, self.spec_flat())); }
        proof { lemma_box_cell(self.size, self.box_num as nat, self.inner_index as nat); }
        let size = self.size();
        let width = size.size();
        proof { self.size.lemma_sizes(); lemma_box_bound(width as nat, self.size.spec_house(), self.box_num as nat, self.inner_index as nat); }
        let row = (self.box_num / width) * width + self.inner_index / width;
        let col = (self.box_num % width) * width + self.inner_index % width;
        proof {
            lemma_rc(size, row as nat, col as nat);
        }
        Coord::new(row, col, size)
    }

    fn row(self) -> (r: Row) {
        proof { self.lemma_ok(); lemma_flat(self.size, self.spec_flat()); lemma_rc(self.size, row_of(self.size, self.spec_flat()), col_of(self.size, self.spec_flat())); }
        let c = self.coord();
        proof { lemma_box_cell(self.size, self.box_num as nat, self.inner_index as nat); lemma_rc(self.size, c.row as nat, c.col as nat); }
        c.row()
    }

    fn col(self) -> (r: Col) {
        proof { self.lemma_ok(); lemma_flat(self.size, self.spec_flat()); lemma_rc(self.size, row_of(self.size, self.spec_flat()), col_of(self.size, self.spec_flat())); }
        let c = self.coord();
        proof { lemma_box_cell(self.size, self.box_num as nat, self.inner_index as nat); lemma_rc(self.size, c.row as nat, c.col as nat); }
        c.col()
    }

    fn to_box(self) -> (r: GridBox) {
        proof { self.lemma_ok(); lemma_flat(self.size, self.spec_flat()); lemma_rc(self.size, row_of(self.size, self.spec_flat()), col_of(self.size, self.spec_flat())); }
        proof { lemma_box_cell(self.size, self.box_num as nat, self.inner_index as nat); }
        self
    }

    fn inc(self) -> (r: Option<Self>) {
        let h = self.size.house_size();
        if self.inner_index + 1 >= h {
            None
        } else {
            Some(GridBox::new(self.box_num, self.inner_index + 1, self.size()))
        }
    }

    fn beginning(self) -> (r: Self) {
        GridBox::new(self.box_num, 0, self.size())
    }
}

impl GridCoord for Row {
    open spec fn spec_size(self) -> SudokuSize {
        self.size
    }

    open spec fn spec_ok(self) -> bool {
        self.row < self.size.spec_house() && self.inner_index < self.size.spec_house()
    }

    open spec fn spec_flat(self) -> nat {
        cell_row(self.size, self.row as nat, self.inner_index as nat)
    }

    open spec fn spec_box_inner(self) -> nat {
        ((self.inner_index as nat) % self.size.spec_size()) * self.size.spec_size() + (self.row as nat) % self.size.spec_size()
    }

    open spec fn spec_inc(self) -> Option<Self> {
        if self.inner_index + 1 >= self.size.spec_house() {
            None
        } else {
            Some(Row { row: self.row, inner_index: (self.inner_index + 1) as usize, size: self.size })
        }
    }

    open spec fn spec_beginning(self) -> Self {
        Row { row: self.row, inner_index: 0, size: self.size }
    }

    proof fn lemma_ok(self) {
        lemma_rc(self.size, self.row as nat, self.inner_index as nat);
        self.size.lemma_sizes();
        let w = self.size.spec_size();
        assert(((self.inner_index as nat) % w) * w + (self.row as nat) % w < self.size.spec_house());
        assert(self.spec_box_inner() < self.size.spec_house());
        if self.inner_index + 1 < self.size.spec_house() {
            let n = Row { row: self.row, inner_index: (self.inner_index + 1) as usize, size: self.size };
            assert(n.spec_ok());
            assert(self.spec_inc() == Some(n));
        }
    }

    fn index(self) -> (r: Index) {
        proof { self.lemma_ok(); lemma_flat(self.size, self.spec_flat()); lemma_rc(self.size, row_of(self.size, self.spec_flat()), col_of(self.size, self.spec_flat())); }
        self.coord().index()
    }

    fn coord(self) -> (r: Coord) {
        proof { self.lemma_ok(); lemma_flat(self.size, self.spec_flat()); lemma_rc(self.size, row_of(self.size, self.spec_flat()), col_of(self.size, self.spec_flat())); }
        proof { lemma_rc(self.size, self.row as nat, self.inner_index as nat); }
        Coord::new(self.row, self.inner_index, self.size())
    }

    fn row(self) -> (r: Row) {
        proof { self.lemma_ok(); lemma_flat(self.size, self.spec_flat()); lemma_rc(self.size, row_of(self.size, self.spec_flat()), col_of(self.size, self.spec_flat())); }
        proof { lemma_rc(self.size, self.row as nat, self.inner_index as nat); }
        self
    }

    fn col(self) -> (r: Col) {
        proof { self.lemma_ok(); lemma_flat(self.size, self.spec_flat()); lemma_rc(self.size, row_of(self.size, self.spec_flat()), col_of(self.size, self.spec_flat())); }
        proof { lemma_rc(self.size, self.row as nat, self.inner_index as nat); }
        Col::new(self.inner_index, self.row, self.size())
    }

    fn to_box(self) -> (r: GridBox) {
        proof { self.lemma_ok(); lemma_rc(self.size, self.row as nat, self.inner_index as nat); }
        self.coord().to_box()
    }

    fn inc(self) -> (r: Option<Self>) {
        let h = self.size.house_size();
        if self.inner_index + 1 >= h {
            None
        } else {
            Some(Row::new(self.row, self.inner_index + 1, self.size()))
        }
    }

    fn beginning(self) -> (r: Self) {
        Row::new(self.row, 0, self.size())
    }
}

impl GridCoord for Col {
    open spec fn spec_size(self) -> SudokuSize {
        self.size
    }

    open spec fn spec_ok(self) -> bool {
        self.col < self.size.spec_house() && self.inner_index < self.size.spec_house()
    }

    open spec fn spec_flat(self) -> nat {
        cell_col(self.size, self.col as nat, self.inner_index as nat)
    }

    open spec fn spec_box_inner(self) -> nat {
        ((self.col as nat) % self.size.spec_size()) * self.size.spec_size() + (self.inner_index as nat) % self.size.spec_size()
    }

    open spec fn spec_inc(self) -> Option<Self> {
        if self.inner_index + 1 >= self.size.spec_house() {
            None
        } else {
            Some(Col { col: self.col, inner_index: (self.inner_index + 1) as usize, size: self.size })
        }
    }

    open spec fn spec_beginning(self) -> Self {
        Col { col: self.col, inner_index: 0, size: self.size }
    }

    proof fn lemma_ok(self) {
        lemma_rc(self.size, self.inner_index as nat, self.col as nat);
        self.size.lemma_sizes();
        let w = self.size.spec_size();
        assert(((self.col as nat) % w) * w + (self.inner_index as nat) % w < self.size.spec_house());
        assert(self.spec_box_inner() < self.size.spec_house());
        if self.inner_index + 1 < self.size.spec_house() {
            let n = Col { col: self.col, inner_index: (self.inner_index + 1) as usize, size: self.size };
            assert(n.spec_ok());
            assert(self.spec_inc() == Some(n));
        }
    }

    fn index(self) -> (r: Index) {
        proof { self.lemma_ok(); lemma_flat(self.size, self.spec_flat()); lemma_rc(self.size, row_of(self.size, self.spec_flat()), col_of(self.size, self.spec_flat())); }
        self.coord().index()
    }

    fn coord(self) -> (r: Coord) {
        proof { self.lemma_ok(); lemma_flat(self.size, self.spec_flat()); lemma_rc(self.size, row_of(self.size, self.spec_flat()), col_of(self.size, self.spec_flat())); }
        proof { lemma_rc(self.size, self.inner_index as nat, self.col as nat); }
        Coord::new(self.inner_index, self.col, self.size())
    }

    fn row(self) -> (r: Row) {
        proof { self.lemma_ok(); lemma_flat(self.size, self.spec_flat()); lemma_rc(self.size, row_of(self.size, self.spec_flat()), col_of(self.size, self.spec_flat())); }
        proof { lemma_rc(self.size, self.inner_index as nat, self.col as nat); }
        Row::new(self.inner_index, self.col, self.size())
    }

    fn col(self) -> (r: Col) {
        proof { self.lemma_ok(); lemma_flat(self.size, self.spec_flat()); lemma_rc(self.size, row_of(self.size, self.spec_flat()), col_of(self.size, self.spec_flat())); }
        proof { lemma_rc(self.size, self.inner_index as nat, self.col as nat); }
        self
    }

    fn to_box(self) -> (r: GridBox) {
        proof { self.lemma_ok(); lemma_rc(self.size, self.inner_index as nat, self.col as nat); }
        self.coord().to_box()
    }

    fn inc(self) -> (r: Option<Self>) {
        let h = self.size.house_size();
        if self.inner_index + 1 >= h {
            None
        } else {
            Some(Col::new(self.col, self.inner_index + 1, self.size()))
        }
    }

    fn beginning(self) -> (r: Self) {
        Col::new(self.col, 0, self.size())
    }
}

impl HouseCoord for Row {
    open spec fn spec_number(self) -> nat {
        self.row as nat
    }

    open spec fn spec_place(self) -> nat {
        self.inner_index as nat
    }

    open spec fn spec_cell(size: SudokuSize, number: nat, k: nat) -> nat {
        cell_row(size, number, k)
    }

    proof fn lemma_house(self) {
        self.size.lemma_sizes();
    }

    fn start(number: usize, size: SudokuSize) -> (r: Self) {
        Row::new(number, 0, size)
    }

    fn restart(&self) -> (r: Self) {
        Row::new(self.row, 0, self.size)
    }
}

impl HouseCoord for Col {
    open spec fn spec_number(self) -> nat {
        self.col as nat
    }

    open spec fn spec_place(self) -> nat {
        self.inner_index as nat
    }

    open spec fn spec_cell(size: SudokuSize, number: nat, k: nat) -> nat {
        cell_col(size, number, k)
    }

    proof fn lemma_house(self) {
        self.size.lemma_sizes();
    }

    fn start(number: usize, size: SudokuSize) -> (r: Self) {
        Col::new(number, 0, size)
    }

    fn restart(&self) -> (r: Self) {
        Col::new(self.col, 0, self.size)
    }
}

impl HouseCoord for GridBox {
    open spec fn spec_number(self) -> nat {
        self.box_num as nat
    }

    open spec fn spec_place(self) -> nat {
        self.inner_index as nat
    }

    open spec fn spec_cell(size: SudokuSize, number: nat, k: nat) -> nat {
        cell_box(size, number, k)
    }

    proof fn lemma_house(self) {
        self.size.lemma_sizes();
    }

    fn start(number: usize, size: SudokuSize) -> (r: Self) {
        GridBox::new(number, 0, size)
    }

    fn restart(&self) -> (r: Self) {
        GridBox::new(self.box_num, 0, self.size)
    }
}

/// A place given by the user: a flat index, a `(row, col)` pair or an `Index`.
pub trait InputCoord: Sized {
    /// The flat index the input names in a grid of `size`.
    spec fn spec_target(self, size: SudokuSize) -> nat;

    /// Computing the flat index does not overflow.
    spec fn spec_computable(self, size: SudokuSize) -> bool;

    /// The error for a place outside the grid.
    spec fn spec_location_error(self) -> SudError;

    /// The flat index, or an error when it lies outside the grid.
    fn to_usize(self, size: &SudokuSize) -> (r: Result<usize, SudError>)
        requires
            self.spec_computable(*size),
        ensures
            self.spec_target(*size) < size.spec_total() ==> r == Ok::<usize, SudError>(self.spec_target(*size) as usize),
            self.spec_target(*size) >= size.spec_total() ==> r == Err::<usize, SudError>(self.spec_location_error()),
    ;
}

impl InputCoord for usize {
    open spec fn spec_target(self, size: SudokuSize) -> nat {
        self as nat
    }

    open spec fn spec_computable(self, size: SudokuSize) -> bool {
        true
    }

    open spec fn spec_location_error(self) -> SudError {
        SudError::InvalidLocation((self, 0))
    }

    fn to_usize(self, size: &SudokuSize) -> (r: Result<usize, SudError>) {
        if self < size.total() {
            Ok(self)
        } else {
            Err(SudError::InvalidLocation((self, 0)))
        }
    }
}

impl InputCoord for (usize, usize) {
    /// The cell at the row and column, or the cell count when either lies outside the grid.
    open spec fn spec_target(self, size: SudokuSize) -> nat {
        if self.0 < size.spec_house() && self.1 < size.spec_house() {
            cell_row(size, self.0 as nat, self.1 as nat)
        } else {
            size.spec_total()
        }
    }

    open spec fn spec_computable(self, size: SudokuSize) -> bool {
        true
    }

    open spec fn spec_location_error(self) -> SudError {
        SudError::InvalidLocation(self)
    }

    fn to_usize(self, size: &SudokuSize) -> (r: Result<usize, SudError>) {
        let h = size.house_size();
        if self.0 < h && self.1 < h {
            proof {
                lemma_rc(*size, self.0 as nat, self.1 as nat);
                size.lemma_sizes();
            }
            let c = Coord::new(self.0, self.1, *size);
            proof {
                assert(c.row * c.size.spec_house() + c.col == cell_row(*size, self.0 as nat, self.1 as nat));
            }
            Ok(c.to_usize())
        } else {
            proof { size.lemma_sizes(); }
            Err(SudError::InvalidLocation(self))
        }
    }
}

impl InputCoord for Index {
    open spec fn spec_target(self, size: SudokuSize) -> nat {
        self.inner_index as nat
    }

    open spec fn spec_computable(self, size: SudokuSize) -> bool {
        true
    }

    open spec fn spec_location_error(self) -> SudError {
        SudError::InvalidLocation((self.inner_index, 0))
    }

    fn to_usize(self, size: &SudokuSize) -> (r: Result<usize, SudError>) {
        if self.inner_index < size.total() {
            Ok(self.inner_index)
        } else {
            Err(SudError::InvalidLocation((self.inner_index, 0)))
        }
    }
}

} // verus!
