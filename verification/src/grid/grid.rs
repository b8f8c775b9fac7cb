use vstd::prelude::*;
use crate::bitset::traits::BitSetInt;
use crate::bitset::bit::Bit;
use crate::errors::SudError;
use crate::grid::gridcoord::{GridCoord, HouseCoord, InputCoord, lemma_flat, lemma_rc, lemma_box_cell};
use crate::grid::house::House;
use crate::grid::types::{Row, Col, GridBox, cell_row, cell_col, cell_box, row_of, col_of, box_of};
use crate::square::square::Square;
use crate::sudokusize::SudokuSize;

verus! {

/// The flat indices of the cells of a house, in order.
pub open spec fn house_cells(size: SudokuSize, house: House<nat>) -> Seq<nat> {
    Seq::new(size.spec_house(), |k: int| match house {
        House::Row(n) => cell_row(size, n, k as nat),
        House::Col(n) => cell_col(size, n, k as nat),
        House::Box(n) => cell_box(size, n, k as nat),
    })
}

/// The cells of the row, then the column, then the box of cell `index`.
pub open spec fn single_cells(size: SudokuSize, index: nat) -> Seq<nat> {
    house_cells(size, House::Row(row_of(size, index)))
        + house_cells(size, House::Col(col_of(size, index)))
        + house_cells(size, House::Box(box_of(size, index)))
}

/// How many of the cells `idxs` hold the value `v`.
pub open spec fn count_value<V: BitSetInt>(items: Seq<Square<V>>, idxs: Seq<nat>, v: Option<Bit<V>>) -> nat
    decreases idxs.len(),
{
    if idxs.len() == 0 {
        0
    } else {
        count_value(items, idxs.drop_last(), v) + if items[idxs.last() as int].value == v { 1nat } else { 0nat }
    }
}

/// The cells of the puzzle, row after row.
#[derive(Debug, Clone, PartialEq)]
pub struct Grid<S> {
    pub items: Vec<S>,
    pub size: SudokuSize,
}

/// A house of a number below the house size lies inside the grid.
pub proof fn lemma_house_cells(size: SudokuSize, house: House<nat>, k: int)
    requires
        0 <= k < size.spec_house(),
        match house {
            House::Row(n) => n < size.spec_house(),
            House::Col(n) => n < size.spec_house(),
            House::Box(n) => n < size.spec_house(),
        },
    ensures
        house_cells(size, house)[k] < size.spec_total(),
{
    match house {
        House::Row(n) => { lemma_rc(size, n, k as nat); },
        House::Col(n) => { lemma_rc(size, k as nat, n); },
        House::Box(n) => { lemma_box_cell(size, n, k as nat); },
    }
}

/// The cells of the row, column and box of a cell lie inside the grid.
pub proof fn lemma_single_cells(size: SudokuSize, index: nat)
    requires
        index < size.spec_total(),
    ensures
        single_cells(size, index).len() == 3 * size.spec_house(),
        forall|k: int| 0 <= k < single_cells(size, index).len() ==> #[trigger] single_cells(size, index)[k] < size.spec_total(),
{
    lemma_flat(size, index);
    lemma_rc(size, row_of(size, index), col_of(size, index));
    let h = size.spec_house() as int;
    let sc = single_cells(size, index);
    assert forall|k: int| 0 <= k < sc.len() implies #[trigger] sc[k] < size.spec_total() by {
        if k < h {
            lemma_house_cells(size, House::Row(row_of(size, index)), k);
        } else if k < 2 * h {
            lemma_house_cells(size, House::Col(col_of(size, index)), k - h);
        } else {
            lemma_house_cells(size, House::Box(box_of(size, index)), k - 2 * h);
        }
    }
}

impl<S> Grid<S> {
    pub open spec fn wf(&self) -> bool {
        self.items.len() == self.size.spec_total()
    }

    pub fn new(items: Vec<S>, size: SudokuSize) -> (r: Grid<S>)
        ensures
            r.items == items,
            r.size == size,
    {
        Grid { items, size }
    }

    pub fn box_size(&self) -> (r: usize)
        ensures
            r == self.size.spec_size(),
    {
        self.size.size()
    }

    pub fn house_size(&self) -> (r: usize)
        ensures
            r == self.size.spec_house(),
    {
        self.size.house_size()
    }

    pub fn num_cells(&self) -> (r: usize)
        ensures
            r == self.size.spec_total(),
    {
        self.size.total()
    }

    /// The cell at a place given by the user, or an error for a place outside the grid.
    pub fn get<C: InputCoord>(&self, index: C) -> (r: Result<&S, SudError>)
        requires
            self.wf(),
            index.spec_computable(self.size),
        ensures
            index.spec_target(self.size) < self.size.spec_total() ==> r == Ok::<&S, SudError>(&self.items[index.spec_target(self.size) as int]),
            index.spec_target(self.size) >= self.size.spec_total() ==> r == Err::<&S, SudError>(index.spec_location_error()),
    {
        let index = match index.to_usize(&self.size) {
            Ok(i) => i,
            Err(e) => { return Err(e); },
        };
        Ok(self._get(index))
    }

    pub fn _get(&self, index: usize) -> (r: &S)
        requires
            index < self.items.len(),
        ensures
            *r == self.items[index as int],
    {
        &self.items[index]
    }

    /// Returns row, col, box number of `'usize` index
    pub fn calc_house(&self, index: usize) -> (r: (usize, usize, usize))
        requires
            index < self.size.spec_total(),
        ensures
            r.0 == row_of(self.size, index as nat),
            r.1 == col_of(self.size, index as nat),
            r.2 == box_of(self.size, index as nat),
            r.0 < self.size.spec_house(),
            r.1 < self.size.spec_house(),
            r.2 < self.size.spec_house(),
    {
        let size = self.size;
        let width = size.size();
        let row = self.calc_row(index);
        let col = self.calc_col(index);
        proof {
            lemma_flat(size, index as nat);
            lemma_rc(size, row as nat, col as nat);
        }
        let box_num = (row / width) * width + (col / width);
        (row, col, box_num)
    }

    /// Returns row of `usize` index
    pub fn calc_row(&self, index: usize) -> (r: usize)
        ensures
            r == row_of(self.size, index as nat),
    {
        index / self.size.house_size()
    }

    /// Returns col number of `usize` index
    pub fn calc_col(&self, index: usize) -> (r: usize)
        ensures
            r == col_of(self.size, index as nat),
    {
        index % self.size.house_size()
    }

    /// Returns box number of `usize` index
    pub fn calc_box(&self, index: usize) -> (r: usize)
        requires
            index < self.size.spec_total(),
        ensures
            r == box_of(self.size, index as nat),
    {
        self.calc_house(index).2
    }

    /// The flat indices of the cells of the house of `index`, from its first cell on.
    pub fn house_iter<H: HouseCoord>(&self, index: H) -> (r: Vec<usize>)
        requires
            index.spec_size() == self.size,
            index.spec_number() < self.size.spec_house(),
        ensures
            r.len() == self.size.spec_house(),
            forall|k: int| 0 <= k < r.len() ==> #[trigger] r[k] == H::spec_cell(self.size, index.spec_number(), k as nat),
            forall|k: int| 0 <= k < r.len() ==> #[trigger] r[k] < self.size.spec_total(),
    {
        let mut out: Vec<usize> = Vec::new();
        let start = index.beginning();
        proof {
            index.lemma_house();
            start.lemma_house();
            self.size.lemma_sizes();
        }
        let mut location = Some(start);
        loop
            invariant
                self.size.spec_house() <= 100,
                out.len() <= self.size.spec_house(),
                location matches Some(l) ==> (l.spec_number() == index.spec_number() && l.spec_place() == out.len()
                    && l.spec_size() == self.size),
                location is None ==> out.len() == self.size.spec_house(),
                location is Some ==> out.len() < self.size.spec_house(),
                index.spec_number() < self.size.spec_house(),
                forall|k: int| 0 <= k < out.len() ==> #[trigger] out[k] == H::spec_cell(self.size, index.spec_number(), k as nat),
                forall|k: int| 0 <= k < out.len() ==> #[trigger] out[k] < self.size.spec_total(),
            decreases self.size.spec_house() - out.len(),
        {
            match location {
                Some(pos) => {
                    proof {
                        pos.lemma_house();
                        pos.lemma_ok();
                    }
                    location = pos.inc();
                    proof {
                        if let Some(n) = location {
                            n.lemma_house();
                        }
                    }
                    out.push(pos.to_usize());
                },
                None => {
                    return out;
                },
            }
        }
    }

    /// The cells of a house given by kind and number.
    pub fn enum_house_iter(&self, house: &House<usize>, size: SudokuSize) -> (r: Vec<usize>)
        requires
            size == self.size,
            match *house {
                House::Row(n) => n < size.spec_house(),
                House::Col(n) => n < size.spec_house(),
                House::Box(n) => n < size.spec_house(),
            },
        ensures
            r@ == house_cells(size, match *house {
                House::Row(n) => House::Row(n as nat),
                House::Col(n) => House::Col(n as nat),
                House::Box(n) => House::Box(n as nat),
            }).map_values(|x: nat| x as usize),
            forall|k: int| 0 <= k < r.len() ==> #[trigger] r[k] < self.size.spec_total(),
    {
        let r = match house {
            House::Row(n) => self.house_iter(Row::new(*n, 0, size)),
            House::Col(n) => self.house_iter(Col::new(*n, 0, size)),
            House::Box(n) => self.house_iter(GridBox::new(*n, 0, size)),
        };
        proof {
            let hn = match *house {
                House::Row(n) => House::Row(n as nat),
                House::Col(n) => House::Col(n as nat),
                House::Box(n) => House::Box(n as nat),
            };
            assert(r@ =~= house_cells(size, hn).map_values(|x: nat| x as usize));
        }
        r
    }

    /// The cells of every house of kind `H`, house by house.
    pub fn house_iters<H: HouseCoord>(&self) -> (r: Vec<Vec<usize>>)
        ensures
            r.len() == self.size.spec_house(),
            forall|n: int, k: int| 0 <= n < r.len() && 0 <= k < r[n].len() ==> #[trigger] r[n][k] < self.size.spec_total(),
            forall|n: int| 0 <= n < r.len() ==> #[trigger] r[n].len() == self.size.spec_house(),
            forall|n: int, k: int| 0 <= n < r.len() && 0 <= k < r[n].len() ==> #[trigger] r[n][k] == H::spec_cell(self.size, n as nat, k as nat),
    {
        let h = self.size.house_size();
        let mut iters: Vec<Vec<usize>> = Vec::new();
        for i in 0..h
            invariant
                h == self.size.spec_house(),
                iters.len() == i,
                forall|n: int, k: int| 0 <= n < iters.len() && 0 <= k < iters[n].len() ==> #[trigger] iters[n][k] < self.size.spec_total(),
                forall|n: int| 0 <= n < iters.len() ==> #[trigger] iters[n].len() == self.size.spec_house(),
                forall|n: int, k: int| 0 <= n < iters.len() && 0 <= k < iters[n].len() ==> #[trigger] iters[n][k] == H::spec_cell(self.size, n as nat, k as nat),
        {
            let s = H::start(i, self.size);
            iters.push(self.house_iter(s));
        }
        iters
    }

    pub fn sudoku_size(&self) -> (r: SudokuSize)
        ensures
            r == self.size,
    {
        self.size
    }

    /// The total number of squares.  For a 9X9, this is 81
    pub fn num_squares(&self) -> (r: usize)
        ensures
            r == self.size.spec_total(),
    {
        self.size.total()
    }

    /// The cells in row dominant order.
    pub fn value_iter(&self) -> (r: &Vec<S>)
        ensures
            r == &self.items,
    {
        &self.items
    }

    /// The cells in row dominant order.
    pub fn iter(&self) -> (r: &Vec<S>)
        ensures
            r == &self.items,
    {
        &self.items
    }

    /// The cells of the row, the column and the box of cell `index`: the cell itself comes
    /// once in each of the three.
    pub fn single_iterator(&self, index: usize) -> (r: Vec<usize>)
        requires
            index < self.size.spec_total(),
        ensures
            r@ == single_cells(self.size, index as nat).map_values(|x: nat| x as usize),
            forall|k: int| 0 <= k < r.len() ==> #[trigger] r[k] < self.size.spec_total(),
    {
        let (row, col, box_num) = self.calc_house(index);
        let mut r = self.house_iter(Row::start(row, self.size));
        let c = self.house_iter(Col::start(col, self.size));
        let b = self.house_iter(GridBox::start(box_num, self.size));
        let ghost r0 = r@;
        let mut k: usize = 0;
        while k < c.len()
            invariant
                k <= c.len(),
                r@ == r0 + c@.subrange(0, k as int),
                forall|j: int| 0 <= j < r.len() ==> #[trigger] r[j] < self.size.spec_total(),
                forall|j: int| 0 <= j < c.len() ==> #[trigger] c[j] < self.size.spec_total(),
                r0.len() == self.size.spec_house(),
                c.len() == self.size.spec_house(),
            decreases c.len() - k,
        {
            r.push(c[k]);
            k = k + 1;
            proof { assert(r@ =~= r0 + c@.subrange(0, k as int)); }
        }
        let ghost r1 = r@;
        let mut k: usize = 0;
        while k < b.len()
            invariant
                k <= b.len(),
                r@ == r1 + b@.subrange(0, k as int),
                forall|j: int| 0 <= j < r.len() ==> #[trigger] r[j] < self.size.spec_total(),
                forall|j: int| 0 <= j < b.len() ==> #[trigger] b[j] < self.size.spec_total(),
                r1.len() == 2 * self.size.spec_house(),
                b.len() == self.size.spec_house(),
            decreases b.len() - k,
        {
            r.push(b[k]);
            k = k + 1;
            proof { assert(r@ =~= r1 + b@.subrange(0, k as int)); }
        }
        proof {
            let s = single_cells(self.size, index as nat).map_values(|x: nat| x as usize);
            assert(c@.subrange(0, c.len() as int) =~= c@);
            assert(b@.subrange(0, b.len() as int) =~= b@);
            assert(r@ =~= s);
        }
        r
    }
}

impl<S: Copy> Grid<S> {
    /// A copy of the grid.
    pub fn clone_grid(&self) -> (r: Grid<S>)
        ensures
            r.items@ == self.items@,
            r.size == self.size,
    {
        let mut items: Vec<S> = Vec::new();
        for i in 0..self.items.len()
            invariant
                items@ == self.items@.subrange(0, i as int),
        {
            items.push(self.items[i]);
            proof { assert(items@ =~= self.items@.subrange(0, i + 1)); }
        }
        proof { assert(items@ =~= self.items@); }
        Grid { items, size: self.size }
    }
}

impl<V: BitSetInt> Grid<Square<V>> {
    /// Whether the value of cell `index` appears nowhere else in its row, column and box:
    /// the three houses hold it exactly three times, once each for the cell itself.
    pub fn was_valid_entry(&self, index: usize) -> (r: bool)
        requires
            self.wf(),
        ensures
            index >= self.items.len() ==> r,
            index < self.items.len() ==> r == (count_value(self.items@, single_cells(self.size, index as nat), self.items[index as int].value) == 3),
    {
        if index >= self.items.len() {
            return true;
        }
        let v = self.items[index];
        let cells = self.single_iterator(index);
        let mut count: usize = 0;
        let ghost sc = single_cells(self.size, index as nat);
        proof { self.size.lemma_sizes(); lemma_single_cells(self.size, index as nat); }
        for k in 0..cells.len()
            invariant
                cells@ == sc.map_values(|x: nat| x as usize),
                forall|j: int| 0 <= j < cells.len() ==> #[trigger] cells[j] < self.size.spec_total(),
                count == count_value(self.items@, sc.subrange(0, k as int), v.value),
                count <= k,
                cells.len() <= 300,
                self.wf(),
                forall|j: int| 0 <= j < sc.len() ==> #[trigger] sc[j] < self.size.spec_total(),
        {
            proof {
                assert(sc.subrange(0, k + 1).drop_last() =~= sc.subrange(0, k as int));
                assert(sc[k as int] == cells[k as int] as nat);
            }
            if self.items[cells[k]].same_value(&v) {
                count = count + 1;
            }
        }
        proof { assert(sc.subrange(0, cells.len() as int) =~= sc); }
        count == 3
    }

    /// The values of the cells, zero for an empty cell.
    pub fn to_inner(&self) -> (r: Grid<V>)
        ensures
            r.size == self.size,
            r.items.len() == self.items.len(),
            forall|i: int| 0 <= i < r.items.len() ==> #[trigger] r.items[i].spec_nat() == match self.items[i].value {
                Some(b) => b@,
                None => 0,
            },
    {
        let mut newgrid: Vec<V> = Vec::new();
        for i in 0..self.items.len()
            invariant
                newgrid.len() == i,
                forall|j: int| 0 <= j < i ==> #[trigger] newgrid[j].spec_nat() == match self.items[j].value {
                    Some(b) => b@,
                    None => 0,
                },
        {
            let b = match self.items[i].val() {
                Some(b) => b,
                None => Bit::zero(),
            };
            newgrid.push(b.to_value());
        }
        Grid { items: newgrid, size: self.size }
    }
}

} // verus!
