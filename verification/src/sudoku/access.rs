use vstd::prelude::*;
use crate::bitset::traits::BitSetInt;
use crate::bitset::bit::Bit;
use crate::bitset::bitsetiter::asc_from;
use crate::errors::SudError;
use crate::grid::grid::{Grid, house_cells};
use crate::grid::gridcoord::InputCoord;
use crate::grid::house::House;
use crate::move_change::set_values;
use crate::solution::Solution;
use crate::square::square::Square;
use crate::sudoku::setinputs::InputValue;
use crate::sudoku::state::{cells_ok, cell_ok, empty_count};
use crate::sudoku::sudoku::Sudoku;
use crate::sudokusize::SudokuSize;

verus! {

/// The number a cell holds, zero when empty.
pub open spec fn value_of<V: BitSetInt>(sq: Square<V>) -> nat {
    match sq.value {
        Some(b) => b@,
        None => 0,
    }
}

/// Each filled cell among the first `n` holds the value of the solution at its place.
pub open spec fn agrees_with<V: BitSetInt>(cells: Seq<Square<V>>, g: Seq<V>, n: nat) -> bool {
    forall|i: int| 0 <= i < n ==> ((#[trigger] cells[i]).value matches Some(b) ==> g[i].spec_nat() == b@)
}

/// The number of places among the first `n` where the cell holds a value that differs from
/// the solution; empty cells do not count.
pub open spec fn mismatch_count<V: BitSetInt>(cells: Seq<Square<V>>, g: Seq<V>, n: nat) -> nat
    decreases n,
{
    if n == 0 {
        0
    } else {
        mismatch_count(cells, g, (n - 1) as nat)
            + if value_of(cells[n - 1]) == 0 || value_of(cells[n - 1]) == g[n - 1].spec_nat() { 0nat } else { 1nat }
    }
}

/// The grid of the unique solution, if the puzzle has one.
pub open spec fn unique_grid<V: BitSetInt>(s: Solution<V>) -> Option<Grid<V>> {
    match s {
        Solution::One(g) => Some(g),
        Solution::HumanSolved(g, _) => Some(g),
        _ => None,
    }
}

/// Why a solution has no unique grid.
pub open spec fn no_unique_error<V: BitSetInt>(s: Solution<V>) -> SudError {
    match s {
        Solution::NoSolution => SudError::NoSolution,
        Solution::Multi(v) => SudError::MultipleSolution(v.len()),
        _ => SudError::HasNotBeenSolved,
    }
}

impl<V: BitSetInt> Sudoku<V> {
    /// The value of a cell (zero when empty), or an error for a place outside the grid.
    pub fn get<C: InputCoord>(&self, index: C) -> (r: Result<V, SudError>)
        requires
            self.wf(),
            index.spec_computable(self.grid.size),
        ensures
            index.spec_target(self.grid.size) >= self.grid.size.spec_total() ==> r == Err::<V, SudError>(index.spec_location_error()),
            index.spec_target(self.grid.size) < self.grid.size.spec_total() ==> (r matches Ok(v)
                && v.spec_nat() == value_of(self.cells()[index.spec_target(self.grid.size) as int])),
    {
        proof { self.grid.size.lemma_sizes(); }
        let index = match index.to_usize(&self.grid.size) {
            Ok(i) => i,
            Err(e) => {
                return Err(e);
            },
        };
        let b = match self.grid.items[index].val() {
            Some(b) => b,
            None => Bit::zero(),
        };
        Ok(b.to_value())
    }

    /// The cell at a place, or an error for a place outside the grid.
    pub fn get_square<C: InputCoord>(&self, coord: C) -> (r: Result<&Square<V>, SudError>)
        requires
            self.wf(),
            coord.spec_computable(self.grid.size),
        ensures
            coord.spec_target(self.grid.size) >= self.grid.size.spec_total() ==> r == Err::<&Square<V>, SudError>(coord.spec_location_error()),
            coord.spec_target(self.grid.size) < self.grid.size.spec_total() ==> (r matches Ok(sq)
                && *sq == self.cells()[coord.spec_target(self.grid.size) as int]),
    {
        proof { self.grid.size.lemma_sizes(); }
        let index = match coord.to_usize(&self.grid.size) {
            Ok(i) => i,
            Err(e) => {
                return Err(e);
            },
        };
        Ok(self._get(index))
    }

    /// The cell at flat index `index`.
    pub fn _get(&self, index: usize) -> (r: &Square<V>)
        requires
            index < self.grid.items.len(),
        ensures
            *r == self.cells()[index as int],
    {
        &self.grid.items[index]
    }

    /// The possible values of a cell in increasing order; empty for a filled cell.
    pub fn possibilities<C: InputCoord>(&self, index: C) -> (r: Result<Vec<V>, SudError>)
        requires
            self.wf(),
            index.spec_computable(self.grid.size),
        ensures
            index.spec_target(self.grid.size) >= self.grid.size.spec_total() ==> r == Err::<Vec<V>, SudError>(index.spec_location_error()),
            index.spec_target(self.grid.size) < self.grid.size.spec_total() ==> (r matches Ok(v)
                && v@.map_values(|x: V| x.spec_nat()) == asc_from(self.cells()[index.spec_target(self.grid.size) as int].flags.poss.0.spec_nat(), 1, V::width())),
    {
        proof { self.grid.size.lemma_sizes(); }
        let index = match index.to_usize(&self.grid.size) {
            Ok(i) => i,
            Err(e) => {
                return Err(e);
            },
        };
        let v = set_values(self.grid.items[index].poss());
        proof {
            assert(v@.map_values(|x: V| x.spec_nat()) =~= asc_from(self.cells()[index as int].flags.poss.0.spec_nat(), 1, V::width()));
        }
        Ok(v)
    }

    /// Whether `value` can be set in a cell: `SudError::ValueNotPossible` when it exceeds the
    /// largest value of the puzzle, an error for a place outside the grid, else whether it
    /// is among the possible values of the cell.
    pub fn is_valid_entry<C: InputCoord>(&self, index: C, value: V) -> (r: Result<bool, SudError>)
        where V: InputValue,
        requires
            self.wf(),
            index.spec_computable(self.grid.size),
        ensures
            value.spec_nat() > self.grid.size.spec_house() ==> r matches Err(SudError::ValueNotPossible(_)),
            value.spec_nat() <= self.grid.size.spec_house() && index.spec_target(self.grid.size) >= self.grid.size.spec_total()
                ==> r == Err::<bool, SudError>(index.spec_location_error()),
            value.spec_nat() <= self.grid.size.spec_house() && index.spec_target(self.grid.size) < self.grid.size.spec_total()
                ==> r == Ok::<bool, SudError>(self.cells()[index.spec_target(self.grid.size) as int].flags.poss@.contains(value.spec_nat())),
    {
        let v = match value.checked_into_bit(self.grid.size) {
            Ok(b) => b,
            Err(e) => {
                return Err(e);
            },
        };
        proof { self.grid.size.lemma_sizes(); }
        let index = match index.to_usize(&self.grid.size) {
            Ok(i) => i,
            Err(e) => {
                return Err(e);
            },
        };
        proof {
            assert(cell_ok(self.cells()[index as int], index as int, self.grid.size));
        }
        Ok(self.grid.items[index].poss_contains(v))
    }

    /// Returns the number of unsolved squares.  Does not check for correct placement
    pub fn remaining(&self) -> (r: usize)
        requires
            self.wf(),
        ensures
            r == empty_count(self.cells()),
    {
        self.unsolved
    }

    /// The number of cells in a row, column or box: the largest value.  9 for a 9x9 puzzle.
    pub fn house_size(&self) -> (r: usize)
        ensures
            r == self.grid.size.spec_house(),
    {
        self.grid.house_size()
    }

    /// The total number of squares.  For a 9X9, this is 81
    pub fn num_squares(&self) -> (r: usize)
        ensures
            r == self.grid.size.spec_total(),
    {
        self.grid.num_squares()
    }

    /// The width of a box: the square root of the house size.  For a 9X9, this is 3.
    pub fn box_dimension(&self) -> (r: usize)
        ensures
            r == self.grid.size.spec_size(),
    {
        self.grid.box_size()
    }

    /// The size of the puzzle.
    pub fn sudoku_size(&self) -> (r: SudokuSize)
        ensures
            r == self.grid.size,
    {
        self.grid.size
    }

    /// The solutions found when the puzzle was built.
    pub fn solution(&self) -> (r: &Solution<V>)
        ensures
            *r == self.solution,
    {
        &self.solution
    }

    /// The value of each cell in row dominant order, zero for an empty cell.
    pub fn value_iter(&self) -> (r: Vec<V>)
        ensures
            r.len() == self.grid.items.len(),
            forall|i: int| 0 <= i < r.len() ==> #[trigger] r[i].spec_nat() == value_of(self.cells()[i]),
    {
        let mut out: Vec<V> = Vec::new();
        for i in 0..self.grid.items.len()
            invariant
                out.len() == i,
                forall|k: int| 0 <= k < i ==> #[trigger] out[k].spec_nat() == value_of(self.cells()[k]),
        {
            let b = match self.grid.items[i].val() {
                Some(b) => b,
                None => Bit::zero(),
            };
            out.push(b.to_value());
        }
        out
    }

    /// The flat indices of the cells of a house.
    pub fn house_iter(&self, house: House<usize>) -> (r: Vec<usize>)
        requires
            match house {
                House::Row(n) => n < self.grid.size.spec_house(),
                House::Col(n) => n < self.grid.size.spec_house(),
                House::Box(n) => n < self.grid.size.spec_house(),
            },
        ensures
            r@ == house_cells(self.grid.size, match house {
                House::Row(n) => House::Row(n as nat),
                House::Col(n) => House::Col(n as nat),
                House::Box(n) => House::Box(n as nat),
            }).map_values(|x: nat| x as usize),
            forall|k: int| 0 <= k < r.len() ==> #[trigger] r[k] < self.grid.size.spec_total(),
    {
        self.grid.enum_house_iter(&house, self.grid.size)
    }

    /// Whether every filled cell holds the value of the unique solution.  An error when
    /// there is no unique solution.
    pub fn compare_with_solution(&self) -> (r: Result<bool, SudError>)
        ensures
            unique_grid(self.solution) matches Some(g) ==> r == Ok::<bool, SudError>(agrees_with(self.cells(), g.items@,
                if g.items.len() < self.grid.items.len() { g.items.len() as nat } else { self.grid.items.len() as nat })),
            unique_grid(self.solution) is None ==> r == Err::<bool, SudError>(no_unique_error(self.solution)),
    {
        let sol = match self.solution.get() {
            Ok(g) => g,
            Err(e) => {
                return Err(e);
            },
        };
        let n = if sol.items.len() < self.grid.items.len() { sol.items.len() } else { self.grid.items.len() };
        let mut i: usize = 0;
        while i < n
            invariant
                i <= n,
                n <= sol.items.len(),
                n <= self.grid.items.len(),
                n == if sol.items.len() < self.grid.items.len() { sol.items.len() } else { self.grid.items.len() },
                unique_grid(self.solution) matches Some(g) && g.items@ == sol.items@,
                agrees_with(self.cells(), sol.items@, i as nat),
            decreases n - i,
        {
            match self.grid.items[i].val() {
                Some(b) => {
                    if !b.to_value().eq_val(sol.items[i]) {
                        proof {
                            assert(self.cells()[i as int].value == Some(b));
                            assert(!agrees_with(self.cells(), sol.items@, n as nat));
                        }
                        return Ok(false);
                    }
                },
                None => {},
            }
            i = i + 1;
        }
        Ok(true)
    }

    /// Compares the puzzle with its unique solution: `Ok(())` when every cell is filled
    /// with the value of the solution, else `SudError::NotSolved` with the number of empty
    /// cells and the number of filled cells whose value differs from the solution.  An error when there is no unique
    /// solution.
    pub fn validate_against_solution(&self) -> (r: Result<(), SudError>)
        requires
            self.wf(),
        ensures
            unique_grid(self.solution) is None ==> r == Err::<(), SudError>(no_unique_error(self.solution)),
            unique_grid(self.solution) matches Some(g) ==> ({
                let n = if g.items.len() < self.grid.items.len() { g.items.len() as nat } else { self.grid.items.len() as nat };
                let c = mismatch_count(self.cells(), g.items@, n);
                &&& c == 0 && empty_count(self.cells()) == 0 ==> r is Ok
                &&& !(c == 0 && empty_count(self.cells()) == 0) ==> r == Err::<(), SudError>(
                    SudError::NotSolved(empty_count(self.cells()) as usize, c as usize))
            }),
    {
        let grid_iter = self.value_iter();
        let sol = match self.solution.get() {
            Ok(g) => g,
            Err(e) => {
                return Err(e);
            },
        };
        let n = if sol.items.len() < grid_iter.len() { sol.items.len() } else { grid_iter.len() };
        let mut conflicts: usize = 0;
        for i in 0..n
            invariant
                n <= sol.items.len(),
                n <= grid_iter.len(),
                grid_iter.len() == self.grid.items.len(),
                forall|k: int| 0 <= k < grid_iter.len() ==> #[trigger] grid_iter[k].spec_nat() == value_of(self.cells()[k]),
                conflicts == mismatch_count(self.cells(), sol.items@, i as nat),
                conflicts <= i,
        {
            if !grid_iter[i].is_zero() && !grid_iter[i].eq_val(sol.items[i]) {
                conflicts = conflicts + 1;
            }
        }
        if conflicts == 0 && self.remaining() == 0 {
            Ok(())
        } else {
            Err(SudError::NotSolved(self.remaining(), conflicts))
        }
    }

    /// The unique solution, or an error for no solution, several solutions, or a puzzle not
    /// solved yet.
    pub fn unique_solution(&self) -> (r: Result<&Grid<V>, SudError>)
        ensures
            unique_grid(self.solution) matches Some(g) ==> r == Ok::<&Grid<V>, SudError>(&g),
            unique_grid(self.solution) is None ==> r == Err::<&Grid<V>, SudError>(no_unique_error(self.solution)),
    {
        match &self.solution {
            Solution::NoSolution => Err(SudError::NoSolution),
            Solution::Multi(vecs) => Err(SudError::MultipleSolution(vecs.len())),
            Solution::One(grid) => Ok(grid),
            Solution::HumanSolved(grid, _) => Ok(grid),
            Solution::NotSet => Err(SudError::HasNotBeenSolved),
        }
    }

    /// Whether no cell is empty; where the values stand is not checked.
    pub fn is_solved(&self) -> (r: bool)
        requires
            self.wf(),
        ensures
            r == (empty_count(self.cells()) == 0),
    {
        self.unsolved == 0
    }
}

} // verus!
