use vstd::prelude::*;
use crate::bitset::traits::BitSetInt;
use crate::bitset::bit::Bit;
use crate::bitset::bitset::{BitSet, first_values, full_values};
use crate::brute::{BruteForce, distinct_from, lemma_start_no_clash, open_ok, solves, same_entries, lemma_same_solution_solves, lemma_same_solution_complete, solution_solves, solution_complete, start_ok, start_cell, consistent, lemma_valid_entry};
use crate::errors::SudError;
use crate::grid::grid::{Grid, house_cells};
use crate::grid::gridcoord::{HouseCoord, InputCoord};
use crate::grid::grid_traits::{Rotate, turned, turn_items, lemma_turned_len, lemma_turned_map, lemma_turned_bounded};
use crate::grid::house::House;
use crate::grid::types::{Row, Col, GridBox, row_of, col_of, box_of};
use crate::human_calcs::humansolve::solver::HumanSolver;
use crate::move_change::Move;
use crate::solution::{Solution, same_moves, same_solution, clone_moves};
use crate::square::square::Square;
use crate::sudoku::initial_input::InitialInput;
use crate::sudoku::state::{no_clash, lemma_values_around_has, cells_ok, cell_ok, empty_count, undoes_to, values_at, values_around, valid_entry,
    invalid_count, lemma_invalid_count, lemma_empty_count_same, lemma_empty_count_bound, peers};
use crate::sudokusize::SudokuSize;
use crate::sudoku::access::unique_grid;
use crate::human_calcs::kept::{keeps_solution, filled_as, lemma_fresh_keeps, lemma_unique_solves};

verus! {

/// A puzzle: the grid of cells, the values given in each row, column and box, the count of
/// empty cells, the moves made so far, the solutions found by brute force, and the solver of
/// human techniques.
///
/// Cells are kept in a 1-D vector in row dominant order: for a normal 9x9 puzzle index `10`
/// is row 1, column 1.
pub struct Sudoku<V: BitSetInt> {
    pub grid: Grid<Square<V>>,
    pub rows: Vec<BitSet<V>>,
    pub cols: Vec<BitSet<V>>,
    pub boxes: Vec<BitSet<V>>,
    pub unsolved: usize,
    pub moves: Vec<Move<V>>,
    pub solution: Solution<V>,
    pub human_solver: HumanSolver<V>,
    /// The cells and the count of empty cells before each move.
    pub saved: Ghost<Seq<(Seq<Square<V>>, usize)>>,
}

/// The cells of house `n` of kind `H`.
pub open spec fn cells_of<H: HouseCoord>(size: SudokuSize, n: nat) -> Seq<nat> {
    Seq::new(size.spec_house(), |k: int| H::spec_cell(size, n, k as nat))
}

/// The values given in each house of kind `H`.
fn build_house<H: HouseCoord, V: BitSetInt>(grid: &Grid<Square<V>>) -> (r: Vec<BitSet<V>>)
    requires
        grid.wf(),
        forall|i: int| 0 <= i < grid.items.len() ==> (#[trigger] grid.items[i]).wf(),
        forall|i: int| 0 <= i < grid.items.len() ==> ((#[trigger] grid.items[i]).value matches Some(b) ==> b@ >= 1),
    ensures
        r.len() == grid.size.spec_house(),
        forall|n: int| 0 <= n < r.len() ==> (#[trigger] r[n])@ == values_at(grid.items@, cells_of::<H>(grid.size, n as nat)),
{
    let iters = grid.house_iters::<H>();
    let mut houses: Vec<BitSet<V>> = Vec::new();
    for n in 0..iters.len()
        invariant
            iters.len() == grid.size.spec_house(),
            houses.len() == n,
            grid.wf(),
            forall|i: int| 0 <= i < grid.items.len() ==> (#[trigger] grid.items[i]).wf(),
            forall|i: int| 0 <= i < grid.items.len() ==> ((#[trigger] grid.items[i]).value matches Some(b) ==> b@ >= 1),
            forall|a: int, k: int| 0 <= a < iters.len() && 0 <= k < iters[a].len() ==> #[trigger] iters[a][k] < grid.size.spec_total(),
            forall|a: int| 0 <= a < iters.len() ==> #[trigger] iters[a].len() == grid.size.spec_house(),
            forall|a: int, k: int| 0 <= a < iters.len() && 0 <= k < iters[a].len() ==> #[trigger] iters[a][k] == H::spec_cell(grid.size, a as nat, k as nat),
            forall|a: int| 0 <= a < n ==> (#[trigger] houses[a])@ == values_at(grid.items@, cells_of::<H>(grid.size, a as nat)),
    {
        let cells = &iters[n];
        let ghost all = cells_of::<H>(grid.size, n as nat);
        let mut acc: BitSet<V> = BitSet::empty();
        for k in 0..cells.len()
            invariant
                cells.len() == grid.size.spec_house(),
                all.len() == cells.len(),
                forall|j: int| 0 <= j < cells.len() ==> #[trigger] cells[j] < grid.size.spec_total(),
                forall|j: int| 0 <= j < cells.len() ==> #[trigger] cells[j] == all[j],
                grid.wf(),
                forall|i: int| 0 <= i < grid.items.len() ==> (#[trigger] grid.items[i]).wf(),
                forall|i: int| 0 <= i < grid.items.len() ==> ((#[trigger] grid.items[i]).value matches Some(b) ==> b@ >= 1),
                acc@ == values_at(grid.items@, all.subrange(0, k as int)),
        {
            proof {
                assert(all.subrange(0, k + 1).drop_last() =~= all.subrange(0, k as int));
                assert(all.subrange(0, k + 1).last() == cells[k as int]);
            }
            match grid.items[cells[k]].value {
                Some(val) => {
                    acc = acc.insert(val);
                    proof {
                        assert(grid.items[cells[k as int] as int].wf());
                        assert(acc@ =~= values_at(grid.items@, all.subrange(0, k + 1)));
                    }
                },
                None => {
                    proof {
                        assert(acc@ =~= values_at(grid.items@, all.subrange(0, k + 1)));
                    }
                },
            }
        }
        proof { assert(all.subrange(0, cells.len() as int) =~= all); }
        houses.push(acc);
    }
    houses
}

impl<V: BitSetInt> Sudoku<V> {
    /// The cells and the count of empty cells that undoing move `k` gives back to.
    pub open spec fn after_move(&self, k: int) -> Seq<Square<V>> {
        if k + 1 < self.saved@.len() {
            self.saved@[k + 1].0
        } else {
            self.grid.items@
        }
    }

    /// The puzzle is well formed: the cells are as a puzzle keeps them, the count of empty
    /// cells is right, the trackers have one set per house, undoing each move gives back the
    /// state saved for it, and the solutions solve the givens.
    pub open spec fn wf(&self) -> bool {
        let size = self.grid.size;
        &&& size.spec_house() <= V::width()
        &&& cells_ok(self.grid.items@, size)
        &&& no_clash(self.grid.items@, size)
        &&& self.unsolved == empty_count(self.grid.items@)
        &&& self.rows.len() == size.spec_house()
        &&& self.cols.len() == size.spec_house()
        &&& self.boxes.len() == size.spec_house()
        &&& solution_solves(self.solution, self.grid.items@, size)
        &&& solution_complete(self.solution, self.grid.items@, size)
        &&& self.human_solver.wf()
        &&& self.saved@.len() == self.moves.len()
        &&& forall|k: int| 0 <= k < self.saved@.len() ==> {
            &&& cells_ok((#[trigger] self.saved@[k]).0, size)
            &&& no_clash(self.saved@[k].0, size)
            &&& self.saved@[k].1 == empty_count(self.saved@[k].0)
            &&& solution_solves(self.solution, self.saved@[k].0, size)
            &&& solution_complete(self.solution, self.saved@[k].0, size)
            &&& undoes_to(self.after_move(k), self.moves@[k], self.saved@[k].0, size)
        }
    }

    /// The cells, row after row.
    pub open spec fn cells(&self) -> Seq<Square<V>> {
        self.grid.items@
    }

    /// Build a puzzle of `size` from the values of `input`, zero for an empty cell.  The
    /// length and the values are checked, the possible values of each empty cell are those
    /// that its row, column and box do not hold, and the solutions are found by brute force.
    pub fn new_with_size<T: InitialInput<V>>(input: T, size: SudokuSize) -> (r: Result<Sudoku<V>, SudError>)
        ensures
            input.spec_values().len() != size.spec_total() ==> r == Err::<Sudoku<V>, SudError>(
                SudError::InputLengthError(input.spec_values().len() as usize)),
            input.spec_values().len() == size.spec_total() && size.spec_house() > V::width()
                ==> r == Err::<Sudoku<V>, SudError>(SudError::InvalidPuzzle),
            input.spec_values().len() == size.spec_total() && size.spec_house() <= V::width()
                && (exists|i: int| 0 <= i < input.spec_values().len() && #[trigger] input.spec_values()[i] > size.spec_house())
                ==> r matches Err(SudError::ValueNotPossible(_)),
            r matches Ok(s) ==> {
                &&& s.wf()
                &&& s.grid.size == size
                &&& s.moves@.len() == 0
                &&& s.solution is NoSolution || s.solution is One || s.solution is Multi
                &&& solution_complete(s.solution, s.cells(), s.grid.size)
                &&& forall|i: int| 0 <= i < s.grid.items.len() ==> given_or_open(#[trigger] s.grid.items[i], input.spec_values()[i], s.cells(), size, i as nat)
                &&& forall|i: int| 0 <= i < s.grid.items.len() ==> #[trigger] valid_entry(s.cells(), size, i)
                &&& s.solution is One ==> keeps_solution(s)
            },
            input.spec_values().len() == size.spec_total() && size.spec_house() <= V::width()
                && (forall|i: int| 0 <= i < input.spec_values().len() ==> #[trigger] input.spec_values()[i] <= size.spec_house())
                ==> (r is Ok || r matches Err(SudError::IllegalOperation(_)) || r == Err::<Sudoku<V>, SudError>(SudError::ExcessiveSolutions(5))),
            r matches Err(SudError::IllegalOperation(_)) ==> input.spec_values().len() == size.spec_total() && size.spec_house() <= V::width()
                && exists|s: Seq<Square<V>>| conflicting_start(s, input.spec_values(), size),
            input.spec_values().len() == size.spec_total() && size.spec_house() <= V::width()
                && (forall|i: int| 0 <= i < input.spec_values().len() ==> #[trigger] input.spec_values()[i] <= size.spec_house())
                ==> (r matches Err(SudError::IllegalOperation(_)) <==> givens_clash(input.spec_values(), size)),
            r == Err::<Sudoku<V>, SudError>(SudError::ExcessiveSolutions(5)) ==> solutions_at_least::<V>(input.spec_values(), size, 6),
    {
        let ghost vals = input.spec_values();
        let input_vec: Vec<V> = match input.initial() {
            Ok(v) => v,
            Err(e) => {
                return Err(e);
            },
        };
        let total = size.total();
        if input_vec.len() != total {
            return Err(SudError::InputLengthError(input_vec.len()));
        }
        let house = size.house_size();
        proof { size.lemma_sizes(); }
        if house > V::bits() as usize {
            return Err(SudError::InvalidPuzzle);
        }
        let mut squares: Vec<Square<V>> = Vec::new();
        for i in 0..total
            invariant
                total == size.spec_total(),
                house == size.spec_house(),
                house <= V::width(),
                input.spec_values() == vals,
                input_vec.len() == total,
                vals.len() == total,
                forall|k: int| 0 <= k < input_vec.len() ==> #[trigger] input_vec[k].spec_nat() == vals[k],
                forall|k: int| 0 <= k < i ==> vals[k] <= house,
                squares.len() == i,
                forall|k: int| 0 <= k < i ==> first_cell(#[trigger] squares[k], vals[k], size, k),
        {
            let v = input_vec[i];
            let fits = match v.try_usize() {
                Some(u) => u <= house,
                None => false,
            };
            if !fits {
                proof {
                    assert(vals[i as int] > house);
                }
                return Err(SudError::ValueNotPossible("Value exceeds maximum".to_owned()));
            }
            let sq = match Square::new(Bit::from_value(v), size, i) {
                Ok(s) => s,
                Err(e) => {
                    return Err(e);
                },
            };
            squares.push(sq);
        }
        let grid = Grid::new(squares, size);
        let rows = build_house::<Row, V>(&grid);
        let cols = build_house::<Col, V>(&grid);
        let boxes = build_house::<GridBox, V>(&grid);
        let ghost init = grid.items@;
        let mut newgrid = Sudoku {
            grid,
            rows,
            cols,
            boxes,
            unsolved: total,
            moves: Vec::new(),
            solution: Solution::NotSet,
            human_solver: HumanSolver::new(),
            saved: Ghost(Seq::empty()),
        };
        proof {
            assert forall|n: int| 0 <= n < house implies #[trigger] cells_of::<Row>(size, n as nat) == house_cells(size, House::Row(n as nat)) by {
                assert(cells_of::<Row>(size, n as nat) =~= house_cells(size, House::Row(n as nat)));
            }
            assert forall|n: int| 0 <= n < house implies #[trigger] cells_of::<Col>(size, n as nat) == house_cells(size, House::Col(n as nat)) by {
                assert(cells_of::<Col>(size, n as nat) =~= house_cells(size, House::Col(n as nat)));
            }
            assert forall|n: int| 0 <= n < house implies #[trigger] cells_of::<GridBox>(size, n as nat) == house_cells(size, House::Box(n as nat)) by {
                assert(cells_of::<GridBox>(size, n as nat) =~= house_cells(size, House::Box(n as nat)));
            }
        }
        let mut ind: usize = 0;
        while ind < total
            invariant
                total == size.spec_total(),
                house == size.spec_house(),
                house <= V::width(),
                ind <= total,
                init.len() == total,
                vals.len() == total,
                newgrid.grid.size == size,
                newgrid.grid.items.len() == total,
                newgrid.rows.len() == house,
                newgrid.cols.len() == house,
                newgrid.boxes.len() == house,
                forall|n: int| 0 <= n < house ==> (#[trigger] newgrid.rows[n])@ == values_at(init, house_cells(size, House::Row(n as nat))),
                forall|n: int| 0 <= n < house ==> (#[trigger] newgrid.cols[n])@ == values_at(init, house_cells(size, House::Col(n as nat))),
                forall|n: int| 0 <= n < house ==> (#[trigger] newgrid.boxes[n])@ == values_at(init, house_cells(size, House::Box(n as nat))),
                forall|k: int| 0 <= k < total ==> first_cell(#[trigger] init[k], vals[k], size, k),
                forall|k: int| ind <= k < total ==> #[trigger] newgrid.grid.items[k] == init[k],
                forall|k: int| 0 <= k < ind ==> given_or_open(#[trigger] newgrid.grid.items[k], vals[k], init, size, k as nat),
                forall|k: int| 0 <= k < total ==> (#[trigger] newgrid.grid.items[k]).value == init[k].value,
                newgrid.unsolved + ind == total + empty_count(init.subrange(0, ind as int)),
                newgrid.moves.len() == 0,
                newgrid.saved@.len() == 0,
                newgrid.solution is NotSet,
                newgrid.human_solver.wf(),
            decreases total - ind,
        {
            proof {
                lemma_empty_count_bound(init.subrange(0, ind as int));
                assert(init.subrange(0, ind + 1).drop_last() =~= init.subrange(0, ind as int));
            }
            if newgrid.grid.items[ind].is_fixed() {
                newgrid.unsolved = newgrid.unsolved - 1;
                ind = ind + 1;
                continue;
            }
            proof {
                crate::grid::gridcoord::lemma_flat(size, ind as nat);
                crate::sudoku::state::lemma_box_place(size, ind as nat);
            }
            let to_remove = newgrid.all_groups_values(ind);
            let mut sq = newgrid.grid.items[ind];
            sq.set_original(to_remove, size);
            newgrid.grid.items.set(ind, sq);
            proof {
                assert(to_remove@ == values_around(init, size, ind as nat));
            }
            ind = ind + 1;
        }
        proof {
            let cells = newgrid.grid.items@;
            assert(init.subrange(0, total as int) =~= init);
            lemma_empty_count_same(cells, init);
            assert forall|k: int| 0 <= k < total implies #[trigger] values_around(cells, size, k as nat) == values_around(init, size, k as nat) by {
                lemma_values_around_same(cells, init, size, k as nat);
            }
            assert forall|k: int| 0 <= k < total implies #[trigger] cell_ok(cells[k], k, size) by {
                assert(given_or_open(cells[k], vals[k], init, size, k as nat));
                assert(first_cell(init[k], vals[k], size, k));
            }
        }
        match newgrid.check_for_conflicts() {
            Ok(()) => {},
            Err(_) => {
                proof {
                    let cells = newgrid.grid.items@;
                    assert(conflicting_start(cells, vals, size));
                    let i = choose|i: int| 0 <= i < cells.len() && !#[trigger] valid_entry(cells, size, i);
                    if !(exists|j: nat| j < size.spec_total() && j != i && #[trigger] peers(size, i as nat, j)
                        && cells[j as int].value == cells[i].value) {
                        crate::brute::lemma_valid_entry_back(cells, size, i as nat);
                    }
                    let j = choose|j: nat| j < size.spec_total() && j != i && #[trigger] peers(size, i as nat, j)
                        && cells[j as int].value == cells[i].value;
                    assert(given_or_open(cells[i], vals[i], init, size, i as nat));
                    assert(given_or_open(cells[j as int], vals[j as int], init, size, j));
                    assert(vals[i] != 0 && vals[i] == vals[j as int]);
                    assert(givens_clash(vals, size));
                }
                return Err(SudError::IllegalOperation("There are conflicting values in the input puzzle"));
            },
        }
        proof {
            let cells = newgrid.grid.items@;
            assert forall|i: int, j: int| 0 <= i < vals.len() && 0 <= j < vals.len() && i != j && peers(size, i as nat, j as nat)
                && vals[i] != 0 && #[trigger] vals[i] == #[trigger] vals[j] implies false by {
                assert(given_or_open(cells[i], vals[i], init, size, i as nat));
                assert(given_or_open(cells[j], vals[j], init, size, j as nat));
                let a = cells[i].value->Some_0;
                let b = cells[j].value->Some_0;
                assert(a.0.spec_nat() == b.0.spec_nat());
                V::lemma_nat_inj(a.0, b.0);
                assert(valid_entry(cells, size, i));
                crate::brute::lemma_valid_entry(cells, size, i as nat, j as nat);
            }
        }
        proof {
            let cells = newgrid.grid.items@;
            assert forall|i: int, j: int|
                0 <= i < cells.len() && 0 <= j < cells.len() && i != j && peers(size, i as nat, j as nat)
                    && #[trigger] cells[i].value is Some && #[trigger] cells[j].value is Some
                implies cells[i].value != cells[j].value by {
                assert(valid_entry(cells, size, i));
                lemma_valid_entry(cells, size, i as nat, j as nat);
            }
            assert forall|k: int| 0 <= k < cells.len() implies start_cell(#[trigger] cells[k], size) by {
                assert(given_or_open(cells[k], vals[k], init, size, k as nat));
                assert(first_cell(init[k], vals[k], size, k));
                assert(cell_ok(cells[k], k, size));
            }
            assert(open_ok(cells, size)) by {
                reveal(open_ok);
            }
            lemma_start_no_clash(cells, size);
        }
        newgrid.solution = match BruteForce::solve(&newgrid.grid) {
            Ok(s) => s,
            Err(e) => {
                proof {
                    let cells = newgrid.grid.items@;
                    let sols = choose|sols: Seq<Grid<V>>| sols.len() == 6 && distinct_from(sols, 0)
                        && forall|k: int| 0 <= k < sols.len() ==> crate::brute::solves(#[trigger] sols[k], cells, size);
                    assert forall|k: int| 0 <= k < sols.len() implies fits_givens(#[trigger] sols[k], vals, size) by {
                        let g = sols[k];
                        assert(crate::brute::solves(g, cells, size));
                        assert forall|i: int| 0 <= i < g.items.len() && #[trigger] vals[i] != 0 implies g.items[i].spec_nat() == vals[i] by {
                            assert(given_or_open(cells[i], vals[i], init, size, i as nat));
                            assert(cells[i].fixed);
                        }
                    }
                    assert(solutions_at_least::<V>(vals, size, 6));
                }
                return Err(e);
            },
        };
        proof {
            if newgrid.solution is One {
                assert(newgrid.wf());
                lemma_fresh_keeps(newgrid, vals);
            }
        }
        Ok(newgrid)
    }

    /// The union of the values given in the row, the column and the box of cell `index`.
    pub fn all_groups_values(&self, index: usize) -> (r: BitSet<V>)
        requires
            index < self.grid.size.spec_total(),
            self.rows.len() == self.grid.size.spec_house(),
            self.cols.len() == self.grid.size.spec_house(),
            self.boxes.len() == self.grid.size.spec_house(),
        ensures
            r@ == self.rows[row_of(self.grid.size, index as nat) as int]@.union(
                self.cols[col_of(self.grid.size, index as nat) as int]@).union(
                self.boxes[box_of(self.grid.size, index as nat) as int]@),
    {
        let (row, col, box_num) = self.grid.calc_house(index);
        self.rows[row].union(self.cols[col]).union(self.boxes[box_num])
    }

    /// Whether the value of cell `index`, if any, is held by no other cell of its row,
    /// column and box.
    pub fn was_valid_entry(&self, index: usize) -> (r: bool)
        requires
            self.grid.wf(),
            index < self.grid.items.len(),
        ensures
            r == valid_entry(self.grid.items@, self.grid.size, index as int),
    {
        if self.grid.items[index].val().is_some() {
            self.grid.was_valid_entry(index)
        } else {
            true
        }
    }

    /// Checks for conflicts: `Ok` when every filled cell is a valid entry, else `Err` with
    /// the number of cells that are not.
    #[verifier::rlimit(30)]
    pub fn check_for_conflicts(&self) -> (r: Result<(), usize>)
        requires
            self.grid.wf(),
        ensures
            r is Ok <==> forall|i: int| 0 <= i < self.grid.items.len() ==> #[trigger] valid_entry(self.grid.items@, self.grid.size, i),
            r matches Err(c) ==> c == invalid_count(self.grid.items@, self.grid.size, self.grid.items.len() as nat),
    {
        let mut count: usize = 0;
        let n = self.grid.num_squares();
        for i in 0..n
            invariant
                n == self.grid.items.len(),
                self.grid.wf(),
                count == invalid_count(self.grid.items@, self.grid.size, i as nat),
        {
            proof { lemma_invalid_count(self.grid.items@, self.grid.size, i as nat); }
            if !self.was_valid_entry(i) {
                count = count + 1;
            }
        }
        proof { lemma_invalid_count(self.grid.items@, self.grid.size, n as nat); }
        if count == 0 {
            Ok(())
        } else {
            Err(count)
        }
    }
}

/// The cell made from input value `v` at index `k`: a given holding `v`, or an empty cell
/// that may hold any value of the puzzle.
pub open spec fn first_cell<V: BitSetInt>(sq: Square<V>, v: nat, size: SudokuSize, k: int) -> bool {
    &&& sq.wf()
    &&& sq.index == k
    &&& sq.flags.current.0.spec_nat() == 0
    &&& v <= size.spec_house()
    &&& v != 0 ==> (sq.value matches Some(b) && b@ == v) && sq.fixed && sq.flags.poss@ == Set::<nat>::empty()
        && sq.flags.original == Some(sq.flags.poss)
    &&& v == 0 ==> sq.value is None && !sq.fixed && sq.flags.poss@ == first_values(size.spec_house())
}

/// A cell of a new puzzle made from input value `v`: a given holding `v`, or an empty cell
/// whose possible values are those that its row, column and box do not hold.
pub open spec fn given_or_open<V: BitSetInt>(sq: Square<V>, v: nat, cells: Seq<Square<V>>, size: SudokuSize, k: nat) -> bool {
    &&& sq.wf()
    &&& sq.index == k
    &&& sq.flags.current.0.spec_nat() == 0
    &&& v != 0 ==> (sq.value matches Some(b) && b@ == v) && sq.fixed && sq.flags.poss@ == Set::<nat>::empty()
        && sq.flags.original == Some(sq.flags.poss)
    &&& v == 0 ==> sq.value is None && !sq.fixed
        && sq.flags.poss@ == first_values(size.spec_house()).difference(values_around(cells, size, k))
        && sq.flags.original == Some(sq.flags.poss)
}

/// Two givens (non-zero input values) of cells that share a house are equal.
pub open spec fn givens_clash(vals: Seq<nat>, size: SudokuSize) -> bool {
    exists|i: int, j: int| 0 <= i < vals.len() && 0 <= j < vals.len() && i != j && peers(size, i as nat, j as nat)
        && vals[i] != 0 && #[trigger] vals[i] == #[trigger] vals[j]
}

/// `g` fills every cell with a value of `1..=house`, keeps the givens (non-zero input values),
/// and no house of it holds a value twice.
pub open spec fn fits_givens<V: BitSetInt>(g: Grid<V>, vals: Seq<nat>, size: SudokuSize) -> bool {
    &&& g.size == size
    &&& g.items.len() == size.spec_total()
    &&& vals.len() == size.spec_total()
    &&& forall|i: int| 0 <= i < g.items.len() ==> 1 <= #[trigger] g.items[i].spec_nat() <= size.spec_house()
    &&& forall|i: int| 0 <= i < g.items.len() && #[trigger] vals[i] != 0 ==> g.items[i].spec_nat() == vals[i]
    &&& forall|i: int, j: int|
        0 <= i < g.items.len() && 0 <= j < g.items.len() && i != j && peers(size, i as nat, j as nat)
            ==> #[trigger] g.items[i].spec_nat() != #[trigger] g.items[j].spec_nat()
}

/// At least `n` different grids fit the givens.
pub open spec fn solutions_at_least<V: BitSetInt>(vals: Seq<nat>, size: SudokuSize, n: nat) -> bool {
    exists|s: Seq<Grid<V>>| s.len() == n && distinct_from(s, 0)
        && forall|k: int| 0 <= k < s.len() ==> fits_givens(#[trigger] s[k], vals, size)
}

/// The input values give cells of which some filled one is not a valid entry.
pub open spec fn conflicting_start<V: BitSetInt>(cells: Seq<Square<V>>, vals: Seq<nat>, size: SudokuSize) -> bool {
    &&& cells.len() == vals.len()
    &&& forall|k: int| 0 <= k < cells.len() ==> ((#[trigger] cells[k]).value matches Some(b) ==> b@ == vals[k])
    &&& forall|k: int| 0 <= k < cells.len() ==> ((#[trigger] cells[k]).value is None <==> vals[k] == 0)
    &&& exists|i: int| 0 <= i < cells.len() && !#[trigger] valid_entry(cells, size, i)
}

/// The values around a cell depend only on the values of the cells.
proof fn lemma_values_around_same<V: BitSetInt>(a: Seq<Square<V>>, b: Seq<Square<V>>, size: SudokuSize, k: nat)
    requires
        a.len() == b.len(),
        a.len() == size.spec_total(),
        k < size.spec_total(),
        forall|j: int| 0 <= j < a.len() ==> #[trigger] a[j].value == b[j].value,
    ensures
        values_around(a, size, k) == values_around(b, size, k),
{
    crate::grid::gridcoord::lemma_flat(size, k);
    crate::sudoku::state::lemma_box_place(size, k);
    let rs = house_cells(size, House::Row(row_of(size, k)));
    let cs = house_cells(size, House::Col(col_of(size, k)));
    let bs = house_cells(size, House::Box(box_of(size, k)));
    assert forall|j: int| 0 <= j < rs.len() implies #[trigger] rs[j] < size.spec_total() by {
        crate::grid::grid::lemma_house_cells(size, House::Row(row_of(size, k)), j);
    }
    assert forall|j: int| 0 <= j < cs.len() implies #[trigger] cs[j] < size.spec_total() by {
        crate::grid::grid::lemma_house_cells(size, House::Col(col_of(size, k)), j);
    }
    assert forall|j: int| 0 <= j < bs.len() implies #[trigger] bs[j] < size.spec_total() by {
        crate::grid::grid::lemma_house_cells(size, House::Box(box_of(size, k)), j);
    }
    lemma_values_at_same(a, b, rs);
    lemma_values_at_same(a, b, cs);
    lemma_values_at_same(a, b, bs);
}

/// The values held by some cells depend only on the values of the cells.
proof fn lemma_values_at_same<V: BitSetInt>(a: Seq<Square<V>>, b: Seq<Square<V>>, idxs: Seq<nat>)
    requires
        a.len() == b.len(),
        forall|j: int| 0 <= j < idxs.len() ==> #[trigger] idxs[j] < a.len(),
        forall|j: int| 0 <= j < a.len() ==> #[trigger] a[j].value == b[j].value,
    ensures
        values_at(a, idxs) == values_at(b, idxs),
    decreases idxs.len(),
{
    if idxs.len() > 0 {
        assert(idxs[idxs.len() - 1] < a.len());
        lemma_values_at_same(a, b, idxs.drop_last());
    }
}

impl<V: BitSetInt> Sudoku<V> {
    /// Creates a new puzzle, its size taken from the number of input values.  Takes a
    /// `&str` with empty squares as a 0 or any character that is not a digit, or a vector
    /// or slice of numbers.  A `SudError` is returned if the length of the input is invalid
    /// or a number exceeds the largest value of the puzzle.  The solutions are found by
    /// brute force.
    pub fn new<T: InitialInput<V>>(input: T) -> (r: Result<Sudoku<V>, SudError>)
        ensures
            SudokuSize::spec_from_length(input.spec_values().len()) is None && input.spec_values().len() <= usize::MAX
                ==> r == Err::<Sudoku<V>, SudError>(SudError::InputLengthError(input.spec_values().len() as usize)),
            SudokuSize::spec_from_length(input.spec_values().len()) matches Some(size) && size.spec_house() > V::width()
                ==> r == Err::<Sudoku<V>, SudError>(SudError::InvalidPuzzle),
            SudokuSize::spec_from_length(input.spec_values().len()) matches Some(size) && size.spec_house() <= V::width()
                && (exists|i: int| 0 <= i < input.spec_values().len() && #[trigger] input.spec_values()[i] > size.spec_house())
                ==> r matches Err(SudError::ValueNotPossible(_)),
            r matches Ok(s) ==> {
                &&& s.wf()
                &&& SudokuSize::spec_from_length(input.spec_values().len()) == Some(s.grid.size)
                &&& s.moves@.len() == 0
                &&& s.solution is NoSolution || s.solution is One || s.solution is Multi
                &&& solution_complete(s.solution, s.cells(), s.grid.size)
                &&& forall|i: int| 0 <= i < s.grid.items.len() ==> given_or_open(#[trigger] s.grid.items[i], input.spec_values()[i], s.cells(), s.grid.size, i as nat)
                &&& forall|i: int| 0 <= i < s.grid.items.len() ==> #[trigger] valid_entry(s.cells(), s.grid.size, i)
                &&& s.solution is One ==> keeps_solution(s)
            },
            SudokuSize::spec_from_length(input.spec_values().len()) matches Some(size) && size.spec_house() <= V::width()
                && (forall|i: int| 0 <= i < input.spec_values().len() ==> #[trigger] input.spec_values()[i] <= size.spec_house())
                ==> (r is Ok || r matches Err(SudError::IllegalOperation(_)) || r == Err::<Sudoku<V>, SudError>(SudError::ExcessiveSolutions(5))),
            ({
                let size = SudokuSize::spec_from_length(input.spec_values().len())->Some_0;
                SudokuSize::spec_from_length(input.spec_values().len()) is Some && size.spec_house() <= V::width()
                    && (forall|i: int| 0 <= i < input.spec_values().len() ==> #[trigger] input.spec_values()[i] <= size.spec_house())
                    ==> (r matches Err(SudError::IllegalOperation(_)) <==> givens_clash(input.spec_values(), size))
            }),
            r == Err::<Sudoku<V>, SudError>(SudError::ExcessiveSolutions(5)) ==> SudokuSize::spec_from_length(input.spec_values().len()) is Some
                && solutions_at_least::<V>(input.spec_values(), SudokuSize::spec_from_length(input.spec_values().len())->Some_0, 6),
    {
        let ghost vals = input.spec_values();
        let input_vec: Vec<V> = match input.initial() {
            Ok(v) => v,
            Err(e) => {
                return Err(e);
            },
        };
        let size = match SudokuSize::size_from_input_length(input_vec.len()) {
            Ok(s) => s,
            Err(e) => {
                return Err(e);
            },
        };
        proof {
            assert(input_vec.spec_values() =~= vals);
        }
        Self::new_with_size(input_vec, size)
    }
}

/// A copy of a list of sets.
fn copy_sets<V: BitSetInt>(v: &Vec<BitSet<V>>) -> (r: Vec<BitSet<V>>)
    ensures
        r@ == v@,
{
    let mut out: Vec<BitSet<V>> = Vec::new();
    for i in 0..v.len()
        invariant
            out@ == v@.subrange(0, i as int),
    {
        out.push(v[i]);
        proof { assert(out@ =~= v@.subrange(0, i + 1)); }
    }
    proof { assert(out@ =~= v@); }
    out
}

impl<V: BitSetInt> Sudoku<V> {
    /// A copy of the puzzle: its cells, trackers, moves, solutions and solver.
    pub fn clone_sudoku(&self) -> (r: Sudoku<V>)
        requires
            self.wf(),
        ensures
            r.wf(),
            r.cells() == self.cells(),
            r.grid.size == self.grid.size,
            r.unsolved == self.unsolved,
            r.rows@ == self.rows@,
            r.cols@ == self.cols@,
            r.boxes@ == self.boxes@,
            same_moves(r.moves@, self.moves@),
            same_solution(r.solution, self.solution),
            r.human_solver.methods@ == self.human_solver.methods@,
            r.saved == self.saved,
    {
        let r = Sudoku {
            grid: self.grid.clone_grid(),
            rows: copy_sets(&self.rows),
            cols: copy_sets(&self.cols),
            boxes: copy_sets(&self.boxes),
            unsolved: self.unsolved,
            moves: clone_moves(&self.moves),
            solution: self.solution.clone_solution(),
            human_solver: self.human_solver.clone_solver(),
            saved: Ghost(self.saved@),
        };
        proof {
            let size = self.grid.size;
            lemma_same_solution_solves(r.solution, self.solution, r.cells(), size);
            lemma_same_solution_complete(r.solution, self.solution, r.cells(), size);
            assert forall|k: int| 0 <= k < r.saved@.len() implies {
                &&& cells_ok((#[trigger] r.saved@[k]).0, size)
                &&& no_clash(r.saved@[k].0, size)
                &&& r.saved@[k].1 == empty_count(r.saved@[k].0)
                &&& solution_solves(r.solution, r.saved@[k].0, size)
                &&& solution_complete(r.solution, r.saved@[k].0, size)
                &&& undoes_to(r.after_move(k), r.moves@[k], r.saved@[k].0, size)
            } by {
                lemma_same_solution_solves(r.solution, self.solution, r.saved@[k].0, size);
                lemma_same_solution_complete(r.solution, self.solution, r.saved@[k].0, size);
                assert(r.after_move(k) == self.after_move(k));
                let a = r.after_move(k);
                let m1 = r.moves@[k];
                let m2 = self.moves@[k];
                assert(undoes_to(a, m2, r.saved@[k].0, size));
                assert forall|j: int| 0 <= j < a.len() implies #[trigger] crate::sudoku::state::restores(a[j], m1, j, r.saved@[k].0[j]) by {
                    assert(crate::sudoku::state::restores(a[j], m2, j, r.saved@[k].0[j]));
                }
            }
        }
        r
    }
}

/// The solver's first hints, made over and over from the puzzle, record `moves` and fill every
/// cell, with the values of `g`.
pub open spec fn human_run<V: BitSetInt>(methods: Seq<crate::human_calcs::technique::Technique>, puz: Sudoku<V>, g: Grid<V>, moves: Seq<Move<V>>) -> bool {
    exists|cells: Seq<Square<V>>| #[trigger] crate::human_calcs::humansolve::solver::solved_by_run(methods, puz, moves, cells)
        && g.items.len() == cells.len()
        && forall|j: int| 0 <= j < cells.len() ==> #[trigger] g.items[j].spec_nat() == crate::sudoku::access::value_of(cells[j])
}

/// A grid of values read off a solved grid of cells: the same size, each value that of its
/// cell, and the values of cells that were filled before solving.
pub open spec fn human_grid<V: BitSetInt>(puz: Sudoku<V>, g: Grid<V>) -> bool {
    &&& g.size == puz.grid.size
    &&& g.items.len() == puz.cells().len()
    &&& forall|j: int| 0 <= j < g.items.len() ==> 1 <= #[trigger] g.items[j].spec_nat() <= puz.grid.size.spec_house()
    &&& forall|j: int| 0 <= j < g.items.len() ==> ((#[trigger] puz.cells()[j]).value matches Some(b)
        ==> g.items[j].spec_nat() == b@)
}

/// A grid of cells all filled, without clashes, that keeps the givens of `cells`, holds a
/// solution of them.
proof fn lemma_filled_solves<V: BitSetInt>(sq: Seq<Square<V>>, r: Grid<V>, cells: Seq<Square<V>>, size: SudokuSize)
    requires
        cells_ok(sq, size),
        cells_ok(cells, size),
        no_clash(sq, size),
        r.size == size,
        r.items.len() == sq.len(),
        forall|j: int| 0 <= j < sq.len() ==> (#[trigger] sq[j]).value is Some,
        forall|j: int| 0 <= j < r.items.len() ==> #[trigger] r.items[j].spec_nat() == sq[j].value->Some_0@,
        forall|j: int| 0 <= j < cells.len() && (#[trigger] cells[j]).value is Some ==> sq[j].value == cells[j].value,
    ensures
        solves(r, cells, size),
{
    reveal(no_clash);
    assert forall|i: int| 0 <= i < r.items.len() implies 1 <= #[trigger] r.items[i].spec_nat() <= size.spec_house() by {
        assert(cell_ok(sq[i], i, size));
    }
    assert forall|i: int| 0 <= i < r.items.len() && (#[trigger] cells[i]).fixed implies (cells[i].value matches Some(b)
        && r.items[i].spec_nat() == b@) by {
        assert(cell_ok(cells[i], i, size));
    }
    assert forall|i: int, j: int|
        0 <= i < r.items.len() && 0 <= j < r.items.len() && i != j && peers(size, i as nat, j as nat)
        implies #[trigger] r.items[i].spec_nat() != #[trigger] r.items[j].spec_nat() by {
        let a = sq[i].value->Some_0;
        let b = sq[j].value->Some_0;
        assert(sq[j].value is Some);
        assert(sq[i].value != sq[j].value);
        assert(cell_ok(sq[i], i, size) && cell_ok(sq[j], j, size));
        if a@ == b@ {
            assert(a.0.spec_nat() == b.0.spec_nat());
            V::lemma_nat_inj(a.0, b.0);
        }
    }
}

impl<V: BitSetInt> Sudoku<V> {
    /// The values of a grid solved by the human solver.
    fn solved_values(&self, sq: &Grid<Square<V>>) -> (r: Grid<V>)
        requires
            self.wf(),
            sq.size == self.grid.size,
            cells_ok(sq.items@, sq.size),
            no_clash(sq.items@, sq.size),
            empty_count(sq.items@) == 0,
            forall|j: int| 0 <= j < self.cells().len() && (#[trigger] self.cells()[j]).value is Some
                ==> sq.items@[j].value == self.cells()[j].value,
        ensures
            human_grid(*self, r),
            solves(r, self.cells(), self.grid.size),
            r.items.len() == sq.items.len(),
            forall|j: int| 0 <= j < r.items.len() ==> #[trigger] r.items[j].spec_nat() == crate::sudoku::access::value_of(sq.items@[j]),
    {
        let r = sq.to_inner();
        proof {
            crate::sudoku::state::lemma_empty_count_zero(sq.items@);
            lemma_filled_solves(sq.items@, r, self.cells(), self.grid.size);
        }
        proof {
            crate::sudoku::state::lemma_empty_count_zero(sq.items@);
            assert forall|j: int| 0 <= j < r.items.len() implies 1 <= #[trigger] r.items[j].spec_nat() <= self.grid.size.spec_house() by {
                assert(cell_ok(sq.items@[j], j, sq.size));
                assert(sq.items@[j].value is Some);
            }
            assert forall|j: int| 0 <= j < r.items.len() implies ((#[trigger] self.cells()[j]).value matches Some(b)
                ==> r.items[j].spec_nat() == b@) by {
                if self.cells()[j].value is Some {
                    assert(sq.items@[j].value == self.cells()[j].value);
                }
            }
        }
        r
    }

    /// Solves the puzzle with `solver`: the grid of values and the moves made, or no solution
    /// when it fails.  With every technique in `solver`, a puzzle that can still take its
    /// unique solution (as one fresh from `new` with one solution can) is solved to it.
    pub fn human(&self, solver: &mut HumanSolver<V>) -> (r: Solution<V>)
        requires
            self.wf(),
        ensures
            *final(solver) == *old(solver),
            r is NoSolution || r is HumanSolved,
            r matches Solution::HumanSolved(g, moves) ==> human_grid(*self, g)
                && solves(g, self.cells(), self.grid.size)
                && (self.solution matches Solution::One(h) ==> same_entries(h, g))
                && crate::human_calcs::humansolve::solver::moves_named(old(solver).methods@, moves@),
            r matches Solution::HumanSolved(g, moves) ==> human_run(old(solver).methods@, *self, g, moves@),
            r is NoSolution ==> crate::human_calcs::humansolve::solver::stuck_run(old(solver).methods@, *self),
            old(solver).wf() && keeps_solution(*self) ==> (r matches Solution::HumanSolved(g, _)
                && same_entries(unique_grid(self.solution)->Some_0, g)),
    {
        match solver.solve(self) {
            Ok((sol, moves)) => {
                let g = self.solved_values(&sol);
                proof {
                    if solver.wf() && keeps_solution(*self) {
                        lemma_solved_same(*self, sol.items@, g);
                    }
                }
                Solution::HumanSolved(g, moves)
            },
            Err(_) => Solution::NoSolution,
        }
    }

    /// Solves the puzzle with its own human solver: the grid of values and the moves made.
    /// A puzzle that can still take its unique solution is solved to it.
    pub fn human_solve(&self) -> (r: Result<(Grid<V>, Vec<Move<V>>), SudError>)
        requires
            self.wf(),
        ensures
            r matches Ok(res) ==> human_grid(*self, res.0)
                && solves(res.0, self.cells(), self.grid.size)
                && (self.solution matches Solution::One(h) ==> same_entries(h, res.0))
                && crate::human_calcs::humansolve::solver::moves_named(self.human_solver.methods@, res.1@),
            r matches Err(e) ==> e == SudError::HumanSolveError,
            r matches Ok(res) ==> human_run(self.human_solver.methods@, *self, res.0, res.1@),
            r is Err ==> crate::human_calcs::humansolve::solver::stuck_run(self.human_solver.methods@, *self),
            keeps_solution(*self) ==> (r matches Ok(res) && same_entries(unique_grid(self.solution)->Some_0, res.0)),
    {
        match self.human_solver.solve(self) {
            Ok((sq, moves)) => {
                let g = self.solved_values(&sq);
                proof {
                    if keeps_solution(*self) {
                        lemma_solved_same(*self, sq.items@, g);
                    }
                }
                Ok((g, moves))
            },
            Err(e) => Err(e),
        }
    }
}

/// The values of cells filled as the unique solution fills them are those of the unique
/// solution.
proof fn lemma_solved_same<V: BitSetInt>(puz: Sudoku<V>, cells: Seq<Square<V>>, g: Grid<V>)
    requires
        puz.wf(),
        keeps_solution(puz),
        cells.len() == puz.cells().len(),
        filled_as(cells, unique_grid(puz.solution)->Some_0),
        g.items.len() == cells.len(),
        forall|j: int| 0 <= j < g.items.len() ==> #[trigger] g.items[j].spec_nat() == crate::sudoku::access::value_of(cells[j]),
    ensures
        same_entries(unique_grid(puz.solution)->Some_0, g),
{
    let u = unique_grid(puz.solution)->Some_0;
    lemma_unique_solves(puz);
    assert forall|i: int| 0 <= i < u.items.len() implies #[trigger] u.items[i].spec_nat() == g.items[i].spec_nat() by {
        assert(cells[i] == cells[i]);
        assert(g.items[i].spec_nat() == crate::sudoku::access::value_of(cells[i]));
    }
}

/// The values of the cells, zero for an empty cell.
pub open spec fn cell_values<V: BitSetInt>(cells: Seq<Square<V>>) -> Seq<nat> {
    Seq::new(cells.len(), |i: int| crate::sudoku::access::value_of(cells[i]))
}

/// Both have the same size and the same values in the same cells.
pub open spec fn same_values_as<V: BitSetInt>(a: Sudoku<V>, b: Sudoku<V>) -> bool {
    &&& a.grid.size == b.grid.size
    &&& a.cells().len() == b.cells().len()
    &&& forall|i: int| 0 <= i < a.cells().len() ==> (#[trigger] a.cells()[i]).value == b.cells()[i].value
}

impl<V: BitSetInt> Sudoku<V> {
    /// The values of the cells turned clockwise `quarter_rotations` quarters.
    pub fn rotated_values(&self, quarter_rotations: usize) -> (r: Vec<V>)
        requires
            self.wf(),
        ensures
            r.len() == self.cells().len(),
            forall|i: int| 0 <= i < r.len() ==> #[trigger] r[i].spec_nat()
                == turned(cell_values(self.cells()), self.grid.size.spec_house(), quarter_rotations as nat)[i],
    {
        let vals = self.value_iter();
        let ghost h = self.grid.size.spec_house();
        proof {
            self.grid.size.lemma_sizes();
        }
        let r = turn_items(&vals, self.grid.size, quarter_rotations);
        proof {
            let f = |x: V| x.spec_nat();
            assert(vals@.map_values(f) =~= cell_values(self.cells()));
            lemma_turned_map(vals@, h, quarter_rotations as nat, f);
            lemma_turned_len(vals@, h, quarter_rotations as nat);
            assert forall|i: int| 0 <= i < r.len() implies #[trigger] r[i].spec_nat()
                == turned(cell_values(self.cells()), h, quarter_rotations as nat)[i] by {
                assert(turned(vals@, h, quarter_rotations as nat).map_values(f)[i] == f(turned(vals@, h, quarter_rotations as nat)[i]));
            }
        }
        r
    }

    /// Whether both have the same size and the same values in the same cells.
    pub fn same_values(&self, other: &Sudoku<V>) -> (r: bool)
        ensures
            r == same_values_as(*self, *other),
    {
        if self.grid.size != other.grid.size || self.grid.items.len() != other.grid.items.len() {
            return false;
        }
        for i in 0..self.grid.items.len()
            invariant
                self.grid.size == other.grid.size,
                self.grid.items.len() == other.grid.items.len(),
                forall|k: int| 0 <= k < i ==> (#[trigger] self.cells()[k]).value == other.cells()[k].value,
        {
            if !self.grid.items[i].same_value(&other.grid.items[i]) {
                return false;
            }
        }
        true
    }
}

impl<V: BitSetInt> PartialEq for Sudoku<V> {
    fn eq(&self, other: &Sudoku<V>) -> (r: bool) {
        self.same_values(other)
    }
}

impl<V: BitSetInt> vstd::std_specs::cmp::PartialEqSpecImpl for Sudoku<V> {
    open spec fn obeys_eq_spec() -> bool {
        true
    }

    open spec fn eq_spec(&self, other: &Sudoku<V>) -> bool {
        same_values_as(*self, *other)
    }
}

impl<V: BitSetInt> Rotate for Sudoku<V> {
    type PuzzleInp = Sudoku<V>;

    open spec fn spec_turnable(&self) -> bool {
        self.wf()
    }

    /// A new puzzle of the values turned clockwise `quarter_rotations` quarters.
    fn cwrotate(self, quarter_rotations: usize) -> (r: Result<Sudoku<V>, SudError>)
        ensures
            r matches Ok(s) ==> s.wf() && s.grid.size == self.grid.size
                && cell_values(s.cells()) == turned(cell_values(self.cells()), self.grid.size.spec_house(), quarter_rotations as nat),
            r is Err ==> r matches Err(SudError::IllegalOperation(_)) || r == Err::<Sudoku<V>, SudError>(SudError::ExcessiveSolutions(5)),
            r matches Err(SudError::IllegalOperation(_)) ==> exists|s: Seq<Square<V>>| conflicting_start(s,
                turned(cell_values(self.cells()), self.grid.size.spec_house(), quarter_rotations as nat), self.grid.size),
    {
        let size = self.sudoku_size();
        let ret = self.rotated_values(quarter_rotations);
        let ghost t = turned(cell_values(self.cells()), size.spec_house(), quarter_rotations as nat);
        proof {
            size.lemma_sizes();
            let cv = cell_values(self.cells());
            assert forall|i: int| 0 <= i < cv.len() implies #[trigger] cv[i] <= size.spec_house() by {
                assert(crate::sudoku::state::cell_ok(self.cells()[i], i, size));
            }
            lemma_turned_bounded(cv, size.spec_house(), quarter_rotations as nat, size.spec_house());
            lemma_turned_len(cv, size.spec_house(), quarter_rotations as nat);
            assert(ret.spec_values() =~= t);
        }
        let r = Sudoku::new_with_size(ret, size);
        proof {
            if r is Ok {
                let s = r->Ok_0;
                let t = turned(cell_values(self.cells()), size.spec_house(), quarter_rotations as nat);
                lemma_turned_len(cell_values(self.cells()), size.spec_house(), quarter_rotations as nat);
                assert forall|i: int| 0 <= i < s.cells().len() implies #[trigger] cell_values(s.cells())[i] == t[i] by {
                    assert(given_or_open(s.grid.items[i], ret@[i].spec_nat(), s.cells(), size, i as nat));
                }
                assert(cell_values(s.cells()) =~= t);
            }
        }
        r
    }
}

} // verus!
