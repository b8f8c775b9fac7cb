use vstd::prelude::*;
use crate::bitset::traits::BitSetInt;
use crate::errors::SudError;
use crate::grid::grid::Grid;
use crate::move_change::Move;

verus! {

/// The solutions of a puzzle: none, not looked for yet, exactly one, several, or the one
/// found by human techniques together with the moves that found it.
#[derive(Debug, Clone)]
pub enum Solution<T: BitSetInt> {
    /// No solution
    NoSolution,
    /// No solution solving method has been applied yet
    NotSet,
    One(Grid<T>),
    Multi(Vec<Grid<T>>),
    /// Solved by human solving techniques. This finds the first solution and does not look for others.
    HumanSolved(Grid<T>, Vec<Move<T>>),
}

impl<T: BitSetInt> Solution<T> {
    /// Returns the number of solutions.
    pub fn num_solutions(&self) -> (r: Result<usize, SudError>)
        ensures
            match *self {
                Solution::NoSolution => r == Ok::<usize, SudError>(0),
                Solution::One(_) => r == Ok::<usize, SudError>(1),
                Solution::Multi(v) => r == Ok::<usize, SudError>(v.len()),
                Solution::HumanSolved(_, _) => r == Ok::<usize, SudError>(1),
                Solution::NotSet => r == Err::<usize, SudError>(SudError::HasNotBeenSolved),
            },
    {
        match self {
            Solution::NoSolution => Ok(0),
            Solution::One(_) => Ok(1),
            Solution::Multi(v) => Ok(v.len()),
            Solution::HumanSolved(_, _) => Ok(1),
            Solution::NotSet => Err(SudError::HasNotBeenSolved),
        }
    }

    /// Returns a copy of the unique solution, or why there is none.
    pub fn get(&self) -> (r: Result<Grid<T>, SudError>)
        ensures
            match *self {
                Solution::One(g) => r matches Ok(c) && c.items@ == g.items@ && c.size == g.size,
                Solution::HumanSolved(g, _) => r matches Ok(c) && c.items@ == g.items@ && c.size == g.size,
                Solution::NotSet => r == Err::<Grid<T>, SudError>(SudError::HasNotBeenSolved),
                Solution::NoSolution => r == Err::<Grid<T>, SudError>(SudError::NoSolution),
                Solution::Multi(v) => r == Err::<Grid<T>, SudError>(SudError::MultipleSolution(v.len())),
            },
    {
        match self {
            Solution::One(g) => Ok(g.clone_grid()),
            Solution::HumanSolved(g, _) => Ok(g.clone_grid()),
            Solution::NotSet => Err(SudError::HasNotBeenSolved),
            Solution::NoSolution => Err(SudError::NoSolution),
            Solution::Multi(g) => Err(SudError::MultipleSolution(g.len())),
        }
    }

    /// Whether the two are the same kind of solution; the grids are not compared.
    pub fn same_kind(&self, other: &Self) -> (r: bool)
        ensures
            r == same_variant(*self, *other),
    {
        match self {
            Solution::NoSolution => matches!(other, Solution::NoSolution),
            Solution::NotSet => matches!(other, Solution::NotSet),
            Solution::One(_) => matches!(other, Solution::One(_)),
            Solution::Multi(_) => matches!(other, Solution::Multi(_)),
            Solution::HumanSolved(_, _) => matches!(other, Solution::HumanSolved(_, _)),
        }
    }
}

/// Two solutions of the same variant.
pub open spec fn same_variant<T: BitSetInt>(a: Solution<T>, b: Solution<T>) -> bool {
    match a {
        Solution::NoSolution => b is NoSolution,
        Solution::NotSet => b is NotSet,
        Solution::One(_) => b is One,
        Solution::Multi(_) => b is Multi,
        Solution::HumanSolved(_, _) => b is HumanSolved,
    }
}

impl<T: BitSetInt> PartialEq for Solution<T> {
    fn eq(&self, other: &Self) -> (r: bool) {
        self.same_kind(other)
    }
}

impl<T: BitSetInt> vstd::std_specs::cmp::PartialEqSpecImpl for Solution<T> {
    open spec fn obeys_eq_spec() -> bool {
        true
    }

    open spec fn eq_spec(&self, other: &Self) -> bool {
        same_variant(*self, *other)
    }
}

/// Two grids that hold the same values at the same size.
pub open spec fn same_grid<T: BitSetInt>(a: Grid<T>, b: Grid<T>) -> bool {
    a.items@ == b.items@ && a.size == b.size
}

/// Two lists of moves that record the same moves.
pub open spec fn same_moves<T: BitSetInt>(a: Seq<Move<T>>, b: Seq<Move<T>>) -> bool {
    &&& a.len() == b.len()
    &&& forall|k: int| 0 <= k < a.len() ==> {
        &&& (#[trigger] a[k]).method == b[k].method
        &&& a[k].manual == b[k].manual
        &&& a[k].value_set == b[k].value_set
        &&& a[k].used_to_solve@ == b[k].used_to_solve@
        &&& a[k].removed_potentials@ == b[k].removed_potentials@
    }
}

/// Two solutions of the same variant holding the same grids (and moves).
pub open spec fn same_solution<T: BitSetInt>(a: Solution<T>, b: Solution<T>) -> bool {
    match (a, b) {
        (Solution::NoSolution, Solution::NoSolution) => true,
        (Solution::NotSet, Solution::NotSet) => true,
        (Solution::One(g), Solution::One(h)) => same_grid(g, h),
        (Solution::Multi(v), Solution::Multi(w)) => v.len() == w.len()
            && forall|k: int| 0 <= k < v.len() ==> same_grid(#[trigger] v[k], w[k]),
        (Solution::HumanSolved(g, m), Solution::HumanSolved(h, n)) => same_grid(g, h) && same_moves(m@, n@),
        _ => false,
    }
}

/// A copy of the moves.
pub fn clone_moves<T: BitSetInt>(v: &Vec<Move<T>>) -> (r: Vec<Move<T>>)
    ensures
        same_moves(r@, v@),
{
    let mut out: Vec<Move<T>> = Vec::new();
    for i in 0..v.len()
        invariant
            out.len() == i,
            i <= v.len(),
            forall|k: int| 0 <= k < i ==> {
                &&& (#[trigger] out@[k]).method == v@[k].method
                &&& out@[k].manual == v@[k].manual
                &&& out@[k].value_set == v@[k].value_set
                &&& out@[k].used_to_solve@ == v@[k].used_to_solve@
                &&& out@[k].removed_potentials@ == v@[k].removed_potentials@
            },
    {
        out.push(v[i].clone_move());
    }
    out
}

impl<T: BitSetInt> Solution<T> {
    /// A copy of the solution.
    pub fn clone_solution(&self) -> (r: Solution<T>)
        ensures
            same_solution(r, *self),
    {
        match self {
            Solution::NoSolution => Solution::NoSolution,
            Solution::NotSet => Solution::NotSet,
            Solution::One(g) => Solution::One(g.clone_grid()),
            Solution::Multi(v) => {
                let mut out: Vec<Grid<T>> = Vec::new();
                for i in 0..v.len()
                    invariant
                        out.len() == i,
                        i <= v.len(),
                        forall|k: int| 0 <= k < i ==> same_grid(#[trigger] out@[k], v@[k]),
                {
                    out.push(v[i].clone_grid());
                }
                Solution::Multi(out)
            },
            Solution::HumanSolved(g, m) => Solution::HumanSolved(g.clone_grid(), clone_moves(m)),
        }
    }
}

} // verus!
