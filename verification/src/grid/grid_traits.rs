//! Traits of grids and puzzles.
use vstd::prelude::*;
use crate::errors::SudError;
use crate::grid::grid::Grid;
use crate::sudokusize::SudokuSize;

verus! {

/// A grid of cells.
pub trait GridTrait {}

impl<T> GridTrait for Grid<T> {}

/// A puzzle that can be turned a quarter clockwise.
pub trait Rotate: Sized {
    type PuzzleInp;

    /// The puzzle can be turned.
    spec fn spec_turnable(&self) -> bool;

    /// The puzzle turned clockwise `quarter_rotations` quarters.
    fn cwrotate(self, quarter_rotations: usize) -> (r: Result<Self::PuzzleInp, SudError>)
        requires
            self.spec_turnable(),
    ;
}

/// The items turned a quarter clockwise: the cell at row `r` and column `c` gets the item of
/// row `h - 1 - c`, column `r`.
pub open spec fn quarter_turn<S>(vals: Seq<S>, h: nat) -> Seq<S> {
    Seq::new(vals.len(), |i: int| vals[(h - 1 - i % (h as int)) * h + i / (h as int)])
}

/// The items turned clockwise `k` quarters.
pub open spec fn turned<S>(vals: Seq<S>, h: nat, k: nat) -> Seq<S>
    decreases k,
{
    if k == 0 {
        vals
    } else {
        quarter_turn(turned(vals, h, (k - 1) as nat), h)
    }
}

/// Turning keeps the count of items.
pub proof fn lemma_turned_len<S>(vals: Seq<S>, h: nat, k: nat)
    ensures
        turned(vals, h, k).len() == vals.len(),
    decreases k,
{
    if k > 0 {
        lemma_turned_len(vals, h, (k - 1) as nat);
    }
}

/// Turning keeps a bound on the items.
pub proof fn lemma_turned_bounded(vals: Seq<nat>, h: nat, k: nat, bound: nat)
    requires
        vals.len() == h * h,
        h >= 1,
        forall|i: int| 0 <= i < vals.len() ==> #[trigger] vals[i] <= bound,
    ensures
        forall|i: int| 0 <= i < turned(vals, h, k).len() ==> #[trigger] turned(vals, h, k)[i] <= bound,
    decreases k,
{
    lemma_turned_len(vals, h, k);
    if k > 0 {
        let t = turned(vals, h, (k - 1) as nat);
        lemma_turned_bounded(vals, h, (k - 1) as nat, bound);
        lemma_turned_len(vals, h, (k - 1) as nat);
        assert forall|i: int| 0 <= i < t.len() implies #[trigger] quarter_turn(t, h)[i] <= bound by {
            let hh = h as int;
            let d = i / hh;
            let m = i % hh;
            vstd::arithmetic::div_mod::lemma_fundamental_div_mod(i, hh);
            vstd::arithmetic::div_mod::lemma_mod_bound(i, hh);
            assert(d < hh) by (nonlinear_arith)
                requires
                    d * hh + m == i,
                    hh * (d - 0) == d * hh,
                    i < hh * hh,
                    0 <= m,
                    hh > 0,
            {
                if d >= hh {
                    assert(d * hh >= hh * hh);
                }
            }
            assert(0 <= d);
            let j = (hh - 1 - m) * hh + d;
            assert(0 <= j < hh * hh) by (nonlinear_arith)
                requires
                    0 <= m < hh,
                    0 <= d < hh,
                    j == (hh - 1 - m) * hh + d,
            {}
            assert(quarter_turn(t, h)[i] == t[j]);
        }
    }
}

/// Turning the images of the items gives the images of the turned items.
pub proof fn lemma_turned_map<S, T>(vals: Seq<S>, h: nat, k: nat, f: spec_fn(S) -> T)
    requires
        vals.len() == h * h,
        h >= 1,
    ensures
        turned(vals.map_values(f), h, k) == turned(vals, h, k).map_values(f),
    decreases k,
{
    if k > 0 {
        lemma_turned_map(vals, h, (k - 1) as nat, f);
        lemma_turned_len(vals, h, (k - 1) as nat);
        let t = turned(vals, h, (k - 1) as nat);
        assert forall|i: int| 0 <= i < vals.len() implies #[trigger] quarter_turn(t.map_values(f), h)[i]
            == quarter_turn(t, h).map_values(f)[i] by {
            crate::grid::arith::lemma_unflat(h, i as nat);
            crate::grid::arith::lemma_flat_bound(h, (h - 1 - i % (h as int)) as nat, (i / (h as int)) as nat);
        }
        assert(quarter_turn(t.map_values(f), h) =~= quarter_turn(t, h).map_values(f));
    }
}

/// The items turned clockwise `quarter_rotations` quarters.
pub fn turn_items<S: Copy>(items: &Vec<S>, size: SudokuSize, quarter_rotations: usize) -> (r: Vec<S>)
    requires
        items.len() == size.spec_total(),
    ensures
        r@ == turned(items@, size.spec_house(), quarter_rotations as nat),
{
    let house = size.house_size();
    let total = size.total();
    let mut ret: Vec<S> = Vec::new();
    for k in 0..items.len()
        invariant
            ret@ == items@.subrange(0, k as int),
    {
        ret.push(items[k]);
        proof { assert(ret@ =~= items@.subrange(0, k + 1)); }
    }
    proof {
        assert(ret@ =~= items@);
        size.lemma_sizes();
    }
    for q in 0..quarter_rotations
        invariant
            house == size.spec_house(),
            total == size.spec_total(),
            total == house * house,
            house >= 1,
            total <= 10000,
            ret@ == turned(items@, house as nat, q as nat),
            items.len() == total,
    {
        proof { lemma_turned_len(items@, house as nat, q as nat); }
        let mut next: Vec<S> = Vec::new();
        for i in 0..total
            invariant
                house == size.spec_house(),
                total == size.spec_total(),
                total == house * house,
                house >= 1,
                total <= 10000,
                ret.len() == total,
                next.len() == i,
                forall|k: int| 0 <= k < i ==> #[trigger] next@[k] == quarter_turn(ret@, house as nat)[k],
        {
            let r = i / house;
            let c = i % house;
            proof {
                crate::grid::arith::lemma_unflat(house as nat, i as nat);
                crate::grid::gridcoord::lemma_rc(size, (house - 1 - c) as nat, r as nat);
            }
            let src = crate::grid::types::Coord::new(house - 1 - c, r, size).to_usize();
            next.push(ret[src]);
        }
        proof {
            assert(next@ =~= quarter_turn(ret@, house as nat));
        }
        ret = next;
    }
    ret
}

impl<'a, S: Copy> Rotate for &'a Grid<S> {
    type PuzzleInp = Grid<S>;

    open spec fn spec_turnable(&self) -> bool {
        self.items.len() == self.size.spec_total()
    }

    /// A new grid of the items turned clockwise `quarter_rotations` quarters.
    fn cwrotate(self, quarter_rotations: usize) -> (r: Result<Grid<S>, SudError>)
        ensures
            r matches Ok(g) ==> g.size == self.size && g.items@ == turned(self.items@, self.size.spec_house(), quarter_rotations as nat),
            r is Ok,
    {
        Ok(Grid::new(turn_items(&self.items, self.size, quarter_rotations), self.size))
    }
}

} // verus!
