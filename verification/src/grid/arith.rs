//! Index arithmetic of square grids.
use vstd::prelude::*;
use vstd::arithmetic::div_mod::{lemma_fundamental_div_mod, lemma_fundamental_div_mod_converse};

verus! {

/// A row and column below `n` give a flat index below `n * n`.
pub proof fn lemma_flat_bound(n: nat, r: nat, c: nat)
    requires
        r < n,
        c < n,
    ensures
        r * n + c < n * n,
{
    assert(r * n + c < n * n) by (nonlinear_arith)
        requires
            r < n,
            c < n,
    ;
}

/// Splitting `x * n + y` with `y < n` by `n` gives back `x` and `y`.
pub proof fn lemma_split(n: nat, x: nat, y: nat)
    requires
        y < n,
    ensures
        (x * n + y) / n == x,
        (x * n + y) % n == y,
{
    lemma_fundamental_div_mod_converse((x * n + y) as int, n as int, x as int, y as int);
}

/// Splitting a flat index below `n * n` into row and column.
pub proof fn lemma_unflat(n: nat, i: nat)
    requires
        i < n * n,
    ensures
        i / n < n,
        i % n < n,
        (i / n) * n + i % n == i,
{
    lemma_fundamental_div_mod(i as int, n as int);
    assert((i / n) * n == n * (i / n)) by (nonlinear_arith);
    if i / n >= n {
        assert((i / n) * n >= n * n) by (nonlinear_arith)
            requires
                i / n >= n,
        ;
    }
}

/// The row and column of offset `i` in box `b` stay below `h == w * w`.
pub proof fn lemma_box_bound(w: nat, h: nat, b: nat, i: nat)
    requires
        w > 0,
        h == w * w,
        b < h,
        i < h,
    ensures
        (b / w) * w + i / w < h,
        (b % w) * w + i % w < h,
        (i % w) * w + b % w < h,
        b / w < w,
        i / w < w,
        (b / w) * w <= h,
        (b % w) * w <= h,
        (i % w) * w <= h,
{
    lemma_unflat(w, b);
    lemma_unflat(w, i);
    lemma_flat_bound(w, b / w, i / w);
    lemma_flat_bound(w, b % w, i % w);
    lemma_flat_bound(w, i % w, b % w);
}

} // verus!
