use vstd::prelude::*;

use crate::coords::block::Block;

verus! {

/// The sum of `a(k)` for `k` in `0..n`.
pub open spec fn total(a: spec_fn(int) -> int, n: int) -> int
    decreases n,
{
    if n <= 0 {
        0
    } else {
        total(a, n - 1) + a(n - 1)
    }
}

/// One for a set block, zero for a clear one.
pub open spec fn ind(b: Block) -> int {
    if b is Filled {
        1
    } else {
        0
    }
}

/// The set blocks of row `r` among its first `nc` columns.
pub open spec fn row_count(g: spec_fn(int, int) -> Block, r: int, nc: int) -> int {
    total(|j: int| ind(g(r, j)), nc)
}

/// The set blocks of the first `nr` rows, each of `nc` columns.
pub open spec fn grid_count(g: spec_fn(int, int) -> Block, nr: int, nc: int) -> int {
    total(|i: int| row_count(g, i, nc), nr)
}

/// The set blocks of row `r`, among its first `c` columns, as
/// (column, row, id), from the left.
pub open spec fn row_scan(g: spec_fn(int, int) -> Block, r: int, c: int) -> Seq<(u8, u8, u8)>
    decreases c,
{
    if c <= 0 {
        Seq::empty()
    } else {
        let s = row_scan(g, r, c - 1);
        match g(r, c - 1) {
            Block::Filled(id) => s.push(((c - 1) as u8, r as u8, id)),
            Block::Clear => s,
        }
    }
}

/// The set blocks of the first `nr` rows, each of `nc` columns, as
/// (column, row, id), row by row from the top.
pub open spec fn scan(g: spec_fn(int, int) -> Block, nr: int, nc: int) -> Seq<(u8, u8, u8)>
    decreases nr,
{
    if nr <= 0 {
        Seq::empty()
    } else {
        scan(g, nr - 1, nc) + row_scan(g, nr - 1, nc)
    }
}

pub proof fn lemma_total_ext(a: spec_fn(int) -> int, b: spec_fn(int) -> int, n: int)
    requires
        forall|k: int| 0 <= k < n ==> #[trigger] a(k) == b(k),
    ensures
        total(a, n) == total(b, n),
    decreases n,
{
    if n > 0 {
        lemma_total_ext(a, b, n - 1);
    }
}

pub proof fn lemma_total_nonneg(a: spec_fn(int) -> int, n: int)
    requires
        forall|k: int| 0 <= k < n ==> #[trigger] a(k) >= 0,
    ensures
        total(a, n) >= 0,
    decreases n,
{
    if n > 0 {
        lemma_total_nonneg(a, n - 1);
    }
}

proof fn lemma_total_add(a: spec_fn(int) -> int, b: spec_fn(int) -> int, n: int)
    ensures
        total(|k: int| a(k) + b(k), n) == total(a, n) + total(b, n),
    decreases n,
{
    if n > 0 {
        lemma_total_add(a, b, n - 1);
    }
}

proof fn lemma_total_zero(n: int)
    ensures
        total(|k: int| 0int, n) == 0,
    decreases n,
{
    if n > 0 {
        lemma_total_zero(n - 1);
    }
}

/// The sum of the first `n + 1` terms is the first term plus the sum of
/// the others.
proof fn lemma_total_shift(a: spec_fn(int) -> int, n: int)
    requires
        n >= 0,
    ensures
        total(a, n + 1) == a(0) + total(|k: int| a(k + 1), n),
    decreases n,
{
    let a1 = |k: int| a(k + 1);
    if n > 0 {
        lemma_total_shift(a, n - 1);
        assert(total(a1, n) == total(a1, n - 1) + a1(n - 1));
        assert(total(a, n + 1) == total(a, n) + a(n));
    } else {
        assert(total(a, 1) == total(a, 0) + a(0));
        assert(total(a1, 0) == 0);
    }
}

/// Summing in the reverse order gives the same sum.
pub proof fn lemma_total_rev(a: spec_fn(int) -> int, b: spec_fn(int) -> int, n: int)
    requires
        forall|k: int| 0 <= k < n ==> #[trigger] b(k) == a(n - 1 - k),
    ensures
        total(b, n) == total(a, n),
    decreases n,
{
    if n > 0 {
        let a1 = |k: int| a(k + 1);
        assert forall|k: int| 0 <= k < n - 1 implies #[trigger] b(k) == a1((n - 1) - 1 - k) by {
            assert(b(k) == a(n - 1 - k));
        }
        lemma_total_rev(a1, b, n - 1);
        lemma_total_shift(a, n - 1);
        assert(b(n - 1) == a(0));
    }
}

/// A double sum can be taken in either order.
pub proof fn lemma_total_swap(f: spec_fn(int, int) -> int, nr: int, nc: int)
    requires
        nr >= 0,
        nc >= 0,
    ensures
        total(|i: int| total(|j: int| f(i, j), nc), nr) == total(|j: int| total(|i: int| f(i, j), nr), nc),
    decreases nr,
{
    if nr == 0 {
        lemma_total_ext(|j: int| total(|i: int| f(i, j), 0), |k: int| 0int, nc);
        lemma_total_zero(nc);
    } else {
        lemma_total_swap(f, nr - 1, nc);
        let a = |j: int| total(|i: int| f(i, j), nr - 1);
        let b = |j: int| f(nr - 1, j);
        lemma_total_ext(|j: int| total(|i: int| f(i, j), nr), |k: int| a(k) + b(k), nc);
        lemma_total_add(a, b, nc);
    }
}

/// A scan lists exactly the set blocks it passes.
pub proof fn lemma_scan_len(g: spec_fn(int, int) -> Block, nr: int, nc: int)
    requires
        nr >= 0,
        nc >= 0,
    ensures
        scan(g, nr, nc).len() == grid_count(g, nr, nc),
    decreases nr,
{
    if nr > 0 {
        lemma_scan_len(g, nr - 1, nc);
        lemma_row_scan_len(g, nr - 1, nc);
    }
}

pub proof fn lemma_row_scan_len(g: spec_fn(int, int) -> Block, r: int, c: int)
    requires
        c >= 0,
    ensures
        row_scan(g, r, c).len() == row_count(g, r, c),
    decreases c,
{
    if c > 0 {
        lemma_row_scan_len(g, r, c - 1);
    }
}

/// Reading the grid across instead of down counts the same blocks.
pub proof fn lemma_count_transpose(g: spec_fn(int, int) -> Block, gt: spec_fn(int, int) -> Block, nr: int, nc: int)
    requires
        nr >= 0,
        nc >= 0,
        forall|i: int, j: int| 0 <= i < nc && 0 <= j < nr ==> #[trigger] gt(i, j) == g(j, i),
    ensures
        grid_count(gt, nc, nr) == grid_count(g, nr, nc),
{
    let f = |i: int, j: int| ind(g(i, j));
    lemma_total_swap(f, nr, nc);
    assert forall|j: int| 0 <= j < nc implies total(|i: int| f(i, j), nr) == row_count(gt, j, nr) by {
        lemma_total_ext(|i: int| f(i, j), |i: int| ind(gt(j, i)), nr);
    }
    lemma_total_ext(|j: int| total(|i: int| f(i, j), nr), |j: int| row_count(gt, j, nr), nc);
    assert forall|i: int| 0 <= i < nr implies total(|j: int| f(i, j), nc) == row_count(g, i, nc) by {
        lemma_total_ext(|j: int| f(i, j), |j: int| ind(g(i, j)), nc);
    }
    lemma_total_ext(|i: int| total(|j: int| f(i, j), nc), |i: int| row_count(g, i, nc), nr);
}

/// Reading the grid turned half around counts the same blocks.
pub proof fn lemma_count_reverse(g: spec_fn(int, int) -> Block, gr: spec_fn(int, int) -> Block, nr: int, nc: int)
    requires
        nr >= 0,
        nc >= 0,
        forall|i: int, j: int| 0 <= i < nr && 0 <= j < nc ==> #[trigger] gr(i, j) == g(nr - 1 - i, nc - 1 - j),
    ensures
        grid_count(gr, nr, nc) == grid_count(g, nr, nc),
{
    assert forall|i: int| 0 <= i < nr implies row_count(gr, i, nc) == row_count(g, nr - 1 - i, nc) by {
        lemma_total_rev(|j: int| ind(g(nr - 1 - i, j)), |j: int| ind(gr(i, j)), nc);
    }
    lemma_total_rev(|i: int| row_count(g, i, nc), |i: int| row_count(gr, i, nc), nr);
}

} // verus!
