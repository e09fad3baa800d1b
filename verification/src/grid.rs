//! Row-major cell numbering on a `width` x `height` grid and the arithmetic
//! facts about it that the rest of the crate relies on.

use vstd::prelude::*;

verus! {

/// The row-major number of the cell in column `x`, row `y`.
pub open spec fn idx(w: int, x: int, y: int) -> int {
    y * w + x
}

/// The cell at column `x`, row `y` lies on a `w` x `h` grid.
pub open spec fn in_grid(w: int, h: int, x: int, y: int) -> bool {
    0 <= x < w && 0 <= y < h
}

/// A cell on the grid has a number below `w * h`.
pub proof fn lemma_idx_bounds(w: int, h: int, x: int, y: int)
    requires
        in_grid(w, h, x, y),
    ensures
        0 <= idx(w, x, y) < w * h,
        idx(w, x, y) + 1 <= w * h,
        0 <= y * w <= idx(w, x, y),
{
    assert(0 <= y * w <= y * w + x < w * h) by (nonlinear_arith)
        requires
            0 <= x < w,
            0 <= y < h,
    ;
}

/// The bottom-right cell has the last number.
pub proof fn lemma_last_idx(w: int, h: int)
    requires
        w >= 1,
        h >= 1,
    ensures
        idx(w, w - 1, h - 1) == w * h - 1,
{
    assert((h - 1) * w + (w - 1) == w * h - 1) by (nonlinear_arith);
}

/// Two cells of a grid of width `w` with the same number are the same cell.
pub proof fn lemma_idx_injective(w: int, x1: int, y1: int, x2: int, y2: int)
    requires
        0 <= x1 < w,
        0 <= x2 < w,
        0 <= y1,
        0 <= y2,
        idx(w, x1, y1) == idx(w, x2, y2),
    ensures
        x1 == x2,
        y1 == y2,
{
    assert(y1 == y2) by (nonlinear_arith)
        requires
            0 <= x1 < w,
            0 <= x2 < w,
            0 <= y1,
            0 <= y2,
            y1 * w + x1 == y2 * w + x2,
    ;
}

/// How many entries of `s` are `true`.
pub open spec fn count_true(s: Seq<bool>) -> nat
    decreases s.len(),
{
    if s.len() == 0 {
        0
    } else {
        count_true(s.drop_last()) + if s.last() {
            1nat
        } else {
            0nat
        }
    }
}

pub proof fn lemma_count_true_bounds(s: Seq<bool>)
    ensures
        count_true(s) <= s.len(),
        (forall|i: int| 0 <= i < s.len() ==> s[i]) ==> count_true(s) == s.len(),
        (forall|i: int| 0 <= i < s.len() ==> !s[i]) ==> count_true(s) == 0,
    decreases s.len(),
{
    if s.len() > 0 {
        lemma_count_true_bounds(s.drop_last());
    }
}

/// Turning one `false` entry to `true` raises the count by one.
pub proof fn lemma_count_true_set(s: Seq<bool>, i: int)
    requires
        0 <= i < s.len(),
        !s[i],
    ensures
        count_true(s.update(i, true)) == count_true(s) + 1,
    decreases s.len(),
{
    let t = s.update(i, true);
    if i == s.len() - 1 {
        assert(t.drop_last() =~= s.drop_last());
    } else {
        assert(t.drop_last() =~= s.drop_last().update(i, true));
        lemma_count_true_set(s.drop_last(), i);
    }
}

/// Every grid neighbour of cell `(x, y)` is marked in `vis`.
pub open spec fn neighbors_marked(w: int, h: int, vis: Seq<bool>, x: int, y: int) -> bool {
    &&& (y > 0 ==> vis[idx(w, x, y - 1)])
    &&& (y + 1 < h ==> vis[idx(w, x, y + 1)])
    &&& (x > 0 ==> vis[idx(w, x - 1, y)])
    &&& (x + 1 < w ==> vis[idx(w, x + 1, y)])
}

/// A marking of the grid that holds the top-left cell and, with every marked
/// cell, all its neighbours, marks every cell.
pub proof fn lemma_closed_marking_covers(w: int, h: int, vis: Seq<bool>)
    requires
        w >= 1,
        h >= 1,
        vis[idx(w, 0, 0)],
        forall|x: int, y: int|
            in_grid(w, h, x, y) && #[trigger] vis[idx(w, x, y)] ==> neighbors_marked(w, h, vis, x, y),
    ensures
        forall|x: int, y: int| in_grid(w, h, x, y) ==> #[trigger] vis[idx(w, x, y)],
{
    assert forall|x: int, y: int| in_grid(w, h, x, y) implies #[trigger] vis[idx(w, x, y)] by {
        lemma_marked_cell(w, h, vis, x, y);
    }
}

proof fn lemma_marked_cell(w: int, h: int, vis: Seq<bool>, x: int, y: int)
    requires
        w >= 1,
        h >= 1,
        vis[idx(w, 0, 0)],
        forall|x: int, y: int|
            in_grid(w, h, x, y) && #[trigger] vis[idx(w, x, y)] ==> neighbors_marked(w, h, vis, x, y),
        in_grid(w, h, x, y),
    ensures
        vis[idx(w, x, y)],
    decreases x + y,
{
    if y > 0 {
        lemma_marked_cell(w, h, vis, x, y - 1);
        assert(neighbors_marked(w, h, vis, x, y - 1));
    } else if x > 0 {
        lemma_marked_cell(w, h, vis, x - 1, y);
        assert(neighbors_marked(w, h, vis, x - 1, y));
    }
}

} // verus!
