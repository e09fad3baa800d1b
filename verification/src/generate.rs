//! Carving a perfect maze with a randomized depth-first search (the
//! recursive backtracker).

use vstd::prelude::*;
use rand::rngs::StdRng;
use crate::grid::{
    idx, in_grid, count_true, neighbors_marked, lemma_idx_bounds, lemma_idx_injective,
    lemma_count_true_bounds, lemma_count_true_set, lemma_closed_marking_covers,
};
use crate::maze::Maze;

verus! {

#[verifier::external_type_specification]
#[verifier::external_body]
pub struct ExStdRng(StdRng);

/// Draws an index below `n` with `rand::Rng::random_range` over `0..n`.
/// The contract claims that the result lies in `0..n`, which is what the
/// uniform sampler of `rand` gives for a non-empty range; it panics on an
/// empty range, which `requires` leaves out. Which index comes is left open.
#[verifier::external_body]
fn random_below(rng: &mut StdRng, n: usize) -> (r: usize)
    requires
        n > 0,
    ensures
        r < n,
{
    rand::Rng::random_range(rng, 0..n)
}

/// Which family a wall belongs to: horizontal (`H`) or vertical (`V`).
#[derive(Clone, Copy, Debug, PartialEq, Eq)]
pub enum WallKind {
    H,
    V,
}

/// One move of the carver: it entered `cell` through the wall `wall_kind`
/// at `wall_pos`, which it opened.
#[derive(Clone, Copy, Debug, PartialEq, Eq)]
pub struct CarvingStep {
    pub cell: (usize, usize),
    pub wall_kind: WallKind,
    pub wall_pos: (usize, usize),
}

pub open spec fn cell_of(s: CarvingStep) -> (int, int) {
    (s.cell.0 as int, s.cell.1 as int)
}

/// The two cells that the wall of `s` separates, the upper or left one first.
pub open spec fn wall_sides(s: CarvingStep) -> ((int, int), (int, int)) {
    let x = s.wall_pos.0 as int;
    let y = s.wall_pos.1 as int;
    match s.wall_kind {
        WallKind::H => ((x, y - 1), (x, y)),
        WallKind::V => ((x - 1, y), (x, y)),
    }
}

/// The cell that step `s` entered its cell from: the other side of its wall.
pub open spec fn parent_cell(s: CarvingStep) -> (int, int) {
    if cell_of(s) == wall_sides(s).1 {
        wall_sides(s).0
    } else {
        wall_sides(s).1
    }
}

/// The cell found at discovery position `p`: the top-left cell for a
/// negative `p`, else the cell that step `p` entered.
pub open spec fn found_cell(steps: Seq<CarvingStep>, p: int) -> (int, int) {
    if p < 0 {
        (0int, 0int)
    } else {
        cell_of(steps[p])
    }
}

/// Before step `k`, cell `c` still has a grid neighbour that no earlier step
/// entered.
pub open spec fn has_unentered_neighbor(w: int, h: int, steps: Seq<CarvingStep>, k: int, c: (int, int)) -> bool {
    ||| (c.1 > 0 && !discovered_before(steps, k, (c.0, c.1 - 1)))
    ||| (c.1 + 1 < h && !discovered_before(steps, k, (c.0, c.1 + 1)))
    ||| (c.0 > 0 && !discovered_before(steps, k, (c.0 - 1, c.1)))
    ||| (c.0 + 1 < w && !discovered_before(steps, k, (c.0 + 1, c.1)))
}

/// Step `k` leaves from the most recently found cell that still has an
/// unentered neighbour: every cell found after it has none left.
pub open spec fn backtracks_to(w: int, h: int, steps: Seq<CarvingStep>, k: int) -> bool {
    exists|p: int|
        -1 <= p < k && #[trigger] found_cell(steps, p) == parent_cell(steps[k]) && forall|j: int|
            p < j < k ==> !has_unentered_neighbor(w, h, steps, k, #[trigger] cell_of(steps[j]))
}

/// The steps follow a depth-first search: each leaves from the most
/// recently found cell that still has an unentered neighbour.
pub open spec fn depth_first(w: int, h: int, steps: Seq<CarvingStep>) -> bool {
    forall|k: int| 0 <= k < steps.len() ==> #[trigger] backtracks_to(w, h, steps, k)
}

/// Cell `c` is the top-left cell or was entered by one of the first `k` steps.
pub open spec fn discovered_before(steps: Seq<CarvingStep>, k: int, c: (int, int)) -> bool {
    c == (0int, 0int) || exists|j: int| 0 <= j < k && #[trigger] cell_of(steps[j]) == c
}

/// Step `k` opens a wall inside the grid between its own cell and a cell
/// found before it.
pub open spec fn links_back(w: int, h: int, steps: Seq<CarvingStep>, k: int) -> bool {
    let s = steps[k];
    let a = wall_sides(s).0;
    let b = wall_sides(s).1;
    &&& in_grid(w, h, a.0, a.1)
    &&& in_grid(w, h, b.0, b.1)
    &&& ((cell_of(s) == b && discovered_before(steps, k, a)) || (cell_of(s) == a
        && discovered_before(steps, k, b)))
}

/// The steps enter every cell but the top-left one exactly once, each from
/// a cell entered before: the opened walls form a spanning tree rooted at
/// the top-left cell.
pub open spec fn carving_tree(w: int, h: int, steps: Seq<CarvingStep>) -> bool {
    &&& steps.len() == w * h - 1
    &&& forall|k: int|
        0 <= k < steps.len() ==> {
            &&& in_grid(w, h, (#[trigger] cell_of(steps[k])).0, cell_of(steps[k]).1)
            &&& cell_of(steps[k]) != (0int, 0int)
            &&& links_back(w, h, steps, k)
        }
    &&& forall|j: int, k: int|
        0 <= j < k < steps.len() ==> #[trigger] cell_of(steps[j]) != #[trigger] cell_of(steps[k])
    &&& forall|x: int, y: int|
        in_grid(w, h, x, y) && (x, y) != (0int, 0int) ==> exists|k: int|
            0 <= k < steps.len() && #[trigger] cell_of(steps[k]) == (x, y)
}

pub open spec fn opens_h(s: CarvingStep, c: int, r: int) -> bool {
    s.wall_kind == WallKind::H && s.wall_pos.0 == c && s.wall_pos.1 == r
}

pub open spec fn opens_v(s: CarvingStep, c: int, r: int) -> bool {
    s.wall_kind == WallKind::V && s.wall_pos.0 == c && s.wall_pos.1 == r
}

/// Some step opens horizontal wall `(c, r)`.
pub open spec fn opened_h(steps: Seq<CarvingStep>, c: int, r: int) -> bool {
    exists|k: int| 0 <= k < steps.len() && #[trigger] opens_h(steps[k], c, r)
}

/// Some step opens vertical wall `(c, r)`.
pub open spec fn opened_v(steps: Seq<CarvingStep>, c: int, r: int) -> bool {
    exists|k: int| 0 <= k < steps.len() && #[trigger] opens_v(steps[k], c, r)
}

/// `m` is `m0` with exactly the walls that `steps` open taken down.
pub open spec fn carved_from(m0: Maze, m: Maze, steps: Seq<CarvingStep>) -> bool {
    &&& m.w() == m0.w()
    &&& m.h() == m0.h()
    &&& forall|c: int, r: int|
        0 <= c < m.w() && 0 <= r <= m.h() ==> #[trigger] m.hw(c, r) == (m0.hw(c, r) && !opened_h(
            steps,
            c,
            r,
        ))
    &&& forall|c: int, r: int|
        0 <= c <= m.w() && 0 <= r < m.h() ==> #[trigger] m.vw(c, r) == (m0.vw(c, r) && !opened_v(
            steps,
            c,
            r,
        ))
}

spec fn on_stack(stack: Seq<(usize, usize)>, x: int, y: int) -> bool {
    exists|i: int| 0 <= i < stack.len() && #[trigger] stack[i] == (x as usize, y as usize)
}

/// A carving candidate `(nx, ny, kind, wx, wy)` from cell `cur`: an unmarked
/// cell next to `cur` and the wall between them.
spec fn candidate_ok(
    w: int,
    h: int,
    vis: Seq<bool>,
    cur: (int, int),
    e: (usize, usize, WallKind, usize, usize),
) -> bool {
    let s = CarvingStep { cell: (e.0, e.1), wall_kind: e.2, wall_pos: (e.3, e.4) };
    let a = wall_sides(s).0;
    let b = wall_sides(s).1;
    &&& in_grid(w, h, e.0 as int, e.1 as int)
    &&& !vis[idx(w, e.0 as int, e.1 as int)]
    &&& ((a == cur && b == cell_of(s)) || (b == cur && a == cell_of(s)))
}

/// What the depth-first carver keeps true between its moves: the marking
/// records exactly the cells found so far, the steps form a tree growing
/// from the top-left cell, the stack holds found cells, and every found cell
/// off the stack has all its neighbours found.
#[verifier::opaque]
spec fn dfs_inv(
    w: int,
    h: int,
    vis: Seq<bool>,
    steps: Seq<CarvingStep>,
    stack: Seq<(usize, usize)>,
) -> bool {
    &&& w >= 1
    &&& h >= 1
    &&& vis.len() == w * h
    &&& forall|x: int, y: int|
        in_grid(w, h, x, y) ==> (#[trigger] vis[idx(w, x, y)] <==> discovered_before(
            steps,
            steps.len() as int,
            (x, y),
        ))
    &&& forall|k: int|
        0 <= k < steps.len() ==> {
            &&& in_grid(w, h, (#[trigger] cell_of(steps[k])).0, cell_of(steps[k]).1)
            &&& cell_of(steps[k]) != (0int, 0int)
            &&& links_back(w, h, steps, k)
        }
    &&& forall|j: int, k: int|
        0 <= j < k < steps.len() ==> #[trigger] cell_of(steps[j]) != #[trigger] cell_of(steps[k])
    &&& forall|i: int|
        0 <= i < stack.len() ==> in_grid(w, h, (#[trigger] stack[i]).0 as int, stack[i].1 as int)
            && vis[idx(w, stack[i].0 as int, stack[i].1 as int)]
    &&& forall|x: int, y: int|
        in_grid(w, h, x, y) && #[trigger] vis[idx(w, x, y)] && !on_stack(stack, x, y)
            ==> neighbors_marked(w, h, vis, x, y)
    &&& count_true(vis) == steps.len() + 1
}

/// The stack holds found cells in the order they were found (`sp` gives
/// their discovery positions), and every step so far followed the
/// depth-first rule.
#[verifier::opaque]
spec fn dfs_order(w: int, h: int, steps: Seq<CarvingStep>, stack: Seq<(usize, usize)>, sp: Seq<int>) -> bool {
    &&& sp.len() == stack.len()
    &&& forall|i: int|
        0 <= i < sp.len() ==> -1 <= #[trigger] sp[i] < steps.len() && (stack[i].0 as int, stack[i].1 as int)
            == found_cell(steps, sp[i])
    &&& forall|i: int, j: int| 0 <= i < j < sp.len() ==> #[trigger] sp[i] < #[trigger] sp[j]
    &&& depth_first(w, h, steps)
}

proof fn lemma_dfs_order_init()
    ensures
        dfs_order(0, 0, Seq::empty(), seq![(0usize, 0usize)], seq![-1int]),
        forall|w: int, h: int| #[trigger] dfs_order(w, h, Seq::empty(), seq![(0usize, 0usize)], seq![-1int]),
{
    reveal(dfs_order);
}

proof fn lemma_dfs_order_depth_first(w: int, h: int, steps: Seq<CarvingStep>, stack: Seq<(usize, usize)>, sp: Seq<int>)
    requires
        dfs_order(w, h, steps, stack, sp),
    ensures
        depth_first(w, h, steps),
{
    reveal(dfs_order);
}

proof fn lemma_dfs_order_pop(w: int, h: int, steps: Seq<CarvingStep>, stack: Seq<(usize, usize)>, sp: Seq<int>)
    requires
        dfs_order(w, h, steps, stack, sp),
        stack.len() > 0,
    ensures
        dfs_order(w, h, steps, stack.drop_last(), sp.drop_last()),
{
    reveal(dfs_order);
    let s2 = stack.drop_last();
    let p2 = sp.drop_last();
    assert forall|i: int| 0 <= i < p2.len() implies -1 <= #[trigger] p2[i] < steps.len() && (s2[i].0 as int, s2[i].1 as int)
        == found_cell(steps, p2[i]) by {
        assert(p2[i] == sp[i] && s2[i] == stack[i]);
    }
    assert forall|i: int, j: int| 0 <= i < j < p2.len() implies #[trigger] p2[i] < #[trigger] p2[j] by {
        assert(p2[i] == sp[i] && p2[j] == sp[j]);
    }
}

/// Positions in discovery order name different cells.
proof fn lemma_found_cell_distinct(w: int, h: int, steps: Seq<CarvingStep>, p: int, q: int)
    requires
        forall|k: int| 0 <= k < steps.len() ==> #[trigger] cell_of(steps[k]) != (0int, 0int),
        forall|j: int, k: int| 0 <= j < k < steps.len() ==> #[trigger] cell_of(steps[j]) != #[trigger] cell_of(steps[k]),
        -1 <= p < q < steps.len(),
    ensures
        found_cell(steps, p) != found_cell(steps, q),
{
    if p >= 0 {
        assert(cell_of(steps[p]) != cell_of(steps[q]));
    } else {
        assert(cell_of(steps[q]) != (0int, 0int));
    }
}

/// Appending a step changes nothing about what was found before it.
proof fn lemma_push_keeps_past(steps: Seq<CarvingStep>, step: CarvingStep)
    ensures
        forall|kk: int, c: (int, int)| 0 <= kk <= steps.len() ==> #[trigger] discovered_before(steps.push(step), kk, c)
            == discovered_before(steps, kk, c),
        forall|p: int| -1 <= p < steps.len() ==> #[trigger] found_cell(steps.push(step), p) == found_cell(steps, p),
{
    let st2 = steps.push(step);
    assert forall|kk: int, c: (int, int)| 0 <= kk <= steps.len() implies #[trigger] discovered_before(st2, kk, c)
        == discovered_before(steps, kk, c) by {
        if discovered_before(steps, kk, c) && c != (0int, 0int) {
            let j = choose|j: int| 0 <= j < kk && #[trigger] cell_of(steps[j]) == c;
            assert(cell_of(st2[j]) == c);
        }
        if discovered_before(st2, kk, c) && c != (0int, 0int) {
            let j = choose|j: int| 0 <= j < kk && #[trigger] cell_of(st2[j]) == c;
            assert(cell_of(steps[j]) == c);
        }
    }
}

proof fn lemma_backtracks_kept(w: int, h: int, steps: Seq<CarvingStep>, step: CarvingStep, kk: int)
    requires
        0 <= kk < steps.len(),
        backtracks_to(w, h, steps, kk),
    ensures
        backtracks_to(w, h, steps.push(step), kk),
{
    let st2 = steps.push(step);
    lemma_push_keeps_past(steps, step);
    let p = choose|p: int|
        -1 <= p < kk && #[trigger] found_cell(steps, p) == parent_cell(steps[kk]) && forall|j: int|
            p < j < kk ==> !has_unentered_neighbor(w, h, steps, kk, #[trigger] cell_of(steps[j]));
    assert(st2[kk] == steps[kk]);
    assert(found_cell(st2, p) == parent_cell(st2[kk]));
    assert forall|j: int| p < j < kk implies !has_unentered_neighbor(w, h, st2, kk, #[trigger] cell_of(st2[j])) by {
        assert(st2[j] == steps[j]);
        assert(!has_unentered_neighbor(w, h, steps, kk, cell_of(steps[j])));
        assert(discovered_before(st2, kk, (cell_of(steps[j]).0, cell_of(steps[j]).1 - 1)) == discovered_before(steps, kk, (cell_of(steps[j]).0, cell_of(steps[j]).1 - 1)));
        assert(discovered_before(st2, kk, (cell_of(steps[j]).0, cell_of(steps[j]).1 + 1)) == discovered_before(steps, kk, (cell_of(steps[j]).0, cell_of(steps[j]).1 + 1)));
        assert(discovered_before(st2, kk, (cell_of(steps[j]).0 - 1, cell_of(steps[j]).1)) == discovered_before(steps, kk, (cell_of(steps[j]).0 - 1, cell_of(steps[j]).1)));
        assert(discovered_before(st2, kk, (cell_of(steps[j]).0 + 1, cell_of(steps[j]).1)) == discovered_before(steps, kk, (cell_of(steps[j]).0 + 1, cell_of(steps[j]).1)));
    }
}

/// A cell found after the top of the stack has no unentered neighbour left.
proof fn lemma_after_top_is_done(
    w: int,
    h: int,
    vis: Seq<bool>,
    steps: Seq<CarvingStep>,
    stack: Seq<(usize, usize)>,
    sp: Seq<int>,
    j: int,
)
    requires
        dfs_inv(w, h, vis, steps, stack),
        dfs_order(w, h, steps, stack, sp),
        stack.len() > 0,
        sp.last() < j < steps.len(),
    ensures
        !has_unentered_neighbor(w, h, steps, steps.len() as int, cell_of(steps[j])),
{
    reveal(dfs_inv);
    reveal(dfs_order);
    let k = steps.len() as int;
    let c = cell_of(steps[j]);
    assert(sp[sp.len() - 1] == sp.last());
    assert(in_grid(w, h, c.0, c.1));
    lemma_idx_bounds(w, h, c.0, c.1);
    assert(discovered_before(steps, k, c));
    assert(vis[idx(w, c.0, c.1)]);
    if on_stack(stack, c.0, c.1) {
        let i = choose|i: int| 0 <= i < stack.len() && #[trigger] stack[i] == (c.0 as usize, c.1 as usize);
        assert(found_cell(steps, sp[i]) == c);
        assert(found_cell(steps, j) == c);
        if sp[i] < j {
            lemma_found_cell_distinct(w, h, steps, sp[i], j);
        } else if j < sp[i] {
            lemma_found_cell_distinct(w, h, steps, j, sp[i]);
        }
        if i < sp.len() - 1 {
            assert(sp[i] < sp[sp.len() - 1]);
        }
    }
    assert(neighbors_marked(w, h, vis, c.0, c.1));
    if c.1 > 0 {
        lemma_idx_bounds(w, h, c.0, c.1 - 1);
        assert(vis[idx(w, c.0, c.1 - 1)]);
    }
    if c.1 + 1 < h {
        lemma_idx_bounds(w, h, c.0, c.1 + 1);
        assert(vis[idx(w, c.0, c.1 + 1)]);
    }
    if c.0 > 0 {
        lemma_idx_bounds(w, h, c.0 - 1, c.1);
        assert(vis[idx(w, c.0 - 1, c.1)]);
    }
    if c.0 + 1 < w {
        lemma_idx_bounds(w, h, c.0 + 1, c.1);
        assert(vis[idx(w, c.0 + 1, c.1)]);
    }
}

proof fn lemma_new_step_backtracks(
    w: int,
    h: int,
    vis: Seq<bool>,
    steps: Seq<CarvingStep>,
    stack: Seq<(usize, usize)>,
    sp: Seq<int>,
    e: (usize, usize, WallKind, usize, usize),
)
    requires
        dfs_inv(w, h, vis, steps, stack),
        dfs_order(w, h, steps, stack, sp),
        stack.len() > 0,
        candidate_ok(w, h, vis, (stack.last().0 as int, stack.last().1 as int), e),
    ensures
        backtracks_to(w, h, steps.push(CarvingStep { cell: (e.0, e.1), wall_kind: e.2, wall_pos: (e.3, e.4) }), steps.len() as int),
{
    let step = CarvingStep { cell: (e.0, e.1), wall_kind: e.2, wall_pos: (e.3, e.4) };
    let k = steps.len() as int;
    let st2 = steps.push(step);
    let top = sp.last();
    let cur = (stack.last().0 as int, stack.last().1 as int);
    lemma_push_keeps_past(steps, step);
    assert(found_cell(steps, top) == cur && -1 <= top < k) by {
        reveal(dfs_order);
        assert(stack[stack.len() - 1] == stack.last());
        assert(sp[sp.len() - 1] == top);
    }
    assert(st2[k] == step);
    assert(parent_cell(step) == cur);
    assert(found_cell(st2, top) == cur);
    assert forall|j: int| top < j < k implies !has_unentered_neighbor(w, h, st2, k, #[trigger] cell_of(st2[j])) by {
        assert(st2[j] == steps[j]);
        lemma_after_top_is_done(w, h, vis, steps, stack, sp, j);
        let c = cell_of(steps[j]);
        assert(discovered_before(st2, k, (c.0, c.1 - 1)) == discovered_before(steps, k, (c.0, c.1 - 1)));
        assert(discovered_before(st2, k, (c.0, c.1 + 1)) == discovered_before(steps, k, (c.0, c.1 + 1)));
        assert(discovered_before(st2, k, (c.0 - 1, c.1)) == discovered_before(steps, k, (c.0 - 1, c.1)));
        assert(discovered_before(st2, k, (c.0 + 1, c.1)) == discovered_before(steps, k, (c.0 + 1, c.1)));
    }
}

proof fn lemma_dfs_order_push(
    w: int,
    h: int,
    vis: Seq<bool>,
    steps: Seq<CarvingStep>,
    stack: Seq<(usize, usize)>,
    sp: Seq<int>,
    e: (usize, usize, WallKind, usize, usize),
)
    requires
        dfs_inv(w, h, vis, steps, stack),
        dfs_order(w, h, steps, stack, sp),
        stack.len() > 0,
        candidate_ok(w, h, vis, (stack.last().0 as int, stack.last().1 as int), e),
    ensures
        dfs_order(
            w,
            h,
            steps.push(CarvingStep { cell: (e.0, e.1), wall_kind: e.2, wall_pos: (e.3, e.4) }),
            stack.push((e.0, e.1)),
            sp.push(steps.len() as int),
        ),
{
    let step = CarvingStep { cell: (e.0, e.1), wall_kind: e.2, wall_pos: (e.3, e.4) };
    let k = steps.len() as int;
    let st2 = steps.push(step);
    let sk2 = stack.push((e.0, e.1));
    let sp2 = sp.push(k);
    lemma_new_step_backtracks(w, h, vis, steps, stack, sp, e);
    lemma_push_keeps_past(steps, step);
    reveal(dfs_order);
    assert(sp[sp.len() - 1] == sp.last());
    assert forall|kk: int| 0 <= kk < st2.len() implies #[trigger] backtracks_to(w, h, st2, kk) by {
        if kk < k {
            assert(backtracks_to(w, h, steps, kk));
            lemma_backtracks_kept(w, h, steps, step, kk);
        }
    }
    assert forall|i: int| 0 <= i < sp2.len() implies -1 <= #[trigger] sp2[i] < st2.len() && (sk2[i].0 as int, sk2[i].1 as int)
        == found_cell(st2, sp2[i]) by {
        if i < sp.len() {
            assert(sp2[i] == sp[i] && sk2[i] == stack[i]);
        } else {
            assert(sp2[i] == k && sk2[i] == (e.0, e.1));
            assert(st2[k] == step);
        }
    }
    assert forall|i: int, j: int| 0 <= i < j < sp2.len() implies #[trigger] sp2[i] < #[trigger] sp2[j] by {
        if j < sp.len() {
            assert(sp2[i] == sp[i] && sp2[j] == sp[j]);
        } else {
            assert(sp2[i] == sp[i]);
        }
    }
}

proof fn lemma_dfs_init(w: int, h: int, vis: Seq<bool>)
    requires
        w >= 1,
        h >= 1,
        vis.len() == w * h,
        forall|i: int| 0 <= i < vis.len() ==> !vis[i],
    ensures
        0 < vis.len(),
        dfs_inv(w, h, vis.update(0, true), Seq::empty(), seq![(0usize, 0usize)]),
{
    reveal(dfs_inv);
    lemma_idx_bounds(w, h, 0, 0);
    lemma_count_true_bounds(vis);
    lemma_count_true_set(vis, 0);
    let v = vis.update(0, true);
    let stack = seq![(0usize, 0usize)];
    let steps = Seq::<CarvingStep>::empty();
    assert forall|x: int, y: int| in_grid(w, h, x, y) implies (#[trigger] v[idx(w, x, y)]
        <==> discovered_before(steps, steps.len() as int, (x, y))) by {
        lemma_idx_bounds(w, h, x, y);
        if idx(w, x, y) == 0 {
            lemma_idx_injective(w, x, y, 0, 0);
        }
    }
    assert forall|x: int, y: int|
        in_grid(w, h, x, y) && #[trigger] v[idx(w, x, y)] && !on_stack(stack, x, y)
            implies neighbors_marked(w, h, v, x, y) by {
        lemma_idx_bounds(w, h, x, y);
        if idx(w, x, y) == 0 {
            lemma_idx_injective(w, x, y, 0, 0);
            assert(stack[0] == (0usize, 0usize));
        }
    }
}

/// The facts about the cell on top of the stack that the carver's arithmetic needs.
proof fn lemma_dfs_top(w: int, h: int, vis: Seq<bool>, steps: Seq<CarvingStep>, stack: Seq<(usize, usize)>)
    requires
        dfs_inv(w, h, vis, steps, stack),
        stack.len() > 0,
    ensures
        in_grid(w, h, stack.last().0 as int, stack.last().1 as int),
        vis[idx(w, stack.last().0 as int, stack.last().1 as int)],
        vis.len() == w * h,
        steps.len() + 1 <= w * h,
{
    reveal(dfs_inv);
    lemma_count_true_bounds(vis);
    assert(stack[stack.len() - 1] == stack.last());
}

proof fn lemma_dfs_pop(w: int, h: int, vis: Seq<bool>, steps: Seq<CarvingStep>, stack: Seq<(usize, usize)>)
    requires
        dfs_inv(w, h, vis, steps, stack),
        stack.len() > 0,
        neighbors_marked(w, h, vis, stack.last().0 as int, stack.last().1 as int),
    ensures
        dfs_inv(w, h, vis, steps, stack.drop_last()),
{
    reveal(dfs_inv);
    let s2 = stack.drop_last();
    assert forall|i: int| 0 <= i < s2.len() implies in_grid(w, h, (#[trigger] s2[i]).0 as int, s2[i].1 as int)
        && vis[idx(w, s2[i].0 as int, s2[i].1 as int)] by {
        assert(s2[i] == stack[i]);
    }
    assert forall|x: int, y: int|
        in_grid(w, h, x, y) && #[trigger] vis[idx(w, x, y)] && !on_stack(s2, x, y)
            implies neighbors_marked(w, h, vis, x, y) by {
        if on_stack(stack, x, y) {
            let i = choose|i: int| 0 <= i < stack.len() && #[trigger] stack[i] == (x as usize, y as usize);
            if i < stack.len() - 1 {
                assert(s2[i] == stack[i]);
            } else {
                assert(stack[i] == stack.last());
            }
        }
    }
}

proof fn lemma_dfs_push(
    w: int,
    h: int,
    vis: Seq<bool>,
    steps: Seq<CarvingStep>,
    stack: Seq<(usize, usize)>,
    e: (usize, usize, WallKind, usize, usize),
)
    requires
        dfs_inv(w, h, vis, steps, stack),
        stack.len() > 0,
        candidate_ok(w, h, vis, (stack.last().0 as int, stack.last().1 as int), e),
    ensures
        0 <= idx(w, e.0 as int, e.1 as int) < vis.len(),
        dfs_inv(
            w,
            h,
            vis.update(idx(w, e.0 as int, e.1 as int), true),
            steps.push(CarvingStep { cell: (e.0, e.1), wall_kind: e.2, wall_pos: (e.3, e.4) }),
            stack.push((e.0, e.1)),
        ),
{
    reveal(dfs_inv);
    let step = CarvingStep { cell: (e.0, e.1), wall_kind: e.2, wall_pos: (e.3, e.4) };
    let nx = e.0 as int;
    let ny = e.1 as int;
    let newc = (nx, ny);
    let cur = (stack.last().0 as int, stack.last().1 as int);
    assert(stack[stack.len() - 1] == stack.last());
    lemma_idx_bounds(w, h, nx, ny);
    lemma_count_true_set(vis, idx(w, nx, ny));
    let v2 = vis.update(idx(w, nx, ny), true);
    let st2 = steps.push(step);
    let sk2 = stack.push((e.0, e.1));
    let k = steps.len() as int;
    assert(st2[k] == step);
    assert forall|j: int| 0 <= j < k implies #[trigger] st2[j] == steps[j] by {}
    assert forall|kk: int, c: (int, int)| 0 <= kk <= k implies discovered_before(st2, kk, c)
        == discovered_before(steps, kk, c) by {
        if discovered_before(steps, kk, c) && c != (0int, 0int) {
            let j = choose|j: int| 0 <= j < kk && #[trigger] cell_of(steps[j]) == c;
            assert(cell_of(st2[j]) == c);
        }
        if discovered_before(st2, kk, c) && c != (0int, 0int) {
            let j = choose|j: int| 0 <= j < kk && #[trigger] cell_of(st2[j]) == c;
            assert(cell_of(steps[j]) == c);
        }
    }
    assert(!discovered_before(steps, k, newc));
    assert(discovered_before(steps, k, cur));
    assert(links_back(w, h, st2, k));
    assert forall|kk: int| 0 <= kk < k implies links_back(w, h, st2, kk) by {
        let _t = cell_of(steps[kk]);
        assert(links_back(w, h, steps, kk));
    }
    assert forall|kk: int| 0 <= kk < st2.len() implies {
        &&& in_grid(w, h, (#[trigger] cell_of(st2[kk])).0, cell_of(st2[kk]).1)
        &&& cell_of(st2[kk]) != (0int, 0int)
        &&& links_back(w, h, st2, kk)
    } by {
        if kk < k {
            assert(st2[kk] == steps[kk]);
        }
    }
    assert forall|j: int, kk: int| 0 <= j < kk < st2.len() implies #[trigger] cell_of(st2[j])
        != #[trigger] cell_of(st2[kk]) by {
        if kk == k {
            assert(st2[j] == steps[j]);
            if cell_of(steps[j]) == newc {
                assert(discovered_before(steps, k, newc));
            }
        } else {
            assert(st2[j] == steps[j]);
            assert(st2[kk] == steps[kk]);
        }
    }
    assert forall|x: int, y: int| in_grid(w, h, x, y) implies (#[trigger] v2[idx(w, x, y)]
        <==> discovered_before(st2, st2.len() as int, (x, y))) by {
        lemma_idx_bounds(w, h, x, y);
        if (x, y) == newc {
            assert(cell_of(st2[k]) == (x, y));
        } else {
            if idx(w, x, y) == idx(w, nx, ny) {
                lemma_idx_injective(w, x, y, nx, ny);
            }
            assert(v2[idx(w, x, y)] == vis[idx(w, x, y)]);
            if discovered_before(st2, k + 1, (x, y)) && (x, y) != (0int, 0int) {
                let j = choose|j: int| 0 <= j < k + 1 && #[trigger] cell_of(st2[j]) == (x, y);
                assert(j < k);
                assert(discovered_before(st2, k, (x, y)));
            }
        }
    }
    assert forall|i: int| 0 <= i < sk2.len() implies in_grid(w, h, (#[trigger] sk2[i]).0 as int, sk2[i].1 as int)
        && v2[idx(w, sk2[i].0 as int, sk2[i].1 as int)] by {
        if i < stack.len() {
            assert(sk2[i] == stack[i]);
            lemma_idx_bounds(w, h, stack[i].0 as int, stack[i].1 as int);
        }
    }
    assert forall|x: int, y: int|
        in_grid(w, h, x, y) && #[trigger] v2[idx(w, x, y)] && !on_stack(sk2, x, y)
            implies neighbors_marked(w, h, v2, x, y) by {
        assert(sk2[stack.len() as int] == (e.0, e.1));
        lemma_idx_bounds(w, h, x, y);
        if idx(w, x, y) == idx(w, nx, ny) {
            lemma_idx_injective(w, x, y, nx, ny);
        }
        if on_stack(stack, x, y) {
            let i = choose|i: int| 0 <= i < stack.len() && #[trigger] stack[i] == (x as usize, y as usize);
            assert(sk2[i] == stack[i]);
        }
        assert(neighbors_marked(w, h, vis, x, y));
        if y > 0 {
            lemma_idx_bounds(w, h, x, y - 1);
        }
        if y + 1 < h {
            lemma_idx_bounds(w, h, x, y + 1);
        }
        if x > 0 {
            lemma_idx_bounds(w, h, x - 1, y);
        }
        if x + 1 < w {
            lemma_idx_bounds(w, h, x + 1, y);
        }
    }
}

/// When the stack runs empty, every cell has been entered and the steps form
/// a spanning tree.
proof fn lemma_dfs_done(w: int, h: int, vis: Seq<bool>, steps: Seq<CarvingStep>, stack: Seq<(usize, usize)>)
    requires
        dfs_inv(w, h, vis, steps, stack),
        stack.len() == 0,
    ensures
        carving_tree(w, h, steps),
{
    reveal(dfs_inv);
    lemma_idx_bounds(w, h, 0, 0);
    assert(vis[idx(w, 0, 0)]);
    lemma_closed_marking_covers(w, h, vis);
    assert forall|i: int| 0 <= i < vis.len() implies vis[i] by {
        let x = i % w;
        let y = i / w;
        assert(i == idx(w, x, y) && in_grid(w, h, x, y)) by (nonlinear_arith)
            requires
                w >= 1,
                x == i % w,
                y == i / w,
                0 <= i < w * h,
        ;
    }
    lemma_count_true_bounds(vis);
    assert forall|x: int, y: int| in_grid(w, h, x, y) && (x, y) != (0int, 0int) implies exists|k: int|
        0 <= k < steps.len() && #[trigger] cell_of(steps[k]) == (x, y) by {
        assert(vis[idx(w, x, y)]);
    }
}

/// Taking down the horizontal wall of a further step keeps `carved_from`.
pub(crate) proof fn lemma_carved_push_h(m0: Maze, m1: Maze, m2: Maze, steps: Seq<CarvingStep>, step: CarvingStep)
    requires
        carved_from(m0, m1, steps),
        step.wall_kind == WallKind::H,
        m2.w() == m1.w(),
        m2.h() == m1.h(),
        m2.hw(step.wall_pos.0 as int, step.wall_pos.1 as int) == false,
        forall|c: int, r: int|
            0 <= c < m1.w() && 0 <= r <= m1.h() && (c != step.wall_pos.0 || r != step.wall_pos.1)
                ==> #[trigger] m2.hw(c, r) == m1.hw(c, r),
        forall|c: int, r: int| #[trigger] m2.vw(c, r) == m1.vw(c, r),
    ensures
        carved_from(m0, m2, steps.push(step)),
{
    let s2 = steps.push(step);
    let k = steps.len() as int;
    assert(s2[k] == step);
    assert forall|c: int, r: int| opened_h(s2, c, r) == (opened_h(steps, c, r) || opens_h(step, c, r)) by {
        if opened_h(s2, c, r) && !opens_h(step, c, r) {
            let j = choose|j: int| 0 <= j < s2.len() && #[trigger] opens_h(s2[j], c, r);
            assert(s2[j] == steps[j]);
        }
        if opened_h(steps, c, r) {
            let j = choose|j: int| 0 <= j < steps.len() && #[trigger] opens_h(steps[j], c, r);
            assert(s2[j] == steps[j]);
        }
    }
    assert forall|c: int, r: int| opened_v(s2, c, r) == opened_v(steps, c, r) by {
        if opened_v(s2, c, r) {
            let j = choose|j: int| 0 <= j < s2.len() && #[trigger] opens_v(s2[j], c, r);
            assert(s2[j] == steps[j]);
        }
        if opened_v(steps, c, r) {
            let j = choose|j: int| 0 <= j < steps.len() && #[trigger] opens_v(steps[j], c, r);
            assert(s2[j] == steps[j]);
        }
    }
}

/// Taking down the vertical wall of a further step keeps `carved_from`.
pub(crate) proof fn lemma_carved_push_v(m0: Maze, m1: Maze, m2: Maze, steps: Seq<CarvingStep>, step: CarvingStep)
    requires
        carved_from(m0, m1, steps),
        step.wall_kind == WallKind::V,
        m2.w() == m1.w(),
        m2.h() == m1.h(),
        m2.vw(step.wall_pos.0 as int, step.wall_pos.1 as int) == false,
        forall|c: int, r: int|
            0 <= c <= m1.w() && 0 <= r < m1.h() && (c != step.wall_pos.0 || r != step.wall_pos.1)
                ==> #[trigger] m2.vw(c, r) == m1.vw(c, r),
        forall|c: int, r: int| #[trigger] m2.hw(c, r) == m1.hw(c, r),
    ensures
        carved_from(m0, m2, steps.push(step)),
{
    let s2 = steps.push(step);
    let k = steps.len() as int;
    assert(s2[k] == step);
    assert forall|c: int, r: int| opened_v(s2, c, r) == (opened_v(steps, c, r) || opens_v(step, c, r)) by {
        if opened_v(s2, c, r) && !opens_v(step, c, r) {
            let j = choose|j: int| 0 <= j < s2.len() && #[trigger] opens_v(s2[j], c, r);
            assert(s2[j] == steps[j]);
        }
        if opened_v(steps, c, r) {
            let j = choose|j: int| 0 <= j < steps.len() && #[trigger] opens_v(steps[j], c, r);
            assert(s2[j] == steps[j]);
        }
    }
    assert forall|c: int, r: int| opened_h(s2, c, r) == opened_h(steps, c, r) by {
        if opened_h(s2, c, r) {
            let j = choose|j: int| 0 <= j < s2.len() && #[trigger] opens_h(s2[j], c, r);
            assert(s2[j] == steps[j]);
        }
        if opened_h(steps, c, r) {
            let j = choose|j: int| 0 <= j < steps.len() && #[trigger] opens_h(steps[j], c, r);
            assert(s2[j] == steps[j]);
        }
    }
}

/// The step that enters `(nx, ny)` through the wall `kind` at `(wx, wy)`.
pub open spec fn step_to(nx: int, ny: int, kind: WallKind, wx: int, wy: int) -> CarvingStep {
    CarvingStep { cell: (nx as usize, ny as usize), wall_kind: kind, wall_pos: (wx as usize, wy as usize) }
}

/// The steps that enter a neighbour of `(cx, cy)` not yet marked in `vis`,
/// in the order up, down, left, right.
pub open spec fn candidate_steps(w: int, h: int, vis: Seq<bool>, cx: int, cy: int) -> Seq<CarvingStep> {
    let up = if cy > 0 && !vis[idx(w, cx, cy - 1)] {
        seq![step_to(cx, cy - 1, WallKind::H, cx, cy)]
    } else {
        Seq::empty()
    };
    let down = if cy + 1 < h && !vis[idx(w, cx, cy + 1)] {
        seq![step_to(cx, cy + 1, WallKind::H, cx, cy + 1)]
    } else {
        Seq::empty()
    };
    let left = if cx > 0 && !vis[idx(w, cx - 1, cy)] {
        seq![step_to(cx - 1, cy, WallKind::V, cx, cy)]
    } else {
        Seq::empty()
    };
    let right = if cx + 1 < w && !vis[idx(w, cx + 1, cy)] {
        seq![step_to(cx + 1, cy, WallKind::V, cx + 1, cy)]
    } else {
        Seq::empty()
    };
    up + down + left + right
}

/// Lists, in the order up, down, left, right, the steps from cell
/// `(cx, cy)` into a neighbour that `visited` (row-major, `w` by `h`) does
/// not mark.
pub fn open_candidates(visited: &Vec<bool>, w: usize, h: usize, cx: usize, cy: usize) -> (r: Vec<CarvingStep>)
    requires
        w * h <= usize::MAX,
        visited@.len() == w * h,
        cx < w,
        cy < h,
    ensures
        r@ == candidate_steps(w as int, h as int, visited@, cx as int, cy as int),
{
    let ghost wi = w as int;
    let ghost hi = h as int;
    let mut r: Vec<CarvingStep> = Vec::new();
    if cy > 0 {
        proof {
            lemma_idx_bounds(wi, hi, cx as int, cy - 1);
        }
        if !visited[(cy - 1) * w + cx] {
            r.push(CarvingStep { cell: (cx, cy - 1), wall_kind: WallKind::H, wall_pos: (cx, cy) });
        }
    }
    let ghost n1 = r@;
    if cy + 1 < h {
        proof {
            lemma_idx_bounds(wi, hi, cx as int, cy + 1);
        }
        if !visited[(cy + 1) * w + cx] {
            r.push(CarvingStep { cell: (cx, cy + 1), wall_kind: WallKind::H, wall_pos: (cx, cy + 1) });
        }
    }
    let ghost n2 = r@;
    if cx > 0 {
        proof {
            lemma_idx_bounds(wi, hi, cx - 1, cy as int);
        }
        if !visited[cy * w + cx - 1] {
            r.push(CarvingStep { cell: (cx - 1, cy), wall_kind: WallKind::V, wall_pos: (cx, cy) });
        }
    }
    let ghost n3 = r@;
    if cx + 1 < w {
        proof {
            lemma_idx_bounds(wi, hi, cx + 1, cy as int);
        }
        if !visited[cy * w + cx + 1] {
            r.push(CarvingStep { cell: (cx + 1, cy), wall_kind: WallKind::V, wall_pos: (cx + 1, cy) });
        }
    }
    assert(r@ =~= candidate_steps(wi, hi, visited@, cx as int, cy as int));
    r
}

/// Each listed step enters an unmarked cell next to `(cx, cy)` through the
/// wall between them.
proof fn lemma_candidate_steps_ok(w: int, h: int, vis: Seq<bool>, cx: int, cy: int)
    requires
        in_grid(w, h, cx, cy),
        w * h <= usize::MAX,
        vis.len() == w * h,
    ensures
        forall|i: int| 0 <= i < candidate_steps(w, h, vis, cx, cy).len() ==> {
            let s = #[trigger] candidate_steps(w, h, vis, cx, cy)[i];
            candidate_ok(w, h, vis, (cx, cy), (s.cell.0, s.cell.1, s.wall_kind, s.wall_pos.0, s.wall_pos.1))
        },
{
    let cs = candidate_steps(w, h, vis, cx, cy);
    lemma_idx_bounds(w, h, cx, cy);
    assert(w <= usize::MAX && h <= usize::MAX) by (nonlinear_arith)
        requires
            w * h <= usize::MAX,
            0 <= cx < w,
            0 <= cy < h,
    ;
    let up = if cy > 0 && !vis[idx(w, cx, cy - 1)] {
        seq![step_to(cx, cy - 1, WallKind::H, cx, cy)]
    } else {
        Seq::empty()
    };
    let down = if cy + 1 < h && !vis[idx(w, cx, cy + 1)] {
        seq![step_to(cx, cy + 1, WallKind::H, cx, cy + 1)]
    } else {
        Seq::empty()
    };
    let left = if cx > 0 && !vis[idx(w, cx - 1, cy)] {
        seq![step_to(cx - 1, cy, WallKind::V, cx, cy)]
    } else {
        Seq::empty()
    };
    let right = if cx + 1 < w && !vis[idx(w, cx + 1, cy)] {
        seq![step_to(cx + 1, cy, WallKind::V, cx + 1, cy)]
    } else {
        Seq::empty()
    };
    assert(cs == up + down + left + right);
    assert forall|i: int| 0 <= i < cs.len() implies {
        let s = #[trigger] cs[i];
        candidate_ok(w, h, vis, (cx, cy), (s.cell.0, s.cell.1, s.wall_kind, s.wall_pos.0, s.wall_pos.1))
    } by {
        let n1 = up.len() as int;
        let n2 = n1 + down.len();
        let n3 = n2 + left.len();
        if i < n1 {
            assert(cs[i] == up[i]);
        } else if i < n2 {
            assert(cs[i] == down[i - n1]);
        } else if i < n3 {
            assert(cs[i] == left[i - n2]);
        } else {
            assert(cs[i] == right[i - n3]);
        }
    }
}

/// The draw decides the move: the candidates of a cell enter different
/// cells, so two different indices handed to `carve_choice` carve different
/// passages; and every candidate enters a neighbour of the cell.
pub proof fn lemma_candidates_distinct(w: int, h: int, vis: Seq<bool>, cx: int, cy: int)
    requires
        in_grid(w, h, cx, cy),
        w * h <= usize::MAX,
        vis.len() == w * h,
    ensures
        forall|i: int, j: int|
            0 <= i < j < candidate_steps(w, h, vis, cx, cy).len() ==> #[trigger] candidate_steps(w, h, vis, cx, cy)[i].cell
                != #[trigger] candidate_steps(w, h, vis, cx, cy)[j].cell,
        forall|i: int|
            0 <= i < candidate_steps(w, h, vis, cx, cy).len() ==> {
                let n = #[trigger] candidate_steps(w, h, vis, cx, cy)[i].cell;
                (n.0 == cx && (n.1 == cy - 1 || n.1 == cy + 1)) || (n.1 == cy && (n.0 == cx - 1 || n.0 == cx + 1))
            },
{
    lemma_candidate_steps_ok(w, h, vis, cx, cy);
    let cs = candidate_steps(w, h, vis, cx, cy);
    lemma_idx_bounds(w, h, cx, cy);
    assert(w <= usize::MAX && h <= usize::MAX) by (nonlinear_arith)
        requires
            w * h <= usize::MAX,
            0 <= cx < w,
            0 <= cy < h,
    ;
    let up = if cy > 0 && !vis[idx(w, cx, cy - 1)] {
        seq![step_to(cx, cy - 1, WallKind::H, cx, cy)]
    } else {
        Seq::empty()
    };
    let down = if cy + 1 < h && !vis[idx(w, cx, cy + 1)] {
        seq![step_to(cx, cy + 1, WallKind::H, cx, cy + 1)]
    } else {
        Seq::empty()
    };
    let left = if cx > 0 && !vis[idx(w, cx - 1, cy)] {
        seq![step_to(cx - 1, cy, WallKind::V, cx, cy)]
    } else {
        Seq::empty()
    };
    let right = if cx + 1 < w && !vis[idx(w, cx + 1, cy)] {
        seq![step_to(cx + 1, cy, WallKind::V, cx + 1, cy)]
    } else {
        Seq::empty()
    };
    assert(cs == up + down + left + right);
    let n1 = up.len() as int;
    let n2 = n1 + down.len();
    let n3 = n2 + left.len();
    assert forall|i: int| 0 <= i < cs.len() implies {
        &&& (i < n1 ==> cs[i] == up[i])
        &&& (n1 <= i < n2 ==> cs[i] == down[i - n1])
        &&& (n2 <= i < n3 ==> cs[i] == left[i - n2])
        &&& (n3 <= i ==> cs[i] == right[i - n3])
    } by {}
    assert forall|i: int, j: int| 0 <= i < j < cs.len() implies #[trigger] cs[i].cell != #[trigger] cs[j].cell by {}
    assert forall|i: int| 0 <= i < cs.len() implies {
        let n = #[trigger] cs[i].cell;
        (n.0 == cx && (n.1 == cy - 1 || n.1 == cy + 1)) || (n.1 == cy && (n.0 == cx - 1 || n.0 == cx + 1))
    } by {}
}

/// The rank of neighbour `n` of cell `(cx, cy)` in the order in which the
/// carver lists its moves: up, down, left, right.
pub open spec fn move_rank(cx: int, cy: int, n: (usize, usize)) -> int {
    if n.0 == cx && n.1 == cy - 1 {
        0
    } else if n.0 == cx && n.1 == cy + 1 {
        1
    } else if n.0 == cx - 1 && n.1 == cy {
        2
    } else {
        3
    }
}

/// The moves listed from cell `(cx, cy)` are exactly those into a grid
/// neighbour not yet marked, each through the wall between the two cells,
/// listed up, down, left, right.
#[verifier::rlimit(60)]
pub proof fn lemma_candidates_listed(w: int, h: int, vis: Seq<bool>, cx: int, cy: int)
    requires
        in_grid(w, h, cx, cy),
        w * h <= usize::MAX,
        vis.len() == w * h,
    ensures
        forall|i: int, j: int|
            0 <= i < j < candidate_steps(w, h, vis, cx, cy).len() ==> move_rank(
                cx,
                cy,
                #[trigger] candidate_steps(w, h, vis, cx, cy)[i].cell,
            ) < move_rank(cx, cy, #[trigger] candidate_steps(w, h, vis, cx, cy)[j].cell),
        forall|i: int|
            0 <= i < candidate_steps(w, h, vis, cx, cy).len() ==> {
                let st = #[trigger] candidate_steps(w, h, vis, cx, cy)[i];
                &&& in_grid(w, h, st.cell.0 as int, st.cell.1 as int)
                &&& !vis[idx(w, st.cell.0 as int, st.cell.1 as int)]
                &&& ((wall_sides(st).0 == (cx, cy) && wall_sides(st).1 == cell_of(st)) || (wall_sides(st).1 == (cx, cy)
                    && wall_sides(st).0 == cell_of(st)))
            },
        forall|nx: int, ny: int|
            in_grid(w, h, nx, ny) && ((nx == cx && (ny == cy - 1 || ny == cy + 1)) || (ny == cy && (nx == cx - 1 || nx
                == cx + 1))) && !#[trigger] vis[idx(w, nx, ny)] ==> exists|i: int|
                0 <= i < candidate_steps(w, h, vis, cx, cy).len() && candidate_steps(w, h, vis, cx, cy)[i].cell == (
                    nx as usize,
                    ny as usize,
                ),
{
    lemma_candidate_steps_ok(w, h, vis, cx, cy);
    let cs = candidate_steps(w, h, vis, cx, cy);
    lemma_idx_bounds(w, h, cx, cy);
    assert(w <= usize::MAX && h <= usize::MAX) by (nonlinear_arith)
        requires
            w * h <= usize::MAX,
            0 <= cx < w,
            0 <= cy < h,
    ;
    let up = if cy > 0 && !vis[idx(w, cx, cy - 1)] {
        seq![step_to(cx, cy - 1, WallKind::H, cx, cy)]
    } else {
        Seq::empty()
    };
    let down = if cy + 1 < h && !vis[idx(w, cx, cy + 1)] {
        seq![step_to(cx, cy + 1, WallKind::H, cx, cy + 1)]
    } else {
        Seq::empty()
    };
    let left = if cx > 0 && !vis[idx(w, cx - 1, cy)] {
        seq![step_to(cx - 1, cy, WallKind::V, cx, cy)]
    } else {
        Seq::empty()
    };
    let right = if cx + 1 < w && !vis[idx(w, cx + 1, cy)] {
        seq![step_to(cx + 1, cy, WallKind::V, cx + 1, cy)]
    } else {
        Seq::empty()
    };
    assert(cs == up + down + left + right);
    let n1 = up.len() as int;
    let n2 = n1 + down.len();
    let n3 = n2 + left.len();
    assert forall|i: int| 0 <= i < cs.len() implies {
        &&& (i < n1 ==> cs[i] == up[i])
        &&& (n1 <= i < n2 ==> cs[i] == down[i - n1])
        &&& (n2 <= i < n3 ==> cs[i] == left[i - n2])
        &&& (n3 <= i ==> cs[i] == right[i - n3])
    } by {}
    assert forall|i: int, j: int| 0 <= i < j < cs.len() implies move_rank(cx, cy, #[trigger] cs[i].cell) < move_rank(
        cx,
        cy,
        #[trigger] cs[j].cell,
    ) by {}
    assert forall|i: int| 0 <= i < cs.len() implies {
        let st = #[trigger] cs[i];
        &&& in_grid(w, h, st.cell.0 as int, st.cell.1 as int)
        &&& !vis[idx(w, st.cell.0 as int, st.cell.1 as int)]
        &&& ((wall_sides(st).0 == (cx, cy) && wall_sides(st).1 == cell_of(st)) || (wall_sides(st).1 == (cx, cy)
            && wall_sides(st).0 == cell_of(st)))
    } by {
        let st = cs[i];
        assert(candidate_ok(w, h, vis, (cx, cy), (st.cell.0, st.cell.1, st.wall_kind, st.wall_pos.0, st.wall_pos.1)));
    }
    assert forall|nx: int, ny: int|
        in_grid(w, h, nx, ny) && ((nx == cx && (ny == cy - 1 || ny == cy + 1)) || (ny == cy && (nx == cx - 1 || nx
            == cx + 1))) && !#[trigger] vis[idx(w, nx, ny)] implies exists|i: int|
            0 <= i < cs.len() && cs[i].cell == (nx as usize, ny as usize) by {
        if nx == cx && ny == cy - 1 {
            assert(cs[0] == up[0]);
        } else if nx == cx && ny == cy + 1 {
            assert(cs[n1] == down[0]);
        } else if nx == cx - 1 {
            assert(cs[n2] == left[0]);
        } else {
            assert(cs[n3] == right[0]);
        }
    }
}

/// Opened walls of two runs of steps, one after the other, add up.
proof fn lemma_carved_compose(m0: Maze, m1: Maze, m2: Maze, a: Seq<CarvingStep>, b: Seq<CarvingStep>)
    requires
        carved_from(m0, m1, a),
        carved_from(m1, m2, b),
    ensures
        carved_from(m0, m2, a + b),
{
    let ab = a + b;
    assert forall|c: int, r: int| opened_h(ab, c, r) == (opened_h(a, c, r) || opened_h(b, c, r)) by {
        if opened_h(ab, c, r) {
            let j = choose|j: int| 0 <= j < ab.len() && #[trigger] opens_h(ab[j], c, r);
            if j < a.len() {
                assert(ab[j] == a[j]);
            } else {
                assert(ab[j] == b[j - a.len()]);
            }
        }
        if opened_h(a, c, r) {
            let j = choose|j: int| 0 <= j < a.len() && #[trigger] opens_h(a[j], c, r);
            assert(ab[j] == a[j]);
        }
        if opened_h(b, c, r) {
            let j = choose|j: int| 0 <= j < b.len() && #[trigger] opens_h(b[j], c, r);
            assert(ab[j + a.len()] == b[j]);
        }
    }
    assert forall|c: int, r: int| opened_v(ab, c, r) == (opened_v(a, c, r) || opened_v(b, c, r)) by {
        if opened_v(ab, c, r) {
            let j = choose|j: int| 0 <= j < ab.len() && #[trigger] opens_v(ab[j], c, r);
            if j < a.len() {
                assert(ab[j] == a[j]);
            } else {
                assert(ab[j] == b[j - a.len()]);
            }
        }
        if opened_v(a, c, r) {
            let j = choose|j: int| 0 <= j < a.len() && #[trigger] opens_v(a[j], c, r);
            assert(ab[j] == a[j]);
        }
        if opened_v(b, c, r) {
            let j = choose|j: int| 0 <= j < b.len() && #[trigger] opens_v(b[j], c, r);
            assert(ab[j + a.len()] == b[j]);
        }
    }
}

impl Maze {
    /// One carving move, once the choice among the candidates is made: takes
    /// step `candidates[choice]` from the cell on top of `stack`, whose
    /// candidates `open_candidates` listed; opens its wall, marks its cell in
    /// `visited`, pushes the cell on `stack` and records the step.
    pub fn carve_choice(
        &mut self,
        visited: &mut Vec<bool>,
        stack: &mut Vec<(usize, usize)>,
        steps: &mut Vec<CarvingStep>,
        candidates: &Vec<CarvingStep>,
        choice: usize,
    ) -> (s: CarvingStep)
        requires
            old(self).wf(),
            old(visited)@.len() == old(self).w() * old(self).h(),
            old(stack)@.len() > 0,
            in_grid(old(self).w(), old(self).h(), old(stack)@.last().0 as int, old(stack)@.last().1 as int),
            candidates@ == candidate_steps(
                old(self).w(),
                old(self).h(),
                old(visited)@,
                old(stack)@.last().0 as int,
                old(stack)@.last().1 as int,
            ),
            choice < candidates@.len(),
        ensures
            s == candidates@[choice as int],
            final(self).wf(),
            carved_from(*old(self), *final(self), seq![s]),
            in_grid(old(self).w(), old(self).h(), s.cell.0 as int, s.cell.1 as int),
            final(visited)@ == old(visited)@.update(idx(old(self).w(), s.cell.0 as int, s.cell.1 as int), true),
            final(stack)@ == old(stack)@.push(s.cell),
            final(steps)@ == old(steps)@.push(s),
    {
        proof {
            self.lemma_dims();
        }
        let ghost wi = self.w();
        let ghost hi = self.h();
        let ghost top = (stack@.last().0 as int, stack@.last().1 as int);
        let w = self.width();
        let s = candidates[choice];
        proof {
            lemma_candidate_steps_ok(wi, hi, visited@, top.0, top.1);
            assert(s == candidate_steps(wi, hi, visited@, top.0, top.1)[choice as int]);
            assert(candidate_ok(wi, hi, visited@, top, (s.cell.0, s.cell.1, s.wall_kind, s.wall_pos.0, s.wall_pos.1)));
            lemma_idx_bounds(wi, hi, s.cell.0 as int, s.cell.1 as int);
            assert(opened_h(Seq::<CarvingStep>::empty(), 0, 0) == false);
            assert(carved_from(*self, *self, Seq::<CarvingStep>::empty()));
        }
        let ghost m1 = *self;
        let (wx, wy) = s.wall_pos;
        match s.wall_kind {
            WallKind::H => {
                self.set_h_wall(wx, wy, false);
                proof {
                    lemma_carved_push_h(m1, m1, *self, Seq::empty(), s);
                }
            },
            WallKind::V => {
                self.set_v_wall(wx, wy, false);
                proof {
                    lemma_carved_push_v(m1, m1, *self, Seq::empty(), s);
                }
            },
        }
        proof {
            assert(Seq::<CarvingStep>::empty().push(s) =~= seq![s]);
        }
        let (nx, ny) = s.cell;
        visited.set(ny * w + nx, true);
        stack.push((nx, ny));
        steps.push(s);
        s
    }
}

impl Maze {
    /// Carves passages from the top-left cell by a randomized depth-first
    /// search: from the cell on top of the stack it opens the wall to a
    /// neighbour not yet entered, chosen with `rng`, and backtracks when
    /// there is none. Returns the steps in the order they were taken.
    #[verifier::rlimit(30)]
    pub fn generate(&mut self, rng: &mut StdRng) -> (steps: Vec<CarvingStep>)
        requires
            old(self).wf(),
            old(self).w() >= 1,
            old(self).h() >= 1,
        ensures
            final(self).wf(),
            carving_tree(old(self).w(), old(self).h(), steps@),
            depth_first(old(self).w(), old(self).h(), steps@),
            carved_from(*old(self), *final(self), steps@),
    {
        proof {
            self.lemma_dims();
        }
        let w = self.width();
        let h = self.height();
        let total = w * h;
        let ghost wi = w as int;
        let ghost hi = h as int;
        let mut visited: Vec<bool> = vec![false; total];
        let mut stack: Vec<(usize, usize)> = Vec::with_capacity(total);
        let mut steps: Vec<CarvingStep> = Vec::new();
        proof {
            lemma_dfs_init(wi, hi, visited@);
        }
        visited[0] = true;
        stack.push((0, 0));
        assert(stack@ == seq![(0usize, 0usize)]);
        assert(steps@ == Seq::<CarvingStep>::empty());
        let ghost mut sp: Seq<int> = seq![-1int];
        proof {
            lemma_dfs_order_init();
            assert(dfs_order(wi, hi, steps@, stack@, sp));
        }
        while stack.len() > 0
            invariant
                self.wf(),
                self.w() == w,
                self.h() == h,
                wi == w,
                hi == h,
                total == w * h,
                w * h <= usize::MAX,
                dfs_inv(wi, hi, visited@, steps@, stack@),
                dfs_order(wi, hi, steps@, stack@, sp),
                carved_from(*old(self), *self, steps@),
            decreases 2 * (total - steps@.len()) + stack@.len(),
        {
            proof {
                lemma_dfs_top(wi, hi, visited@, steps@, stack@);
            }
            let (cx, cy) = stack[stack.len() - 1];
            let ghost cur = (cx as int, cy as int);
            proof {
                lemma_idx_bounds(wi, hi, cx as int, cy as int);
            }
            let neighbors = open_candidates(&visited, w, h, cx, cy);
            if neighbors.len() == 0 {
                proof {
                    lemma_dfs_pop(wi, hi, visited@, steps@, stack@);
                    lemma_dfs_order_pop(wi, hi, steps@, stack@, sp);
                    sp = sp.drop_last();
                }
                stack.pop();
            } else {
                let choice = random_below(rng, neighbors.len());
                let ghost c = neighbors@[choice as int];
                let ghost e = (c.cell.0, c.cell.1, c.wall_kind, c.wall_pos.0, c.wall_pos.1);
                let ghost m1 = *self;
                let ghost old_steps = steps@;
                assert(candidate_ok(wi, hi, visited@, cur, e)) by {
                    lemma_candidate_steps_ok(wi, hi, visited@, cx as int, cy as int);
                    assert(c == candidate_steps(wi, hi, visited@, cx as int, cy as int)[choice as int]);
                }
                proof {
                    lemma_dfs_push(wi, hi, visited@, steps@, stack@, e);
                    lemma_dfs_order_push(wi, hi, visited@, steps@, stack@, sp, e);
                    sp = sp.push(steps@.len() as int);
                }
                let step = self.carve_choice(&mut visited, &mut stack, &mut steps, &neighbors, choice);
                proof {
                    lemma_carved_compose(*old(self), m1, *self, old_steps, seq![step]);
                    assert(old_steps + seq![step] =~= old_steps.push(step));
                }
            }
        }
        proof {
            lemma_dfs_done(wi, hi, visited@, steps@, stack@);
            lemma_dfs_order_depth_first(wi, hi, steps@, stack@, sp);
        }
        steps
    }
}

/// The identity `(is_horizontal, col, row)` of the wall that `s` opens.
pub open spec fn wall_id(s: CarvingStep) -> (bool, int, int) {
    (s.wall_kind == WallKind::H, s.wall_pos.0 as int, s.wall_pos.1 as int)
}

/// The wall that step `k` opens is open in the carved maze and joins the
/// step's cell to the earlier cell it was entered from.
proof fn lemma_step_wall_open(m0: Maze, m: Maze, steps: Seq<CarvingStep>, k: int) -> (p: (int, int))
    requires
        carving_tree(m.w(), m.h(), steps),
        carved_from(m0, m, steps),
        0 <= k < steps.len(),
    ensures
        discovered_before(steps, k, p),
        m.open_between(p, cell_of(steps[k])),
{
    let s = steps[k];
    let _t = cell_of(s);
    assert(links_back(m.w(), m.h(), steps, k));
    let a = wall_sides(s).0;
    let b = wall_sides(s).1;
    let x = s.wall_pos.0 as int;
    let y = s.wall_pos.1 as int;
    match s.wall_kind {
        WallKind::H => {
            assert(opens_h(steps[k], x, y));
            assert(!m.hw(x, y));
        },
        WallKind::V => {
            assert(opens_v(steps[k], x, y));
            assert(!m.vw(x, y));
        },
    }
    if cell_of(s) == b {
        a
    } else {
        b
    }
}

proof fn lemma_step_cell_reachable(m0: Maze, m: Maze, steps: Seq<CarvingStep>, k: int)
    requires
        m.w() >= 1,
        m.h() >= 1,
        carving_tree(m.w(), m.h(), steps),
        carved_from(m0, m, steps),
        0 <= k < steps.len(),
    ensures
        m.reachable(cell_of(steps[k])),
    decreases k,
{
    let p = lemma_step_wall_open(m0, m, steps, k);
    let c = cell_of(steps[k]);
    if p == (0int, 0int) {
        let r = seq![(0int, 0int)];
        assert(m.is_route_to(r, p));
        m.lemma_route_push(r, p, c);
        assert(m.is_route_to(r.push(c), c));
    } else {
        let j = choose|j: int| 0 <= j < k && #[trigger] cell_of(steps[j]) == p;
        lemma_step_cell_reachable(m0, m, steps, j);
        let r = choose|r: Seq<(int, int)>| #[trigger] m.is_route_to(r, p);
        m.lemma_route_push(r, p, c);
        assert(m.is_route_to(r.push(c), c));
    }
}

/// A carved maze is connected: every cell can be reached from the top-left
/// cell through open passages.
pub proof fn lemma_carved_maze_connected(m0: Maze, m: Maze, steps: Seq<CarvingStep>)
    requires
        m.w() >= 1,
        m.h() >= 1,
        carving_tree(m.w(), m.h(), steps),
        carved_from(m0, m, steps),
    ensures
        forall|x: int, y: int| in_grid(m.w(), m.h(), x, y) ==> #[trigger] m.reachable((x, y)),
{
    assert forall|x: int, y: int| in_grid(m.w(), m.h(), x, y) implies #[trigger] m.reachable((x, y)) by {
        if (x, y) == (0int, 0int) {
            let r = seq![(0int, 0int)];
            assert(m.is_route_to(r, (x, y)));
        } else {
            let k = choose|k: int| 0 <= k < steps.len() && #[trigger] cell_of(steps[k]) == (x, y);
            lemma_step_cell_reachable(m0, m, steps, k);
        }
    }
}

/// A maze carved from a fully walled one is a spanning tree of the grid:
/// the border stays closed and exactly `width * height - 1` walls are open,
/// one for each cell but the top-left one. Together with connectivity this
/// makes the maze perfect: between any two cells there is exactly one path.
pub proof fn lemma_carved_maze_is_tree(m0: Maze, m: Maze, steps: Seq<CarvingStep>)
    requires
        m.w() >= 1,
        m.h() >= 1,
        forall|c: int, r: int| 0 <= c < m0.w() && 0 <= r <= m0.h() ==> #[trigger] m0.hw(c, r),
        forall|c: int, r: int| 0 <= c <= m0.w() && 0 <= r < m0.h() ==> #[trigger] m0.vw(c, r),
        carving_tree(m.w(), m.h(), steps),
        carved_from(m0, m, steps),
    ensures
        m.border_closed(),
        m.open_walls().finite(),
        m.open_walls().len() == m.w() * m.h() - 1,
{
    let w = m.w();
    let h = m.h();
    let ws = steps.map_values(|s: CarvingStep| wall_id(s));
    // the walls that the steps open lie inside the grid, off the border
    assert forall|k: int| 0 <= k < steps.len() implies {
        let t = wall_id(#[trigger] steps[k]);
        if t.0 {
            0 <= t.1 < w && 1 <= t.2 < h
        } else {
            1 <= t.1 < w && 0 <= t.2 < h
        }
    } by {
        let _t = cell_of(steps[k]);
        assert(links_back(w, h, steps, k));
    }
    assert forall|c: int| 0 <= c < w implies #[trigger] m.hw(c, 0) && m.hw(c, h) by {
        if opened_h(steps, c, 0) {
            let k = choose|k: int| 0 <= k < steps.len() && #[trigger] opens_h(steps[k], c, 0);
            assert(wall_id(steps[k]).0);
        }
        if opened_h(steps, c, h) {
            let k = choose|k: int| 0 <= k < steps.len() && #[trigger] opens_h(steps[k], c, h);
            assert(wall_id(steps[k]).0);
        }
    }
    assert forall|r: int| 0 <= r < h implies #[trigger] m.vw(0, r) && m.vw(w, r) by {
        if opened_v(steps, 0, r) {
            let k = choose|k: int| 0 <= k < steps.len() && #[trigger] opens_v(steps[k], 0, r);
            assert(!wall_id(steps[k]).0);
        }
        if opened_v(steps, w, r) {
            let k = choose|k: int| 0 <= k < steps.len() && #[trigger] opens_v(steps[k], w, r);
            assert(!wall_id(steps[k]).0);
        }
    }
    // the open walls are exactly those the steps open
    assert forall|t: (bool, int, int)| #[trigger] m.open_walls().contains(t) == ws.to_set().contains(t) by {
        if m.open_walls().contains(t) {
            if t.0 {
                let k = choose|k: int| 0 <= k < steps.len() && #[trigger] opens_h(steps[k], t.1, t.2);
                assert(ws[k] == t);
            } else {
                let k = choose|k: int| 0 <= k < steps.len() && #[trigger] opens_v(steps[k], t.1, t.2);
                assert(ws[k] == t);
            }
        }
        if ws.to_set().contains(t) {
            let k = choose|k: int| 0 <= k < ws.len() && ws[k] == t;
            assert(ws[k] == wall_id(steps[k]));
            if t.0 {
                assert(opens_h(steps[k], t.1, t.2));
            } else {
                assert(opens_v(steps[k], t.1, t.2));
            }
        }
    }
    assert(m.open_walls() =~= ws.to_set());
    // no wall is opened twice
    assert forall|i: int, j: int| 0 <= i < ws.len() && 0 <= j < ws.len() && i != j implies ws[i]
        != ws[j] by {
        let lo = if i < j { i } else { j };
        let hi = if i < j { j } else { i };
        lemma_steps_open_distinct_walls(w, h, steps, lo, hi);
    }
    ws.unique_seq_to_set();
    vstd::seq_lib::seq_to_set_is_finite(ws);
}

/// Two different steps open two different walls.
proof fn lemma_steps_open_distinct_walls(w: int, h: int, steps: Seq<CarvingStep>, j: int, k: int)
    requires
        carving_tree(w, h, steps),
        0 <= j < k < steps.len(),
    ensures
        wall_id(steps[j]) != wall_id(steps[k]),
{
    if wall_id(steps[j]) == wall_id(steps[k]) {
        lemma_same_wall_found(w, h, steps, j, k);
    }
}

proof fn lemma_same_wall_found(w: int, h: int, steps: Seq<CarvingStep>, j: int, k: int)
    requires
        carving_tree(w, h, steps),
        0 <= j < k < steps.len(),
        wall_id(steps[j]) == wall_id(steps[k]),
    ensures
        discovered_before(steps, k, cell_of(steps[k])),
{
    let sj = steps[j];
    let sk = steps[k];
    let _tj = cell_of(sj);
    let _tk = cell_of(sk);
    assert(links_back(w, h, steps, j));
    assert(links_back(w, h, steps, k));
    assert(wall_sides(sj) == wall_sides(sk));
    let a = wall_sides(sj).0;
    let b = wall_sides(sj).1;
    // both sides of the wall were found before step k
    assert forall|c: (int, int)| discovered_before(steps, j, c) implies discovered_before(steps, k, c) by {
        if c != (0int, 0int) {
            let i = choose|i: int| 0 <= i < j && #[trigger] cell_of(steps[i]) == c;
        }
    }
    assert(discovered_before(steps, k, cell_of(sj)));
    assert(discovered_before(steps, k, a) && discovered_before(steps, k, b));
    let ck = cell_of(sk);
    assert(discovered_before(steps, k, ck));
}

/// When cell `c` was found: 0 for the top-left cell, `k + 1` for the cell
/// that step `k` entered.
spec fn found_order(steps: Seq<CarvingStep>, c: (int, int)) -> int {
    if c == (0int, 0int) {
        0
    } else {
        (choose|k: int| 0 <= k < steps.len() && #[trigger] cell_of(steps[k]) == c) + 1
    }
}


proof fn lemma_found_order_of_step(w: int, h: int, steps: Seq<CarvingStep>, k: int)
    requires
        carving_tree(w, h, steps),
        0 <= k < steps.len(),
    ensures
        found_order(steps, cell_of(steps[k])) == k + 1,
        forall|c: (int, int)| discovered_before(steps, k, c) ==> found_order(steps, c) <= k,
{
    let c = cell_of(steps[k]);
    let j = choose|j: int| 0 <= j < steps.len() && #[trigger] cell_of(steps[j]) == c;
    if j < k {
        assert(cell_of(steps[j]) != cell_of(steps[k]));
    } else if k < j {
        assert(cell_of(steps[k]) != cell_of(steps[j]));
    }
    assert forall|c2: (int, int)| discovered_before(steps, k, c2) implies found_order(steps, c2) <= k by {
        if c2 != (0int, 0int) {
            let i = choose|i: int| 0 <= i < k && #[trigger] cell_of(steps[i]) == c2;
            let i2 = choose|i2: int| 0 <= i2 < steps.len() && #[trigger] cell_of(steps[i2]) == c2;
            if i < i2 {
                assert(cell_of(steps[i]) != cell_of(steps[i2]));
            } else if i2 < i {
                assert(cell_of(steps[i2]) != cell_of(steps[i]));
            }
        }
    }
}

/// The step that opened the wall of an open passage of a maze carved from
/// a fully walled one.
proof fn lemma_passage_step(m0: Maze, m: Maze, steps: Seq<CarvingStep>, a: (int, int), b: (int, int)) -> (k: int)
    requires
        forall|c: int, r: int| 0 <= c < m0.w() && 0 <= r <= m0.h() ==> #[trigger] m0.hw(c, r),
        forall|c: int, r: int| 0 <= c <= m0.w() && 0 <= r < m0.h() ==> #[trigger] m0.vw(c, r),
        carved_from(m0, m, steps),
        m.open_between(a, b),
    ensures
        0 <= k < steps.len(),
        (wall_sides(steps[k]).0 == a && wall_sides(steps[k]).1 == b) || (wall_sides(steps[k]).0 == b
            && wall_sides(steps[k]).1 == a),
{
    if b.0 == a.0 && b.1 == a.1 - 1 && !m.hw(a.0, a.1) {
        assert(opened_h(steps, a.0, a.1));
        choose|k: int| 0 <= k < steps.len() && #[trigger] opens_h(steps[k], a.0, a.1)
    } else if b.0 == a.0 && b.1 == a.1 + 1 && !m.hw(a.0, b.1) {
        assert(opened_h(steps, a.0, b.1));
        choose|k: int| 0 <= k < steps.len() && #[trigger] opens_h(steps[k], a.0, b.1)
    } else if b.1 == a.1 && b.0 == a.0 - 1 && !m.vw(a.0, a.1) {
        assert(opened_v(steps, a.0, a.1));
        choose|k: int| 0 <= k < steps.len() && #[trigger] opens_v(steps[k], a.0, a.1)
    } else {
        assert(opened_v(steps, b.0, a.1));
        choose|k: int| 0 <= k < steps.len() && #[trigger] opens_v(steps[k], b.0, a.1)
    }
}

/// The wall of step `k` joins its cell, found `k + 1`-th, to the cell it
/// was entered from, found earlier.
proof fn lemma_step_parent(w: int, h: int, steps: Seq<CarvingStep>, k: int)
    requires
        carving_tree(w, h, steps),
        0 <= k < steps.len(),
    ensures
        ({
            let s = steps[k];
            &&& found_order(steps, cell_of(s)) == k + 1
            &&& found_order(steps, parent_cell(s)) <= k
            &&& (wall_sides(s).0 == cell_of(s) && wall_sides(s).1 == parent_cell(s)) || (wall_sides(s).1
                == cell_of(s) && wall_sides(s).0 == parent_cell(s))
        }),
{
    let s = steps[k];
    let _t = cell_of(s);
    assert(links_back(w, h, steps, k));
    lemma_found_order_of_step(w, h, steps, k);
    assert(discovered_before(steps, k, parent_cell(s)));
}

/// Some position of a non-empty sequence holds a largest value of `f`.
proof fn lemma_argmax(c: Seq<(int, int)>, f: spec_fn((int, int)) -> int, n: int) -> (i: int)
    requires
        1 <= n <= c.len(),
    ensures
        0 <= i < n,
        forall|j: int| 0 <= j < n ==> f(#[trigger] c[j]) <= f(c[i]),
    decreases n,
{
    if n == 1 {
        0
    } else {
        let i0 = lemma_argmax(c, f, n - 1);
        if f(c[n - 1]) > f(c[i0]) {
            n - 1
        } else {
            i0
        }
    }
}

/// A maze carved from a fully walled one has no cycle: together with
/// connectivity, between any two cells there is exactly one path.
#[verifier::rlimit(40)]
pub proof fn lemma_carved_maze_acyclic(m0: Maze, m: Maze, steps: Seq<CarvingStep>, c: Seq<(int, int)>)
    requires
        forall|x: int, r: int| 0 <= x < m0.w() && 0 <= r <= m0.h() ==> #[trigger] m0.hw(x, r),
        forall|x: int, r: int| 0 <= x <= m0.w() && 0 <= r < m0.h() ==> #[trigger] m0.vw(x, r),
        carving_tree(m.w(), m.h(), steps),
        carved_from(m0, m, steps),
    ensures
        !m.is_simple_cycle(c),
{
    if m.is_simple_cycle(c) {
        let n = c.len() as int;
        let f = |p: (int, int)| found_order(steps, p);
        let i = lemma_argmax(c, f, n);
        let prev = if i == 0 { n - 1 } else { i - 1 };
        let next = if i == n - 1 { 0 } else { i + 1 };
        assert(prev != next);
        assert(m.open_between(c[prev], c[i])) by {
            if i == 0 {
            } else {
                assert(m.open_between(c[i - 1], c[(i - 1) + 1]));
            }
        }
        assert(m.open_between(c[i], c[next])) by {
            if i < n - 1 {
                assert(m.open_between(c[i], c[i + 1]));
            }
        }
        let k1 = lemma_passage_step(m0, m, steps, c[prev], c[i]);
        let k2 = lemma_passage_step(m0, m, steps, c[i], c[next]);
        lemma_step_parent(m.w(), m.h(), steps, k1);
        lemma_step_parent(m.w(), m.h(), steps, k2);
        assert(f(c[prev]) <= f(c[i]));
        assert(f(c[next]) <= f(c[i]));
        assert(cell_of(steps[k1]) == c[i]);
        assert(cell_of(steps[k2]) == c[i]);
        assert(k1 == k2);
        assert(c[prev] == c[next]);
    }
}

/// The maze that `generate` carves from a fully walled one is perfect: every
/// cell can be reached from the top-left cell, there is no cycle, any two
/// cells are joined by a path and by no more than one, the border stays
/// closed, and exactly `width * height - 1` walls are open.
pub proof fn lemma_carved_maze_is_perfect(m0: Maze, m: Maze, steps: Seq<CarvingStep>)
    requires
        m.w() >= 1,
        m.h() >= 1,
        forall|x: int, r: int| 0 <= x < m0.w() && 0 <= r <= m0.h() ==> #[trigger] m0.hw(x, r),
        forall|x: int, r: int| 0 <= x <= m0.w() && 0 <= r < m0.h() ==> #[trigger] m0.vw(x, r),
        carving_tree(m.w(), m.h(), steps),
        carved_from(m0, m, steps),
    ensures
        forall|x: int, y: int| in_grid(m.w(), m.h(), x, y) ==> #[trigger] m.reachable((x, y)),
        forall|c: Seq<(int, int)>| !(#[trigger] m.is_simple_cycle(c)),
        forall|p: Seq<(int, int)>, q: Seq<(int, int)>|
            #[trigger] m.is_simple_path(p) && #[trigger] m.is_simple_path(q) && p[0] == q[0] && p.last()
                == q.last() ==> p == q,
        forall|a: (int, int), b: (int, int)|
            in_grid(m.w(), m.h(), a.0, a.1) && in_grid(m.w(), m.h(), b.0, b.1) ==> #[trigger] m.joined(a, b),
        m.border_closed(),
        m.open_walls().len() == m.w() * m.h() - 1,
{
    lemma_carved_maze_connected(m0, m, steps);
    assert forall|a: (int, int), b: (int, int)|
        in_grid(m.w(), m.h(), a.0, a.1) && in_grid(m.w(), m.h(), b.0, b.1) implies #[trigger] m.joined(a, b) by {
        assert(m.reachable((a.0, a.1)));
        assert(m.reachable((b.0, b.1)));
        m.lemma_reachable_cells_joined(a, b);
    }
    lemma_carved_maze_is_tree(m0, m, steps);
    assert forall|c: Seq<(int, int)>| !(#[trigger] m.is_simple_cycle(c)) by {
        lemma_carved_maze_acyclic(m0, m, steps, c);
    }
    assert forall|p: Seq<(int, int)>, q: Seq<(int, int)>|
        #[trigger] m.is_simple_path(p) && #[trigger] m.is_simple_path(q) && p[0] == q[0] && p.last()
            == q.last() implies p == q by {
        lemma_carved_maze_unique_paths(m0, m, steps, p, q);
    }
}

/// The first position from `lo` on that satisfies `pred`, given that `hi` does.
proof fn lemma_first_hit(pred: spec_fn(int) -> bool, lo: int, hi: int) -> (j: int)
    requires
        lo <= hi,
        pred(hi),
    ensures
        lo <= j <= hi,
        pred(j),
        forall|t: int| lo <= t < j ==> !#[trigger] pred(t),
    decreases hi - lo,
{
    if pred(lo) {
        lo
    } else {
        lemma_first_hit(pred, lo + 1, hi)
    }
}

/// Two different paths between the same two cells contain a cycle.
proof fn lemma_two_paths_make_cycle(m: Maze, p: Seq<(int, int)>, q: Seq<(int, int)>) -> (c: Seq<(int, int)>)
    requires
        m.is_simple_path(p),
        m.is_simple_path(q),
        p[0] == q[0],
        p.last() == q.last(),
        p != q,
    ensures
        m.is_simple_cycle(c),
{
    // p and q part at some position d >= 1
    let pred = |i: int| 0 <= i < p.len() && 0 <= i < q.len() && p[i] != q[i];
    let d: int = if exists|i: int| 0 <= i < p.len() && 0 <= i < q.len() && p[i] != q[i] {
        let i0 = choose|i: int| 0 <= i < p.len() && 0 <= i < q.len() && p[i] != q[i];
        lemma_first_hit(pred, 0, i0)
    } else {
        // one is a proper prefix of the other: impossible for paths with the same end
        if p.len() < q.len() {
            assert(q[p.len() - 1] == p[p.len() - 1]);
            assert(q[p.len() - 1] == q[q.len() - 1]);
        } else if q.len() < p.len() {
            assert(p[q.len() - 1] == q[q.len() - 1]);
            assert(p[q.len() - 1] == p[p.len() - 1]);
        } else {
            assert(p =~= q);
        }
        0
    };
    assert(1 <= d < p.len() && d < q.len() && p[d] != q[d]);
    assert forall|t: int| 0 <= t < d implies p[t] == q[t] by {
        assert(!pred(t));
    }
    // the first cell of p from d on that q also passes after position d
    let hit = |x: int| d <= x < p.len() && exists|y: int| d <= y < q.len() && q[y] == p[x];
    assert(hit(p.len() - 1)) by {
        assert(q[q.len() - 1] == p[p.len() - 1]);
    }
    let j = lemma_first_hit(hit, d, p.len() - 1);
    let l = choose|y: int| d <= y < q.len() && q[y] == p[j];
    let n1 = j - d + 2;
    let n = n1 + (l - d);
    let c = Seq::new(n as nat, |a: int| if a < n1 { p[d - 1 + a] } else { q[l - 1 - (a - n1)] });
    assert(n >= 3) by {
        if j == d {
            assert(l != d);
        }
    }
    // consecutive cells are joined by open passages
    assert forall|a: int| 0 <= a < c.len() - 1 implies #[trigger] m.open_between(c[a], c[a + 1]) by {
        if a + 1 < n1 {
            let x = d - 1 + a;
            assert(m.open_between(p[x], p[x + 1]));
        } else if a + 1 == n1 {
            // from p[j] = q[l] back to q[l - 1]
            assert(c[a] == q[l]);
            assert(c[a + 1] == q[l - 1]);
            assert(m.open_between(q[l - 1], q[(l - 1) + 1]));
            m.lemma_open_between_symmetric(q[l - 1], q[l]);
        } else {
            let y = l - 1 - (a - n1);
            assert(c[a] == q[y] && c[a + 1] == q[y - 1]);
            assert(m.open_between(q[y - 1], q[(y - 1) + 1]));
            m.lemma_open_between_symmetric(q[y - 1], q[y]);
        }
    }
    assert(m.open_between(c.last(), c[0])) by {
        assert(c[0] == p[d - 1]);
        assert(p[d - 1] == q[d - 1]);
        assert(c.last() == q[d]) by {
            if l == d {
                assert(c.last() == p[j]);
            }
        }
        assert(m.open_between(q[d - 1], q[(d - 1) + 1]));
        m.lemma_open_between_symmetric(q[d - 1], q[d]);
    }
    // no cell comes twice
    assert forall|a: int, b: int| 0 <= a < c.len() && 0 <= b < c.len() && a != b implies c[a] != c[b] by {
        if a < n1 && b < n1 {
            assert(p[d - 1 + a] != p[d - 1 + b]);
        } else if a >= n1 && b >= n1 {
            assert(q[l - 1 - (a - n1)] != q[l - 1 - (b - n1)]);
        } else {
            let (x, y) = if a < n1 { (d - 1 + a, l - 1 - (b - n1)) } else { (d - 1 + b, l - 1 - (a - n1)) };
            // p[x] against q[y] with d <= y < l
            if x == d - 1 {
                assert(p[x] == q[d - 1]);
                assert(q[d - 1] != q[y]);
            } else if x < j {
                assert(!hit(x));
            } else {
                assert(p[x] == q[l]);
                assert(q[l] != q[y]);
            }
        }
    }
    c
}

/// In a maze carved from a fully walled one there is exactly one path
/// between any two cells: two paths with the same ends are the same.
pub proof fn lemma_carved_maze_unique_paths(m0: Maze, m: Maze, steps: Seq<CarvingStep>, p: Seq<(int, int)>, q: Seq<(int, int)>)
    requires
        forall|x: int, r: int| 0 <= x < m0.w() && 0 <= r <= m0.h() ==> #[trigger] m0.hw(x, r),
        forall|x: int, r: int| 0 <= x <= m0.w() && 0 <= r < m0.h() ==> #[trigger] m0.vw(x, r),
        carving_tree(m.w(), m.h(), steps),
        carved_from(m0, m, steps),
        m.is_simple_path(p),
        m.is_simple_path(q),
        p[0] == q[0],
        p.last() == q.last(),
    ensures
        p == q,
{
    if p != q {
        let c = lemma_two_paths_make_cycle(m, p, q);
        lemma_carved_maze_acyclic(m0, m, steps, c);
    }
}

} // verus!
