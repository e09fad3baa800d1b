//! Solving a maze by breadth-first search from the top-left cell to the
//! bottom-right cell.

use vstd::prelude::*;
use std::collections::VecDeque;
use crate::grid::{idx, in_grid, count_true, lemma_idx_bounds, lemma_idx_injective, lemma_last_idx,
    lemma_count_true_bounds, lemma_count_true_set};
use crate::maze::Maze;

verus! {

pub open spec fn pos(t: (usize, usize)) -> (int, int) {
    (t.0 as int, t.1 as int)
}

/// `p` is a route from the top-left cell to `c` and no route there is shorter.
pub open spec fn is_shortest_route(m: Maze, p: Seq<(int, int)>, c: (int, int)) -> bool {
    &&& m.is_route_to(p, c)
    &&& forall|q: Seq<(int, int)>| #[trigger] m.is_route_to(q, c) ==> p.len() <= q.len()
}

/// The shortest route from the top-left cell to `c` takes `d` moves.
pub open spec fn at_distance(m: Maze, c: (int, int), d: int) -> bool {
    exists|p: Seq<(int, int)>| #[trigger] is_shortest_route(m, p, c) && p.len() == d + 1
}

/// The bottom-right cell, where the solver heads.
pub open spec fn goal(m: Maze) -> (int, int) {
    (m.w() - 1, m.h() - 1)
}

/// Rank of the direction from cell `a` to its neighbour `b`, in the order
/// the search looks: up, down, left, right.
pub open spec fn dir_rank(a: (int, int), b: (int, int)) -> int {
    if b == (a.0, a.1 - 1) {
        0
    } else if b == (a.0, a.1 + 1) {
        1
    } else if b == (a.0 - 1, a.1) {
        2
    } else {
        3
    }
}

/// `e[j]` is the first cell of `e` joined to `c` by an open passage.
pub open spec fn first_link(m: Maze, e: Seq<(usize, usize)>, c: (int, int), j: int) -> bool {
    &&& 0 <= j < e.len()
    &&& m.open_between(pos(e[j]), c)
    &&& forall|t: int| 0 <= t < j ==> !m.open_between(pos(#[trigger] e[t]), c)
}

/// The search reaches a cell through position `j1` in direction `d1` before
/// one through position `j2` in direction `d2`.
pub open spec fn key_before(j1: int, d1: int, j2: int, d2: int) -> bool {
    j1 < j2 || (j1 == j2 && d1 < d2)
}

/// One of the first `n` cells of `e` has an open passage to `c`.
pub open spec fn linked_within(m: Maze, e: Seq<(usize, usize)>, c: (int, int), n: int) -> bool {
    exists|j: int| 0 <= j < n && #[trigger] first_link(m, e, c, j)
}

/// `a` is the first cell of `e` with an open passage to `b`.
pub open spec fn first_neighbour(m: Maze, e: Seq<(usize, usize)>, a: (int, int), b: (int, int)) -> bool {
    exists|j: int| #[trigger] first_link(m, e, b, j) && pos(e[j]) == a
}

/// `e` lists cells in the order in which a breadth-first search from the
/// top-left cell takes them off its queue, when each cell looks at its
/// neighbours up, down, left, right and the search stops once it takes the
/// bottom-right cell: each cell after the first has an open passage to an
/// earlier one; cells come in the order of the first earlier cell with an
/// open passage to them, then of the direction from it; and a cell left out
/// that has an open passage to a listed one was queued behind the
/// bottom-right cell, which the search reached.
pub open spec fn breadth_first_order(m: Maze, e: Seq<(usize, usize)>) -> bool {
    &&& forall|i: int| 1 <= i < e.len() ==> #[trigger] linked_within(m, e, pos(e[i]), i)
    &&& forall|i: int, i2: int, j: int, j2: int|
        1 <= i < i2 < e.len() && #[trigger] first_link(m, e, pos(e[i]), j) && #[trigger] first_link(
            m,
            e,
            pos(e[i2]),
            j2,
        ) ==> key_before(j, dir_rank(pos(e[j]), pos(e[i])), j2, dir_rank(pos(e[j2]), pos(e[i2])))
    &&& forall|c: (int, int), j: int|
        in_grid(m.w(), m.h(), c.0, c.1) && !e.contains((c.0 as usize, c.1 as usize)) && #[trigger] first_link(
            m,
            e,
            c,
            j,
        ) ==> m.reachable(goal(m)) && (j == e.len() - 1 || forall|jl: int|
            #[trigger] first_link(m, e, goal(m), jl) ==> key_before(
                jl,
                dir_rank(pos(e[jl]), goal(m)),
                j,
                dir_rank(pos(e[j]), c),
            ))
}

/// The cells found after the first were each found from the first cell of
/// the list with an open passage to them, which had been looked at, and they
/// are listed by that cell's position and then by direction.
#[verifier::opaque]
spec fn bfs_order(m: Maze, o: Seq<(usize, usize)>, par: Seq<int>, hp: int) -> bool {
    &&& forall|i: int| 0 < i < o.len() ==> #[trigger] first_link(m, o, pos(o[i]), par[i]) && par[i] <= hp
    &&& forall|i: int, i2: int|
        0 < i < i2 < o.len() ==> key_before(
            #[trigger] par[i],
            dir_rank(pos(o[par[i]]), pos(o[i])),
            #[trigger] par[i2],
            dir_rank(pos(o[par[i2]]), pos(o[i2])),
        )
}

proof fn lemma_order_init(m: Maze)
    ensures
        bfs_order(m, seq![(0usize, 0usize)], seq![0int], 0),
{
    reveal(bfs_order);
}

proof fn lemma_order_advance(m: Maze, o: Seq<(usize, usize)>, par: Seq<int>, hp: int)
    requires
        bfs_order(m, o, par, hp),
    ensures
        bfs_order(m, o, par, hp + 1),
        forall|i: int| 0 < i < o.len() ==> #[trigger] par[i] < hp + 1,
{
    reveal(bfs_order);
    assert forall|i: int| 0 < i < o.len() implies #[trigger] par[i] < hp + 1 by {
        assert(first_link(m, o, pos(o[i]), par[i]));
    }
    assert forall|i: int| 0 < i < o.len() implies #[trigger] first_link(m, o, pos(o[i]), par[i]) && par[i] <= hp + 1 by {
        assert(first_link(m, o, pos(o[i]), par[i]));
    }
}

spec fn on_list(o: Seq<(usize, usize)>, c: (int, int)) -> bool {
    exists|i: int| 0 <= i < o.len() && #[trigger] pos(o[i]) == c
}

/// Cell `c` was found, at a recorded distance of at most `d`.
spec fn reached_within(o: Seq<(usize, usize)>, ds: Seq<int>, c: (int, int), d: int) -> bool {
    exists|j: int| 0 <= j < o.len() && #[trigger] pos(o[j]) == c && ds[j] <= d
}

/// The cell at position `i` was found from an earlier position, one move
/// further out, through an open passage, and the parent array records it.
spec fn parent_link(
    m: Maze,
    parent: Seq<usize>,
    o: Seq<(usize, usize)>,
    ds: Seq<int>,
    par: Seq<int>,
    i: int,
) -> bool {
    &&& 0 <= par[i] < i
    &&& ds[i] == ds[par[i]] + 1
    &&& m.open_between(pos(o[par[i]]), pos(o[i]))
    &&& parent[idx(m.w(), pos(o[i]).0, pos(o[i]).1)] == idx(m.w(), pos(o[par[i]]).0, pos(o[par[i]]).1)
}

/// What the breadth-first search keeps true. `o` lists the cells found, in
/// the order found (the cells taken off the queue, then the queue); `ds`
/// their recorded distances, `par` the position in `o` of the cell each was
/// found from; the first `hp` cells of `o` have had all their neighbours
/// looked at.
#[verifier::opaque]
spec fn bfs_inv(
    m: Maze,
    vis: Seq<bool>,
    parent: Seq<usize>,
    o: Seq<(usize, usize)>,
    ds: Seq<int>,
    par: Seq<int>,
    hp: int,
) -> bool {
    let w = m.w();
    let h = m.h();
    &&& w >= 1
    &&& h >= 1
    &&& w * h <= usize::MAX
    &&& vis.len() == w * h
    &&& parent.len() == w * h
    &&& o.len() >= 1
    &&& ds.len() == o.len()
    &&& par.len() == o.len()
    &&& o[0] == (0usize, 0usize)
    &&& ds[0] == 0
    &&& parent[0] == usize::MAX
    &&& 0 <= hp <= o.len()
    &&& forall|i: int| 0 <= i < o.len() ==> in_grid(w, h, (#[trigger] pos(o[i])).0, pos(o[i]).1)
    &&& forall|i: int, j: int| 0 <= i < j < o.len() ==> #[trigger] o[i] != #[trigger] o[j]
    &&& forall|x: int, y: int| in_grid(w, h, x, y) ==> (#[trigger] vis[idx(w, x, y)] <==> on_list(o, (x, y)))
    &&& forall|x: int, y: int|
        in_grid(w, h, x, y) && !on_list(o, (x, y)) ==> #[trigger] parent[idx(w, x, y)] == usize::MAX
    &&& forall|i: int| 0 < i < o.len() ==> #[trigger] parent_link(m, parent, o, ds, par, i)
    &&& forall|i: int, j: int| 0 <= i < j < o.len() ==> #[trigger] ds[i] <= #[trigger] ds[j]
    &&& hp < o.len() ==> forall|j: int| 0 <= j < o.len() ==> #[trigger] ds[j] <= ds[hp] + 1
    &&& forall|i: int, n: (int, int)|
        0 <= i < hp && #[trigger] m.open_between(pos(o[i]), n) ==> reached_within(o, ds, n, ds[i] + 1)
    &&& count_true(vis) == o.len()
}

/// A found cell lies on the grid and has a number that fits the arrays.
proof fn lemma_bfs_cell(
    m: Maze,
    vis: Seq<bool>,
    parent: Seq<usize>,
    o: Seq<(usize, usize)>,
    ds: Seq<int>,
    par: Seq<int>,
    hp: int,
    i: int,
)
    requires
        bfs_inv(m, vis, parent, o, ds, par, hp),
        0 <= i < o.len(),
    ensures
        in_grid(m.w(), m.h(), pos(o[i]).0, pos(o[i]).1),
        0 <= idx(m.w(), pos(o[i]).0, pos(o[i]).1) < m.w() * m.h(),
        m.w() * m.h() <= usize::MAX,
        o.len() <= m.w() * m.h(),
        vis.len() == m.w() * m.h(),
        parent.len() == m.w() * m.h(),
        ds.len() == o.len(),
        par.len() == o.len(),
        0 <= hp <= o.len(),
{
    reveal(bfs_inv);
    lemma_idx_bounds(m.w(), m.h(), pos(o[i]).0, pos(o[i]).1);
    lemma_count_true_bounds(vis);
}

proof fn lemma_pos_injective(a: (usize, usize), b: (usize, usize))
    requires
        pos(a) == pos(b),
    ensures
        a == b,
{
}

proof fn lemma_bfs_init(m: Maze, vis: Seq<bool>, parent: Seq<usize>)
    requires
        m.w() >= 1,
        m.h() >= 1,
        m.w() * m.h() <= usize::MAX,
        vis.len() == m.w() * m.h(),
        parent.len() == m.w() * m.h(),
        forall|i: int| 0 <= i < vis.len() ==> !vis[i],
        forall|i: int| 0 <= i < parent.len() ==> parent[i] == usize::MAX,
    ensures
        bfs_inv(m, vis.update(0, true), parent, seq![(0usize, 0usize)], seq![0int], seq![0int], 0),
{
    reveal(bfs_inv);
    let w = m.w();
    let h = m.h();
    lemma_idx_bounds(w, h, 0, 0);
    lemma_count_true_bounds(vis);
    lemma_count_true_set(vis, 0);
    let v = vis.update(0, true);
    let o = seq![(0usize, 0usize)];
    assert(pos(o[0]) == (0int, 0int));
    assert forall|x: int, y: int| in_grid(w, h, x, y) implies (#[trigger] v[idx(w, x, y)] <==> on_list(o, (x, y))) by {
        lemma_idx_bounds(w, h, x, y);
        if idx(w, x, y) == 0 {
            lemma_idx_injective(w, x, y, 0, 0);
        }
    }
    assert forall|x: int, y: int| in_grid(w, h, x, y) && !on_list(o, (x, y)) implies #[trigger] parent[idx(w, x, y)] == usize::MAX by {
        lemma_idx_bounds(w, h, x, y);
    }
}

/// Enqueueing an unmarked open neighbour `n` of the cell being looked at.
proof fn lemma_bfs_enqueue(
    m: Maze,
    vis: Seq<bool>,
    parent: Seq<usize>,
    o: Seq<(usize, usize)>,
    ds: Seq<int>,
    par: Seq<int>,
    hp: int,
    n: (usize, usize),
)
    requires
        bfs_inv(m, vis, parent, o, ds, par, hp),
        0 <= hp < o.len(),
        m.open_between(pos(o[hp]), pos(n)),
        !vis[idx(m.w(), pos(n).0, pos(n).1)],
    ensures
        0 <= idx(m.w(), pos(n).0, pos(n).1) < vis.len(),
        0 <= idx(m.w(), pos(o[hp]).0, pos(o[hp]).1) < vis.len(),
        bfs_inv(
            m,
            vis.update(idx(m.w(), pos(n).0, pos(n).1), true),
            parent.update(idx(m.w(), pos(n).0, pos(n).1), idx(m.w(), pos(o[hp]).0, pos(o[hp]).1) as usize),
            o.push(n),
            ds.push(ds[hp] + 1),
            par.push(hp),
            hp,
        ),
        reached_within(o.push(n), ds.push(ds[hp] + 1), pos(n), ds[hp] + 1),
        forall|c: (int, int), d: int| reached_within(o, ds, c, d) ==> reached_within(o.push(n), ds.push(ds[hp] + 1), c, d),
{
    reveal(bfs_inv);
    let w = m.w();
    let h = m.h();
    let u = pos(o[hp]);
    let nn = pos(n);
    let ni = idx(w, nn.0, nn.1);
    let ui = idx(w, u.0, u.1);
    lemma_idx_bounds(w, h, nn.0, nn.1);
    lemma_idx_bounds(w, h, u.0, u.1);
    lemma_count_true_set(vis, ni);
    let v2 = vis.update(ni, true);
    let p2 = parent.update(ni, ui as usize);
    let o2 = o.push(n);
    let d2 = ds.push(ds[hp] + 1);
    let r2 = par.push(hp);
    let k = o.len() as int;
    assert(o2[k] == n && d2[k] == ds[hp] + 1 && r2[k] == hp);
    assert forall|j: int| 0 <= j < k implies #[trigger] o2[j] == o[j] && d2[j] == ds[j] && r2[j] == par[j] by {}
    assert(!on_list(o, nn));
    assert forall|c: (int, int)| #[trigger] on_list(o2, c) == (on_list(o, c) || c == nn) by {
        if on_list(o2, c) && c != nn {
            let i = choose|i: int| 0 <= i < o2.len() && #[trigger] pos(o2[i]) == c;
            assert(pos(o[i]) == c);
        }
        if on_list(o, c) {
            let i = choose|i: int| 0 <= i < o.len() && #[trigger] pos(o[i]) == c;
            assert(pos(o2[i]) == c);
        }
        if c == nn {
            assert(pos(o2[k]) == c);
        }
    }
    assert forall|c: (int, int), d: int| reached_within(o, ds, c, d) implies reached_within(o2, d2, c, d) by {
        let j = choose|j: int| 0 <= j < o.len() && #[trigger] pos(o[j]) == c && ds[j] <= d;
        assert(pos(o2[j]) == c);
    }
    assert(pos(o2[k]) == nn);
    assert(reached_within(o2, d2, nn, ds[hp] + 1));
    assert forall|i: int| 0 <= i < o2.len() implies in_grid(w, h, (#[trigger] pos(o2[i])).0, pos(o2[i]).1) by {
        if i < k {
            assert(pos(o2[i]) == pos(o[i]));
        }
    }
    assert forall|i: int, j: int| 0 <= i < j < o2.len() implies #[trigger] o2[i] != #[trigger] o2[j] by {
        if j == k {
            if o2[i] == n {
                assert(pos(o[i]) == nn);
            }
        }
    }
    assert forall|x: int, y: int| in_grid(w, h, x, y) implies (#[trigger] v2[idx(w, x, y)] <==> on_list(o2, (x, y))) by {
        lemma_idx_bounds(w, h, x, y);
        if idx(w, x, y) == ni {
            lemma_idx_injective(w, x, y, nn.0, nn.1);
        }
        assert(on_list(o2, (x, y)) == (on_list(o, (x, y)) || (x, y) == nn));
    }
    assert forall|x: int, y: int| in_grid(w, h, x, y) && !on_list(o2, (x, y)) implies #[trigger] p2[idx(w, x, y)] == usize::MAX by {
        lemma_idx_bounds(w, h, x, y);
        assert(on_list(o2, (x, y)) == (on_list(o, (x, y)) || (x, y) == nn));
        if idx(w, x, y) == ni {
            lemma_idx_injective(w, x, y, nn.0, nn.1);
        }
    }
    assert forall|i: int| 0 < i < o2.len() implies #[trigger] parent_link(m, p2, o2, d2, r2, i) by {
        if i < k {
            assert(parent_link(m, parent, o, ds, par, i));
            let pi = par[i];
            assert(o2[pi] == o[pi] && d2[pi] == ds[pi]);
            let ci = pos(o[i]);
            assert(p2[idx(w, ci.0, ci.1)] == parent[idx(w, ci.0, ci.1)]) by {
                lemma_idx_bounds(w, h, ci.0, ci.1);
                if idx(w, ci.0, ci.1) == ni {
                    lemma_idx_injective(w, ci.0, ci.1, nn.0, nn.1);
                    lemma_pos_injective(o[i], n);
                }
            }
        } else {
            assert(o2[hp] == o[hp]);
        }
    }
    assert forall|i: int, j: int| 0 <= i < j < o2.len() implies #[trigger] d2[i] <= #[trigger] d2[j] by {
        if j == k {
            assert(ds[i] <= ds[hp] + 1);
        }
    }
    assert forall|i: int, c: (int, int)| 0 <= i < hp && #[trigger] m.open_between(pos(o2[i]), c)
        implies reached_within(o2, d2, c, d2[i] + 1) by {
        assert(o2[i] == o[i]);
        assert(reached_within(o, ds, c, ds[i] + 1));
    }
    assert(pos(o[0]) == (0int, 0int));
    assert(on_list(o, (0int, 0int)));
    assert(idx(w, 0, 0) == 0);
    assert(vis[idx(w, 0, 0)]);
    assert(ni != 0);
    assert(p2[0] == usize::MAX);
    assert(o2[0] == (0usize, 0usize) && d2[0] == 0);
    assert(count_true(v2) == o2.len());
}

/// An open neighbour of the cell being looked at that is already marked was
/// found within one more move.
proof fn lemma_bfs_seen(
    m: Maze,
    vis: Seq<bool>,
    parent: Seq<usize>,
    o: Seq<(usize, usize)>,
    ds: Seq<int>,
    par: Seq<int>,
    hp: int,
    n: (int, int),
)
    requires
        bfs_inv(m, vis, parent, o, ds, par, hp),
        0 <= hp < o.len(),
        in_grid(m.w(), m.h(), n.0, n.1),
        vis[idx(m.w(), n.0, n.1)],
    ensures
        reached_within(o, ds, n, ds[hp] + 1),
{
    reveal(bfs_inv);
    let j = choose|j: int| 0 <= j < o.len() && #[trigger] pos(o[j]) == n;
    assert(ds[j] <= ds[hp] + 1);
}

/// Enqueueing keeps the order of the list: the new cell's first open
/// neighbour on the list is the cell being looked at, and it comes after all
/// cells found from earlier cells or in earlier directions.
proof fn lemma_order_enqueue(
    m: Maze,
    vis: Seq<bool>,
    parent: Seq<usize>,
    o: Seq<(usize, usize)>,
    ds: Seq<int>,
    par: Seq<int>,
    hp: int,
    n: (usize, usize),
)
    requires
        bfs_inv(m, vis, parent, o, ds, par, hp),
        bfs_order(m, o, par, hp),
        0 <= hp < o.len(),
        m.open_between(pos(o[hp]), pos(n)),
        !vis[idx(m.w(), pos(n).0, pos(n).1)],
        forall|i: int| 0 < i < o.len() && #[trigger] par[i] == hp ==> dir_rank(pos(o[hp]), pos(o[i])) < dir_rank(
            pos(o[hp]),
            pos(n),
        ),
    ensures
        bfs_order(m, o.push(n), par.push(hp), hp),
{
    reveal(bfs_order);
    lemma_bfs_cell(m, vis, parent, o, ds, par, hp, hp);
    let o2 = o.push(n);
    let p2 = par.push(hp);
    let k = o.len() as int;
    assert(!on_list(o, pos(n))) by {
        reveal(bfs_inv);
    }
    assert forall|t: int| 0 <= t < hp implies !m.open_between(pos(#[trigger] o2[t]), pos(n)) by {
        assert(o2[t] == o[t]);
        if m.open_between(pos(o[t]), pos(n)) {
            reveal(bfs_inv);
            assert(reached_within(o, ds, pos(n), ds[t] + 1));
        }
    }
    assert(o2[hp] == o[hp]);
    assert(first_link(m, o2, pos(o2[k]), p2[k]));
    assert forall|i: int| 0 < i < o2.len() implies #[trigger] first_link(m, o2, pos(o2[i]), p2[i]) && p2[i] <= hp by {
        if i < k {
            assert(first_link(m, o, pos(o[i]), par[i]));
            assert(o2[i] == o[i] && p2[i] == par[i]);
            assert forall|t: int| 0 <= t < par[i] implies !m.open_between(pos(#[trigger] o2[t]), pos(o2[i])) by {
                assert(o2[t] == o[t]);
            }
            assert(o2[par[i]] == o[par[i]]);
        }
    }
    assert forall|i: int, i2: int| 0 < i < i2 < o2.len() implies key_before(
        #[trigger] p2[i],
        dir_rank(pos(o2[p2[i]]), pos(o2[i])),
        #[trigger] p2[i2],
        dir_rank(pos(o2[p2[i2]]), pos(o2[i2])),
    ) by {
        assert(o2[i] == o[i] && p2[i] == par[i]);
        assert(first_link(m, o, pos(o[i]), par[i]));
        assert(o2[par[i]] == o[par[i]]);
        if i2 < k {
            assert(o2[i2] == o[i2] && p2[i2] == par[i2]);
            assert(first_link(m, o, pos(o[i2]), par[i2]));
            assert(o2[par[i2]] == o[par[i2]]);
        } else {
            assert(p2[i2] == hp && o2[i2] == n);
            if par[i] == hp {
                assert(dir_rank(pos(o[hp]), pos(o[i])) < dir_rank(pos(o[hp]), pos(n)));
            }
        }
    }
}

/// Once every open neighbour of cell `hp` is found, that cell counts as looked at.
proof fn lemma_bfs_advance(
    m: Maze,
    vis: Seq<bool>,
    parent: Seq<usize>,
    o: Seq<(usize, usize)>,
    ds: Seq<int>,
    par: Seq<int>,
    hp: int,
)
    requires
        bfs_inv(m, vis, parent, o, ds, par, hp),
        0 <= hp < o.len(),
        forall|n: (int, int)| #[trigger] m.open_between(pos(o[hp]), n) ==> reached_within(o, ds, n, ds[hp] + 1),
    ensures
        bfs_inv(m, vis, parent, o, ds, par, hp + 1),
{
    reveal(bfs_inv);
    assert forall|i: int, n: (int, int)|
        0 <= i < hp + 1 && #[trigger] m.open_between(pos(o[i]), n) implies reached_within(o, ds, n, ds[i] + 1) by {
        if i == hp {
            assert(m.open_between(pos(o[hp]), n));
        }
    }
    if hp + 1 < o.len() {
        assert forall|j: int| 0 <= j < o.len() implies #[trigger] ds[j] <= ds[hp + 1] + 1 by {
            assert(ds[j] <= ds[hp] + 1);
            assert(ds[hp] <= ds[hp + 1]);
        }
    }
    assert(0 <= hp + 1 <= o.len());
}

/// No route reaches a found cell in fewer moves than its recorded distance,
/// and a cell not yet found lies beyond the cell being looked at.
proof fn lemma_bfs_lower_bound(
    m: Maze,
    vis: Seq<bool>,
    parent: Seq<usize>,
    o: Seq<(usize, usize)>,
    ds: Seq<int>,
    par: Seq<int>,
    hp: int,
    r: Seq<(int, int)>,
    v: (int, int),
)
    requires
        bfs_inv(m, vis, parent, o, ds, par, hp),
        m.is_route_to(r, v),
    ensures
        forall|i: int| 0 <= i < o.len() && #[trigger] pos(o[i]) == v ==> r.len() - 1 >= ds[i],
        !on_list(o, v) ==> hp < o.len() && r.len() - 1 >= ds[hp] + 1,
    decreases r.len(),
{
    reveal(bfs_inv);
    if r.len() == 1 {
        assert(pos(o[0]) == v);
        assert forall|i: int| 0 <= i < o.len() && #[trigger] pos(o[i]) == v implies r.len() - 1 >= ds[i] by {
            lemma_pos_injective(o[i], o[0]);
            if i != 0 {
                assert(o[0] != o[i]);
            }
        }
    } else {
        let r1 = r.drop_last();
        let u = r1.last();
        m.lemma_route_pop(r, v);
        lemma_bfs_lower_bound(m, vis, parent, o, ds, par, hp, r1, u);
        let len = r.len() - 1;
        if on_list(o, u) {
            let iu = choose|iu: int| 0 <= iu < o.len() && #[trigger] pos(o[iu]) == u;
            assert(len - 1 >= ds[iu]);
            if iu < hp {
                assert(m.open_between(pos(o[iu]), v));
                assert(reached_within(o, ds, v, ds[iu] + 1));
                let j = choose|j: int| 0 <= j < o.len() && #[trigger] pos(o[j]) == v && ds[j] <= ds[iu] + 1;
                assert forall|i: int| 0 <= i < o.len() && #[trigger] pos(o[i]) == v implies len >= ds[i] by {
                    lemma_pos_injective(o[i], o[j]);
                    if i < j {
                        assert(o[i] != o[j]);
                    } else if j < i {
                        assert(o[j] != o[i]);
                    }
                }
                assert(on_list(o, v));
            } else {
                if hp < iu {
                    assert(ds[hp] <= ds[iu]);
                }
                assert forall|i: int| 0 <= i < o.len() && #[trigger] pos(o[i]) == v implies len >= ds[i] by {
                    assert(ds[i] <= ds[hp] + 1);
                }
            }
        } else {
            assert forall|i: int| 0 <= i < o.len() && #[trigger] pos(o[i]) == v implies len >= ds[i] by {
                assert(ds[i] <= ds[hp] + 1);
            }
        }
    }
}

/// Following recorded parents from position `i` back to the top-left cell,
/// read forwards: a route to `o[i]`.
spec fn chain(o: Seq<(usize, usize)>, par: Seq<int>, i: int) -> Seq<(int, int)>
    decreases i,
{
    if 0 < i && 0 <= par[i] < i {
        chain(o, par, par[i]).push(pos(o[i]))
    } else {
        seq![pos(o[i])]
    }
}

/// Position `k` lies on the parent chain from position `i`.
spec fn on_chain(par: Seq<int>, i: int, k: int) -> bool
    decreases i,
{
    k == i || (0 < i && 0 <= par[i] < i && on_chain(par, par[i], k))
}

proof fn lemma_chain(
    m: Maze,
    vis: Seq<bool>,
    parent: Seq<usize>,
    o: Seq<(usize, usize)>,
    ds: Seq<int>,
    par: Seq<int>,
    hp: int,
    i: int,
)
    requires
        bfs_inv(m, vis, parent, o, ds, par, hp),
        0 <= i < o.len(),
    ensures
        m.is_route_to(chain(o, par, i), pos(o[i])),
        chain(o, par, i).len() == ds[i] + 1,
        forall|c: (int, int)| chain(o, par, i).contains(c) <==> exists|k: int|
            0 <= k < o.len() && on_chain(par, i, k) && #[trigger] pos(o[k]) == c,
        forall|k: int| on_chain(par, i, k) ==> 0 <= k <= i,
    decreases i,
{
    reveal(bfs_inv);
    assert forall|k: int| on_chain(par, i, k) implies 0 <= k <= i by {
        lemma_on_chain_below(par, i, k);
    }
    let ch = chain(o, par, i);
    if i == 0 {
        assert(pos(o[0]) == (0int, 0int));
        assert(m.is_route_to(ch, pos(o[i])));
        assert forall|c: (int, int)| ch.contains(c) <==> exists|k: int|
            0 <= k < o.len() && on_chain(par, i, k) && #[trigger] pos(o[k]) == c by {
            if ch.contains(c) {
                assert(ch[0] == c);
                assert(on_chain(par, 0, 0));
            }
        }
    } else {
        let p = par[i];
        assert(parent_link(m, parent, o, ds, par, i));
        assert(0 <= p < i);
        lemma_chain(m, vis, parent, o, ds, par, hp, p);
        let chp = chain(o, par, p);
        assert(ch == chp.push(pos(o[i])));
        m.lemma_route_push(chp, pos(o[p]), pos(o[i]));
        assert forall|c: (int, int)| ch.contains(c) <==> exists|k: int|
            0 <= k < o.len() && on_chain(par, i, k) && #[trigger] pos(o[k]) == c by {
            if ch.contains(c) {
                let t = choose|t: int| 0 <= t < ch.len() && ch[t] == c;
                if t < chp.len() {
                    assert(chp[t] == c);
                    assert(chp.contains(c));
                    let k = choose|k: int| 0 <= k < o.len() && on_chain(par, p, k) && #[trigger] pos(o[k]) == c;
                    assert(on_chain(par, i, k));
                } else {
                    assert(on_chain(par, i, i));
                }
            }
            if exists|k: int| 0 <= k < o.len() && on_chain(par, i, k) && #[trigger] pos(o[k]) == c {
                let k = choose|k: int| 0 <= k < o.len() && on_chain(par, i, k) && #[trigger] pos(o[k]) == c;
                if k == i {
                    assert(ch[ch.len() - 1] == c);
                } else {
                    assert(on_chain(par, p, k));
                    assert(chp.contains(c));
                    let t = choose|t: int| 0 <= t < chp.len() && chp[t] == c;
                    assert(ch[t] == c);
                }
            }
        }
    }
}

/// Positions on one parent chain are ordered: going down from `i`, the chain
/// passes `ci` before any position below it.
proof fn lemma_on_chain_order(par: Seq<int>, i: int, ci: int, k: int)
    requires
        on_chain(par, i, ci),
        on_chain(par, i, k),
        k <= ci,
    ensures
        on_chain(par, ci, k),
    decreases i,
{
    if i != ci && k != i {
        assert(0 < i && 0 <= par[i] < i);
        lemma_on_chain_order(par, par[i], ci, k);
    } else if k == i && k != ci {
        lemma_on_chain_below(par, i, ci);
    }
}

proof fn lemma_on_chain_trans(par: Seq<int>, i: int, k: int, j: int)
    requires
        on_chain(par, i, k),
        on_chain(par, k, j),
    ensures
        on_chain(par, i, j),
    decreases i,
{
    if k != i {
        lemma_on_chain_trans(par, par[i], k, j);
    }
}

proof fn lemma_on_chain_below(par: Seq<int>, i: int, k: int)
    requires
        on_chain(par, i, k),
        0 <= i,
    ensures
        0 <= k <= i,
    decreases i,
{
    if k != i {
        lemma_on_chain_below(par, par[i], k);
    }
}

/// One round of marking the route: the cell of position `ci` is marked and
/// the walk moves to its parent.
proof fn lemma_mark_step(
    m: Maze,
    vis: Seq<bool>,
    parent: Seq<usize>,
    o: Seq<(usize, usize)>,
    ds: Seq<int>,
    par: Seq<int>,
    hp: int,
    ci: int,
    before: Seq<bool>,
    after: Seq<bool>,
)
    requires
        bfs_inv(m, vis, parent, o, ds, par, hp),
        0 <= hp < o.len(),
        0 <= ci < o.len(),
        on_chain(par, hp, ci),
        marks_chain_above(m.w(), m.h(), before, o, par, hp, ci),
        before.len() == m.w() * m.h(),
        after == before.update(idx(m.w(), pos(o[ci]).0, pos(o[ci]).1), true),
    ensures
        ci > 0 ==> 0 <= par[ci] < ci && on_chain(par, hp, par[ci])
            && parent[idx(m.w(), pos(o[ci]).0, pos(o[ci]).1)] == idx(m.w(), pos(o[par[ci]]).0, pos(o[par[ci]]).1)
            && marks_chain_above(m.w(), m.h(), after, o, par, hp, par[ci]),
        ci == 0 ==> parent[idx(m.w(), pos(o[ci]).0, pos(o[ci]).1)] == usize::MAX
            && marks_chain_above(m.w(), m.h(), after, o, par, hp, -1),
{
    reveal(bfs_inv);
    let w = m.w();
    let h = m.h();
    let c = pos(o[ci]);
    lemma_idx_bounds(w, h, c.0, c.1);
    let lo = if ci > 0 { par[ci] } else { -1 };
    assert(idx(w, 0, 0) == 0);
    if ci > 0 {
        assert(parent_link(m, parent, o, ds, par, ci));
        assert(on_chain(par, par[ci], par[ci]));
        assert(on_chain(par, ci, par[ci]));
        lemma_on_chain_trans(par, hp, ci, par[ci]);
    } else {
        assert(o[0] == (0usize, 0usize));
    }
    assert forall|x: int, y: int| in_grid(w, h, x, y) implies (#[trigger] after[idx(w, x, y)] <==> exists|k: int|
        0 <= k < o.len() && lo < k && on_chain(par, hp, k) && #[trigger] pos(o[k]) == (x, y)) by {
        lemma_idx_bounds(w, h, x, y);
        if idx(w, x, y) == idx(w, c.0, c.1) {
            lemma_idx_injective(w, x, y, c.0, c.1);
        }
        if exists|k: int| 0 <= k < o.len() && lo < k && on_chain(par, hp, k) && #[trigger] pos(o[k]) == (x, y) {
            let k = choose|k: int| 0 <= k < o.len() && lo < k && on_chain(par, hp, k) && #[trigger] pos(o[k]) == (x, y);
            if k < ci {
                lemma_on_chain_order(par, hp, ci, k);
                assert(on_chain(par, par[ci], k));
                lemma_on_chain_below(par, par[ci], k);
            } else if k == ci {
                assert((x, y) == c);
            }
        }
        if (x, y) == c {
            assert(pos(o[ci]) == (x, y));
        }
    }
}

/// What the search found, read off its final state.
proof fn lemma_bfs_outcome(
    m: Maze,
    vis: Seq<bool>,
    parent: Seq<usize>,
    o: Seq<(usize, usize)>,
    ds: Seq<int>,
    par: Seq<int>,
    hp: int,
    e: Seq<(usize, usize)>,
    found: bool,
)
    requires
        bfs_inv(m, vis, parent, o, ds, par, hp),
        hp == if found { e.len() - 1 } else { e.len() as int },
        e.len() <= o.len(),
        e == o.subrange(0, e.len() as int),
        found ==> e.len() >= 1 && pos(e.last()) == goal(m),
        !found ==> forall|i: int| 0 <= i < e.len() ==> pos(#[trigger] e[i]) != goal(m),
        !found ==> e.len() == o.len(),
    ensures
        found <==> m.reachable(goal(m)),
        !found ==> !on_list(o, goal(m)),
        e.len() >= 1,
        e[0] == (0usize, 0usize),
        forall|i: int| 0 <= i < e.len() ==> in_grid(m.w(), m.h(), (#[trigger] pos(e[i])).0, pos(e[i]).1)
            && m.reachable(pos(e[i])),
        forall|i: int, j: int| 0 <= i < j < e.len() ==> #[trigger] e[i] != #[trigger] e[j],
        forall|i: int, j: int, di: int, dj: int|
            0 <= i < j < e.len() && #[trigger] at_distance(m, pos(e[i]), di)
                && #[trigger] at_distance(m, pos(e[j]), dj) ==> di <= dj,
        found ==> forall|c: (int, int), dc: int, dg: int|
            #[trigger] at_distance(m, c, dc) && #[trigger] at_distance(m, goal(m), dg) && dc < dg
                ==> e.contains((c.0 as usize, c.1 as usize)),
        !found ==> forall|x: int, y: int|
            in_grid(m.w(), m.h(), x, y) && #[trigger] m.reachable((x, y))
                ==> e.contains((x as usize, y as usize)),
{
    reveal(bfs_inv);
    assert(e[0] == o[0]);
    assert forall|i: int| 0 <= i < o.len() implies #[trigger] m.reachable(pos(o[i])) by {
        lemma_chain(m, vis, parent, o, ds, par, hp, i);
    }
    assert forall|i: int| 0 <= i < e.len() implies in_grid(m.w(), m.h(), (#[trigger] pos(e[i])).0, pos(e[i]).1)
        && m.reachable(pos(e[i])) by {
        assert(e[i] == o[i]);
        assert(m.reachable(pos(o[i])));
    }
    assert forall|i: int, j: int| 0 <= i < j < e.len() implies #[trigger] e[i] != #[trigger] e[j] by {
        assert(e[i] == o[i] && e[j] == o[j]);
    }
    // the distance of every found cell is its recorded one
    assert forall|i: int, d: int| 0 <= i < o.len() && #[trigger] at_distance(m, pos(o[i]), d) implies d == ds[i] by {
        lemma_at_distance_recorded(m, vis, parent, o, ds, par, hp, i, d);
    }
    assert forall|i: int, j: int, di: int, dj: int|
        0 <= i < j < e.len() && #[trigger] at_distance(m, pos(e[i]), di)
            && #[trigger] at_distance(m, pos(e[j]), dj) implies di <= dj by {
        assert(e[i] == o[i] && e[j] == o[j]);
        assert(at_distance(m, pos(o[i]), di));
        assert(at_distance(m, pos(o[j]), dj));
        assert(ds[i] <= ds[j]);
    }
    if found {
        assert(e.last() == o[hp]);
        assert(m.reachable(pos(o[hp])));
        assert forall|c: (int, int), dc: int, dg: int|
            #[trigger] at_distance(m, c, dc) && #[trigger] at_distance(m, goal(m), dg) && dc < dg
                implies e.contains((c.0 as usize, c.1 as usize)) by {
            assert(at_distance(m, pos(o[hp]), dg));
            assert(dg == ds[hp]);
            let p = choose|p: Seq<(int, int)>| #[trigger] is_shortest_route(m, p, c) && p.len() == dc + 1;
            lemma_bfs_lower_bound(m, vis, parent, o, ds, par, hp, p, c);
            let i = choose|i: int| 0 <= i < o.len() && #[trigger] pos(o[i]) == c;
            assert(at_distance(m, pos(o[i]), dc));
            assert(dc == ds[i]);
            if i >= hp {
                if i > hp {
                    assert(ds[hp] <= ds[i]);
                }
            }
            assert(i < hp);
            assert(e[i] == o[i]);
            assert(o[i] == (c.0 as usize, c.1 as usize));
        }
    } else {
        assert(!on_list(o, goal(m))) by {
            if on_list(o, goal(m)) {
                let i = choose|i: int| 0 <= i < o.len() && #[trigger] pos(o[i]) == goal(m);
                assert(e[i] == o[i]);
            }
        }
        if m.reachable(goal(m)) {
            let p = choose|p: Seq<(int, int)>| #[trigger] m.is_route_to(p, goal(m));
            lemma_bfs_lower_bound(m, vis, parent, o, ds, par, hp, p, goal(m));
        }
        assert forall|x: int, y: int| in_grid(m.w(), m.h(), x, y) && #[trigger] m.reachable((x, y))
            implies e.contains((x as usize, y as usize)) by {
            let p = choose|p: Seq<(int, int)>| #[trigger] m.is_route_to(p, (x, y));
            lemma_bfs_lower_bound(m, vis, parent, o, ds, par, hp, p, (x, y));
            let i = choose|i: int| 0 <= i < o.len() && #[trigger] pos(o[i]) == (x, y);
            assert(e[i] == o[i]);
        }
    }
}

proof fn lemma_first_link_unique(m: Maze, e: Seq<(usize, usize)>, c: (int, int), j1: int, j2: int)
    requires
        first_link(m, e, c, j1),
        first_link(m, e, c, j2),
    ensures
        j1 == j2,
{
    if j1 < j2 {
        assert(!m.open_between(pos(e[j1]), c));
    } else if j2 < j1 {
        assert(!m.open_between(pos(e[j2]), c));
    }
}

proof fn lemma_first_link_prefix(m: Maze, o: Seq<(usize, usize)>, e: Seq<(usize, usize)>, c: (int, int), j: int)
    requires
        e.len() <= o.len(),
        e == o.subrange(0, e.len() as int),
        0 <= j < e.len(),
    ensures
        first_link(m, e, c, j) == first_link(m, o, c, j),
{
    assert(e[j] == o[j]);
    assert forall|t: int| 0 <= t < j implies #[trigger] e[t] == o[t] by {}
    if first_link(m, o, c, j) {
        assert forall|t: int| 0 <= t < j implies !m.open_between(pos(#[trigger] e[t]), c) by {
            assert(e[t] == o[t]);
        }
    }
    if first_link(m, e, c, j) {
        assert forall|t: int| 0 <= t < j implies !m.open_between(pos(#[trigger] o[t]), c) by {
            assert(e[t] == o[t]);
        }
    }
}

/// Move `t` of the parent chain from position `i` goes from the first cell
/// on the list with an open passage to the next cell; that cell's position
/// is returned.
proof fn lemma_chain_link(
    m: Maze,
    vis: Seq<bool>,
    parent: Seq<usize>,
    o: Seq<(usize, usize)>,
    ds: Seq<int>,
    par: Seq<int>,
    hp: int,
    i: int,
    t: int,
) -> (j: int)
    requires
        bfs_inv(m, vis, parent, o, ds, par, hp),
        bfs_order(m, o, par, hp),
        0 <= i < o.len(),
        0 <= t < chain(o, par, i).len() - 1,
    ensures
        0 <= j < i,
        first_link(m, o, chain(o, par, i)[t + 1], j),
        pos(o[j]) == chain(o, par, i)[t],
    decreases i,
{
    let ch = chain(o, par, i);
    if i == 0 {
        assert(ch.len() == 1);
        0
    } else {
        assert(parent_link(m, parent, o, ds, par, i)) by {
            reveal(bfs_inv);
        }
        let p = par[i];
        let chp = chain(o, par, p);
        assert(ch == chp.push(pos(o[i])));
        if t < chp.len() - 1 {
            let j = lemma_chain_link(m, vis, parent, o, ds, par, hp, p, t);
            assert(ch[t] == chp[t] && ch[t + 1] == chp[t + 1]);
            j
        } else {
            lemma_chain(m, vis, parent, o, ds, par, hp, p);
            assert(ch[t] == chp.last());
            assert(ch[t + 1] == pos(o[i]));
            assert(first_link(m, o, pos(o[i]), par[i])) by {
                reveal(bfs_order);
            }
            p
        }
    }
}

/// Each cell taken off the queue after the first has an open passage to an
/// earlier one; the position of the first such is returned.
proof fn lemma_order_parent(
    m: Maze,
    vis: Seq<bool>,
    parent: Seq<usize>,
    o: Seq<(usize, usize)>,
    ds: Seq<int>,
    par: Seq<int>,
    hp: int,
    e: Seq<(usize, usize)>,
    i: int,
) -> (j: int)
    requires
        bfs_inv(m, vis, parent, o, ds, par, hp),
        bfs_order(m, o, par, hp),
        e.len() <= o.len(),
        e == o.subrange(0, e.len() as int),
        1 <= i < e.len(),
    ensures
        0 <= j < i,
        first_link(m, e, pos(e[i]), j),
{
    assert(parent_link(m, parent, o, ds, par, i)) by {
        reveal(bfs_inv);
    }
    assert(first_link(m, o, pos(o[i]), par[i])) by {
        reveal(bfs_order);
    }
    assert(e[i] == o[i]);
    lemma_first_link_prefix(m, o, e, pos(o[i]), par[i]);
    par[i]
}

/// Cells come off the queue in the order of the position of the cell they
/// were found from, then of the direction.
proof fn lemma_order_keys(
    m: Maze,
    vis: Seq<bool>,
    parent: Seq<usize>,
    o: Seq<(usize, usize)>,
    ds: Seq<int>,
    par: Seq<int>,
    hp: int,
    e: Seq<(usize, usize)>,
    i: int,
    i2: int,
    j: int,
    j2: int,
)
    requires
        bfs_inv(m, vis, parent, o, ds, par, hp),
        bfs_order(m, o, par, hp),
        e.len() <= o.len(),
        e == o.subrange(0, e.len() as int),
        1 <= i < i2 < e.len(),
        first_link(m, e, pos(e[i]), j),
        first_link(m, e, pos(e[i2]), j2),
    ensures
        key_before(j, dir_rank(pos(e[j]), pos(e[i])), j2, dir_rank(pos(e[j2]), pos(e[i2]))),
{
    reveal(bfs_order);
    assert(e[i] == o[i] && e[i2] == o[i2]);
    assert(first_link(m, o, pos(o[i]), par[i]));
    assert(first_link(m, o, pos(o[i2]), par[i2]));
    lemma_first_link_prefix(m, o, e, pos(o[i]), j);
    lemma_first_link_prefix(m, o, e, pos(o[i2]), j2);
    lemma_first_link_unique(m, o, pos(o[i]), j, par[i]);
    lemma_first_link_unique(m, o, pos(o[i2]), j2, par[i2]);
    assert(key_before(par[i], dir_rank(pos(o[par[i]]), pos(o[i])), par[i2], dir_rank(pos(o[par[i2]]), pos(o[i2]))));
    assert(e[j] == o[j] && e[j2] == o[j2]);
}

/// A cell never taken off the queue but next to one that was: the search
/// stopped at the goal, and either it was found from the goal or it comes
/// after the goal in the queue.
proof fn lemma_order_complete(
    m: Maze,
    vis: Seq<bool>,
    parent: Seq<usize>,
    o: Seq<(usize, usize)>,
    ds: Seq<int>,
    par: Seq<int>,
    hp: int,
    e: Seq<(usize, usize)>,
    found: bool,
    c: (int, int),
    j: int,
    jl: int,
)
    requires
        bfs_inv(m, vis, parent, o, ds, par, hp),
        bfs_order(m, o, par, hp),
        hp == if found { e.len() - 1 } else { e.len() as int },
        e.len() <= o.len(),
        e == o.subrange(0, e.len() as int),
        found ==> e.len() >= 1 && pos(e.last()) == goal(m),
        !found ==> e.len() == o.len(),
        in_grid(m.w(), m.h(), c.0, c.1),
        !e.contains((c.0 as usize, c.1 as usize)),
        first_link(m, e, c, j),
    ensures
        found,
        j == e.len() - 1 || (first_link(m, e, goal(m), jl) ==> key_before(
            jl,
            dir_rank(pos(e[jl]), goal(m)),
            j,
            dir_rank(pos(e[j]), c),
        )),
{
    lemma_first_link_prefix(m, o, e, c, j);
    assert(e[j] == o[j]);
    if j < hp {
        // the cell at position j was looked at, so c is on the list
        assert(reached_within(o, ds, c, ds[j] + 1)) by {
            reveal(bfs_inv);
        }
        let q = choose|q: int| 0 <= q < o.len() && #[trigger] pos(o[q]) == c && ds[q] <= ds[j] + 1;
        if q < e.len() {
            assert(e[q] == o[q]);
            assert(o[q] == (c.0 as usize, c.1 as usize));
            assert(e.contains((c.0 as usize, c.1 as usize)));
        }
        assert(q > hp);
        reveal(bfs_order);
        assert(first_link(m, o, pos(o[q]), par[q]));
        lemma_first_link_unique(m, o, c, j, par[q]);
        if first_link(m, e, goal(m), jl) {
            assert(e.last() == o[hp]);
            lemma_first_link_prefix(m, o, e, goal(m), jl);
            assert(first_link(m, o, pos(o[hp]), par[hp]));
            lemma_first_link_unique(m, o, goal(m), jl, par[hp]);
            assert(key_before(par[hp], dir_rank(pos(o[par[hp]]), pos(o[hp])), par[q], dir_rank(pos(o[par[q]]), pos(o[q]))));
            assert(e[jl] == o[jl]);
        }
    }
}

/// The order in which the search takes cells off its queue, and the route
/// it marks, read off its final state.
proof fn lemma_bfs_order_outcome(
    m: Maze,
    vis: Seq<bool>,
    parent: Seq<usize>,
    o: Seq<(usize, usize)>,
    ds: Seq<int>,
    par: Seq<int>,
    hp: int,
    e: Seq<(usize, usize)>,
    found: bool,
)
    requires
        bfs_inv(m, vis, parent, o, ds, par, hp),
        bfs_order(m, o, par, hp),
        hp == if found { e.len() - 1 } else { e.len() as int },
        e.len() <= o.len(),
        e == o.subrange(0, e.len() as int),
        found ==> e.len() >= 1 && pos(e.last()) == goal(m),
        !found ==> e.len() == o.len(),
        found <==> m.reachable(goal(m)),
    ensures
        breadth_first_order(m, e),
        found ==> forall|t: int| 0 <= t < chain(o, par, hp).len() - 1 ==> #[trigger] first_neighbour(
            m,
            e,
            chain(o, par, hp)[t],
            chain(o, par, hp)[t + 1],
        ),
{
    assert forall|i: int| 1 <= i < e.len() implies #[trigger] linked_within(m, e, pos(e[i]), i) by {
        let j = lemma_order_parent(m, vis, parent, o, ds, par, hp, e, i);
    }
    assert forall|i: int, i2: int, j: int, j2: int|
        1 <= i < i2 < e.len() && #[trigger] first_link(m, e, pos(e[i]), j) && #[trigger] first_link(
            m,
            e,
            pos(e[i2]),
            j2,
        ) implies key_before(j, dir_rank(pos(e[j]), pos(e[i])), j2, dir_rank(pos(e[j2]), pos(e[i2]))) by {
        lemma_order_keys(m, vis, parent, o, ds, par, hp, e, i, i2, j, j2);
    }
    assert forall|c: (int, int), j: int|
        in_grid(m.w(), m.h(), c.0, c.1) && !e.contains((c.0 as usize, c.1 as usize)) && #[trigger] first_link(
            m,
            e,
            c,
            j,
        ) implies m.reachable(goal(m)) && (j == e.len() - 1 || forall|jl: int|
            #[trigger] first_link(m, e, goal(m), jl) ==> key_before(
                jl,
                dir_rank(pos(e[jl]), goal(m)),
                j,
                dir_rank(pos(e[j]), c),
            )) by {
        lemma_order_complete(m, vis, parent, o, ds, par, hp, e, found, c, j, 0);
        if j != e.len() - 1 {
            assert forall|jl: int| #[trigger] first_link(m, e, goal(m), jl) implies key_before(
                jl,
                dir_rank(pos(e[jl]), goal(m)),
                j,
                dir_rank(pos(e[j]), c),
            ) by {
                lemma_order_complete(m, vis, parent, o, ds, par, hp, e, found, c, j, jl);
            }
        }
    }
    if found {
        let ch = chain(o, par, hp);
        assert forall|t: int| 0 <= t < ch.len() - 1 implies #[trigger] first_neighbour(m, e, ch[t], ch[t + 1]) by {
            let j = lemma_chain_link(m, vis, parent, o, ds, par, hp, hp, t);
            lemma_first_link_prefix(m, o, e, ch[t + 1], j);
            assert(e[j] == o[j]);
        }
    }
}

/// A found cell lies at exactly its recorded distance.
proof fn lemma_at_distance_recorded(
    m: Maze,
    vis: Seq<bool>,
    parent: Seq<usize>,
    o: Seq<(usize, usize)>,
    ds: Seq<int>,
    par: Seq<int>,
    hp: int,
    i: int,
    d: int,
)
    requires
        bfs_inv(m, vis, parent, o, ds, par, hp),
        0 <= i < o.len(),
        at_distance(m, pos(o[i]), d),
    ensures
        d == ds[i],
{
    let c = pos(o[i]);
    let p = choose|p: Seq<(int, int)>| #[trigger] is_shortest_route(m, p, c) && p.len() == d + 1;
    lemma_chain(m, vis, parent, o, ds, par, hp, i);
    assert(m.is_route_to(chain(o, par, i), c));
    lemma_bfs_lower_bound(m, vis, parent, o, ds, par, hp, p, c);
}

/// `r` marks the cells of positions on the chain from `it` that lie above `ci`.
spec fn marks_chain_above(w: int, h: int, r: Seq<bool>, o: Seq<(usize, usize)>, par: Seq<int>, it: int, ci: int) -> bool {
    forall|x: int, y: int| in_grid(w, h, x, y) ==> (#[trigger] r[idx(w, x, y)] <==> exists|k: int|
        0 <= k < o.len() && ci < k && on_chain(par, it, k) && #[trigger] pos(o[k]) == (x, y))
}

impl Maze {
    /// Breadth-first search from the top-left cell. The search stops when it
    /// takes the bottom-right cell off its queue. Returns the cells of the
    /// route found, marked by row-major cell number, and the cells in the
    /// order the search took them off the queue.
    pub fn solve(&self) -> (res: (Vec<bool>, Vec<(usize, usize)>))
        requires
            self.wf(),
            self.w() >= 1,
            self.h() >= 1,
        ensures
            res.0@.len() == self.w() * self.h(),
            self.reachable(goal(*self)) ==> exists|p: Seq<(int, int)>|
                #[trigger] is_shortest_route(*self, p, goal(*self)) && (forall|x: int, y: int|
                    in_grid(self.w(), self.h(), x, y) ==> (#[trigger] res.0@[idx(self.w(), x, y)] <==> p.contains((x, y))))
                    && forall|t: int| 0 <= t < p.len() - 1 ==> #[trigger] first_neighbour(*self, res.1@, p[t], p[t + 1]),
            !self.reachable(goal(*self)) ==> forall|x: int, y: int|
                in_grid(self.w(), self.h(), x, y) ==> (#[trigger] res.0@[idx(self.w(), x, y)] <==> (x, y) == goal(*self)),
            res.1@.len() >= 1,
            res.1@[0] == (0usize, 0usize),
            forall|i: int| 0 <= i < res.1@.len() ==> in_grid(self.w(), self.h(), (#[trigger] pos(res.1@[i])).0, pos(res.1@[i]).1)
                && self.reachable(pos(res.1@[i])),
            forall|i: int, j: int| 0 <= i < j < res.1@.len() ==> #[trigger] res.1@[i] != #[trigger] res.1@[j],
            forall|i: int, j: int, di: int, dj: int|
                0 <= i < j < res.1@.len() && #[trigger] at_distance(*self, pos(res.1@[i]), di)
                    && #[trigger] at_distance(*self, pos(res.1@[j]), dj) ==> di <= dj,
            self.reachable(goal(*self)) ==> pos(res.1@.last()) == goal(*self),
            self.reachable(goal(*self)) ==> forall|c: (int, int), dc: int, dg: int|
                #[trigger] at_distance(*self, c, dc) && #[trigger] at_distance(*self, goal(*self), dg) && dc < dg
                    ==> res.1@.contains((c.0 as usize, c.1 as usize)),
            !self.reachable(goal(*self)) ==> forall|x: int, y: int|
                in_grid(self.w(), self.h(), x, y) && #[trigger] self.reachable((x, y))
                    ==> res.1@.contains((x as usize, y as usize)),
            breadth_first_order(*self, res.1@),
    {
        proof {
            self.lemma_dims();
        }
        let w = self.width();
        let h = self.height();
        let total = w * h;
        let mut visited: Vec<bool> = vec![false; total];
        let mut parent: Vec<usize> = vec![usize::MAX; total];
        let mut queue: VecDeque<(usize, usize)> = VecDeque::new();
        let mut explore_order: Vec<(usize, usize)> = Vec::new();
        assert(w * h >= 1) by (nonlinear_arith)
            requires
                w >= 1,
                h >= 1,
        ;
        let target = total - 1;
        proof {
            lemma_bfs_init(*self, visited@, parent@);
            lemma_order_init(*self);
        }
        visited[0] = true;
        queue.push_back((0usize, 0usize));
        let ghost mut o: Seq<(usize, usize)> = seq![(0usize, 0usize)];
        let ghost mut ds: Seq<int> = seq![0int];
        let ghost mut par: Seq<int> = seq![0int];
        let mut found = false;
        assert(queue@ == o.subrange(0, o.len() as int));
        assert(explore_order@ == o.subrange(0, 0));
        while !found && queue.len() > 0
            invariant
                self.wf(),
                w == self.w(),
                h == self.h(),
                total == w * h,
                target == total - 1,
                bfs_inv(*self, visited@, parent@, o, ds, par, if found { explore_order@.len() - 1 } else { explore_order@.len() as int }),
                bfs_order(*self, o, par, if found { explore_order@.len() - 1 } else { explore_order@.len() as int }),
                !found ==> forall|i: int| 0 < i < o.len() ==> #[trigger] par[i] < explore_order@.len(),
                explore_order@.len() <= o.len(),
                explore_order@ == o.subrange(0, explore_order@.len() as int),
                queue@ == o.subrange(explore_order@.len() as int, o.len() as int),
                found ==> explore_order@.len() >= 1 && pos(explore_order@.last()) == goal(*self),
                !found ==> forall|i: int| 0 <= i < explore_order@.len() ==> pos(#[trigger] explore_order@[i]) != goal(*self),
            decreases 2 * (total - o.len()) + queue@.len() + if found { 0int } else { 1int },
        {
            proof {
                reveal(bfs_inv);
                lemma_count_true_bounds(visited@);
            }
            let ghost hp = explore_order@.len() as int;
            let cur = queue.pop_front();
            let (cx, cy) = match cur {
                Some(c) => c,
                None => (0, 0),
            };
            assert(o[hp] == (cx, cy));
            assert(in_grid(w as int, h as int, pos(o[hp]).0, pos(o[hp]).1));
            proof {
                lemma_idx_bounds(w as int, h as int, cx as int, cy as int);
            }
            let cidx = cy * w + cx;
            explore_order.push((cx, cy));
            assert(explore_order@ == o.subrange(0, hp + 1));
            assert(queue@ == o.subrange(hp + 1, o.len() as int));
            if cidx == target {
                found = true;
                proof {
                    lemma_last_idx(w as int, h as int);
                    lemma_idx_injective(w as int, cx as int, cy as int, w - 1, h - 1);
                }
            } else {
                assert(pos((cx, cy)) != goal(*self)) by {
                    lemma_last_idx(w as int, h as int);
                }
                let next = self.expand(&mut visited, &mut parent, &mut queue, cx, cy, cidx,
                    Ghost(o), Ghost(ds), Ghost(par), Ghost(hp));
                proof {
                    o = next@.0;
                    ds = next@.1;
                    par = next@.2;
                    lemma_bfs_cell(*self, visited@, parent@, o, ds, par, hp + 1, 0);
                }
            }
        }
        let ghost hp_end = if found { explore_order@.len() - 1 } else { explore_order@.len() as int };
        let ghost w_i = w as int;
        let ghost h_i = h as int;
        proof {
            lemma_last_idx(w_i, h_i);
            lemma_bfs_outcome(*self, visited@, parent@, o, ds, par, hp_end, explore_order@, found);
            lemma_bfs_order_outcome(*self, visited@, parent@, o, ds, par, hp_end, explore_order@, found);
        }
        let mut on_path: Vec<bool> = vec![false; total];
        let mut cell = target;
        let ghost mut ci: int = if found { hp_end } else { 0 };
        proof {
            reveal(bfs_inv);
            if found {
                assert(pos(o[hp_end]) == goal(*self));
                assert(marks_chain_above(w_i, h_i, on_path@, o, par, hp_end, hp_end)) by {
                    assert forall|x: int, y: int| in_grid(w_i, h_i, x, y) implies (#[trigger] on_path@[idx(w_i, x, y)] <==> exists|k: int|
                        0 <= k < o.len() && hp_end < k && on_chain(par, hp_end, k) && #[trigger] pos(o[k]) == (x, y)) by {
                        lemma_idx_bounds(w_i, h_i, x, y);
                        assert forall|k: int| on_chain(par, hp_end, k) implies k <= hp_end by {
                            lemma_on_chain_below(par, hp_end, k);
                        }
                    }
                }
            } else {
                assert(parent@[target as int] == usize::MAX) by {
                    assert(!on_list(o, goal(*self)));
                }
            }
        }
        while cell != usize::MAX
            invariant
                self.wf(),
                w == self.w(),
                h == self.h(),
                on_path@.len() == total,
                parent@.len() == total,
                total == w * h,
                w_i == w,
                h_i == h,
                w >= 1,
                h >= 1,
                target == total - 1,
                target == idx(w_i, w_i - 1, h_i - 1),
                bfs_inv(*self, visited@, parent@, o, ds, par, hp_end),
                found ==> 0 <= hp_end < o.len() && pos(o[hp_end]) == goal(*self),
                found ==> (ci == -1 <==> cell == usize::MAX),
                found ==> -1 <= ci < o.len(),
                found && ci >= 0 ==> on_chain(par, hp_end, ci) && cell == idx(w_i, pos(o[ci]).0, pos(o[ci]).1),
                found ==> marks_chain_above(w_i, h_i, on_path@, o, par, hp_end, ci),
                !found ==> (ci == 0 && cell == target && forall|i: int| 0 <= i < on_path@.len() ==> !on_path@[i])
                    || (ci == -1 && cell == usize::MAX && forall|x: int, y: int|
                        in_grid(w_i, h_i, x, y) ==> (#[trigger] on_path@[idx(w_i, x, y)] <==> (x, y) == goal(*self))),
                !found ==> parent@[target as int] == usize::MAX,
            decreases ci + 1,
        {
            proof {
                reveal(bfs_inv);
                if found {
                    assert(ci >= 0);
                    assert(in_grid(w_i, h_i, pos(o[ci]).0, pos(o[ci]).1));
                    lemma_idx_bounds(w_i, h_i, pos(o[ci]).0, pos(o[ci]).1);
                }
            }
            let ghost old_marks = on_path@;
            on_path[cell] = true;
            cell = parent[cell];
            proof {
                if found {
                    lemma_mark_step(*self, visited@, parent@, o, ds, par, hp_end, ci, old_marks, on_path@);
                    if ci > 0 {
                        lemma_bfs_cell(*self, visited@, parent@, o, ds, par, hp_end, par[ci]);
                        ci = par[ci];
                    } else {
                        ci = -1;
                    }
                } else {
                    assert forall|x: int, y: int| in_grid(w_i, h_i, x, y) implies (#[trigger] on_path@[idx(w_i, x, y)] <==> (x, y) == goal(*self)) by {
                        lemma_idx_bounds(w_i, h_i, x, y);
                        if idx(w_i, x, y) == target {
                            lemma_idx_injective(w_i, x, y, w_i - 1, h_i - 1);
                        }
                    }
                    ci = -1;
                }
            }
        }
        proof {
            if found {
                lemma_chain(*self, visited@, parent@, o, ds, par, hp_end, hp_end);
                let p = chain(o, par, hp_end);
                assert forall|x: int, y: int| in_grid(w_i, h_i, x, y) implies (#[trigger] on_path@[idx(w_i, x, y)] <==> p.contains((x, y))) by {
                    if exists|k: int| 0 <= k < o.len() && on_chain(par, hp_end, k) && #[trigger] pos(o[k]) == (x, y) {
                        let k = choose|k: int| 0 <= k < o.len() && on_chain(par, hp_end, k) && #[trigger] pos(o[k]) == (x, y);
                        assert(-1 < k);
                    }
                }
                assert forall|q: Seq<(int, int)>| #[trigger] self.is_route_to(q, goal(*self)) implies p.len() <= q.len() by {
                    lemma_bfs_lower_bound(*self, visited@, parent@, o, ds, par, hp_end, q, goal(*self));
                }
                assert(is_shortest_route(*self, p, goal(*self)));
            }
        }
        (on_path, explore_order)
    }

    /// Looks at the four neighbours of cell `(cx, cy)`, numbered `cidx`, in
    /// the order up, down, left, right, and queues those that an open
    /// passage leads to and that are not yet marked.
    fn expand(
        &self,
        visited: &mut Vec<bool>,
        parent: &mut Vec<usize>,
        queue: &mut VecDeque<(usize, usize)>,
        cx: usize,
        cy: usize,
        cidx: usize,
        Ghost(o): Ghost<Seq<(usize, usize)>>,
        Ghost(ds): Ghost<Seq<int>>,
        Ghost(par): Ghost<Seq<int>>,
        Ghost(hp): Ghost<int>,
    ) -> (next: Ghost<(Seq<(usize, usize)>, Seq<int>, Seq<int>)>)
        requires
            self.wf(),
            bfs_inv(*self, old(visited)@, old(parent)@, o, ds, par, hp),
            0 <= hp < o.len(),
            o[hp] == (cx, cy),
            cidx == idx(self.w(), cx as int, cy as int),
            old(queue)@ == o.subrange(hp + 1, o.len() as int),
            bfs_order(*self, o, par, hp),
            forall|i: int| 0 < i < o.len() ==> #[trigger] par[i] < hp,
        ensures
            bfs_inv(*self, final(visited)@, final(parent)@, next@.0, next@.1, next@.2, hp + 1),
            bfs_order(*self, next@.0, next@.2, hp + 1),
            forall|i: int| 0 < i < next@.0.len() ==> #[trigger] next@.2[i] < hp + 1,
            o.len() <= next@.0.len(),
            next@.0.subrange(0, o.len() as int) == o,
            final(queue)@ == next@.0.subrange(hp + 1, next@.0.len() as int),
    {
        let ghost mut o = o;
        let ghost mut ds = ds;
        let ghost mut par = par;
        let ghost u = pos(o[hp]);
        let ghost dh = ds[hp];
        let ghost n_up = (cx as int, cy as int - 1);
        let ghost n_down = (cx as int, cy as int + 1);
        let ghost n_left = (cx as int - 1, cy as int);
        let ghost n_right = (cx as int + 1, cy as int);
        proof {
            lemma_bfs_cell(*self, visited@, parent@, o, ds, par, hp, hp);
        }
        let w = self.width();
        let h = self.height();
        // Up
        if cy > 0 && !self.h_wall(cx, cy) {
            let pushed = self.relax(visited, parent, queue, cidx, cx, cy - 1,
                Ghost(o), Ghost(ds), Ghost(par), Ghost(hp));
            proof {
                if pushed {
                    o = o.push((cx, (cy - 1) as usize));
                    ds = ds.push(ds[hp] + 1);
                    par = par.push(hp);
                }
            }
        }
        proof {
            lemma_bfs_cell(*self, visited@, parent@, o, ds, par, hp, hp);
        }
        assert(ds[hp] == dh);
        assert(self.open_between(u, n_up) ==> reached_within(o, ds, n_up, dh + 1));
        assert(forall|i: int| 0 < i < o.len() && #[trigger] par[i] == hp ==> dir_rank(u, pos(o[i])) <= 0);
        // Down
        if cy + 1 < h && !self.h_wall(cx, cy + 1) {
            let pushed = self.relax(visited, parent, queue, cidx, cx, cy + 1,
                Ghost(o), Ghost(ds), Ghost(par), Ghost(hp));
            proof {
                if pushed {
                    o = o.push((cx, (cy + 1) as usize));
                    ds = ds.push(ds[hp] + 1);
                    par = par.push(hp);
                }
            }
        }
        proof {
            lemma_bfs_cell(*self, visited@, parent@, o, ds, par, hp, hp);
        }
        assert(ds[hp] == dh);
        assert(self.open_between(u, n_up) ==> reached_within(o, ds, n_up, dh + 1));
        assert(self.open_between(u, n_down) ==> reached_within(o, ds, n_down, dh + 1));
        assert(forall|i: int| 0 < i < o.len() && #[trigger] par[i] == hp ==> dir_rank(u, pos(o[i])) <= 1);
        // Left
        if cx > 0 && !self.v_wall(cx, cy) {
            let pushed = self.relax(visited, parent, queue, cidx, cx - 1, cy,
                Ghost(o), Ghost(ds), Ghost(par), Ghost(hp));
            proof {
                if pushed {
                    o = o.push(((cx - 1) as usize, cy));
                    ds = ds.push(ds[hp] + 1);
                    par = par.push(hp);
                }
            }
        }
        proof {
            lemma_bfs_cell(*self, visited@, parent@, o, ds, par, hp, hp);
        }
        assert(ds[hp] == dh);
        assert(self.open_between(u, n_up) ==> reached_within(o, ds, n_up, dh + 1));
        assert(self.open_between(u, n_down) ==> reached_within(o, ds, n_down, dh + 1));
        assert(self.open_between(u, n_left) ==> reached_within(o, ds, n_left, dh + 1));
        assert(forall|i: int| 0 < i < o.len() && #[trigger] par[i] == hp ==> dir_rank(u, pos(o[i])) <= 2);
        // Right
        if cx + 1 < w && !self.v_wall(cx + 1, cy) {
            let pushed = self.relax(visited, parent, queue, cidx, cx + 1, cy,
                Ghost(o), Ghost(ds), Ghost(par), Ghost(hp));
            proof {
                if pushed {
                    o = o.push(((cx + 1) as usize, cy));
                    ds = ds.push(ds[hp] + 1);
                    par = par.push(hp);
                }
            }
        }
        proof {
            lemma_bfs_cell(*self, visited@, parent@, o, ds, par, hp, hp);
        }
        assert(ds[hp] == dh);
        assert(self.open_between(u, n_up) ==> reached_within(o, ds, n_up, dh + 1));
        assert(self.open_between(u, n_down) ==> reached_within(o, ds, n_down, dh + 1));
        assert(self.open_between(u, n_left) ==> reached_within(o, ds, n_left, dh + 1));
        assert(self.open_between(u, n_right) ==> reached_within(o, ds, n_right, dh + 1));
        proof {
            assert(pos(o[hp]) == u);
            assert forall|n: (int, int)| #[trigger] self.open_between(pos(o[hp]), n)
                implies reached_within(o, ds, n, ds[hp] + 1) by {
                assert(n == n_up || n == n_down || n == n_left || n == n_right);
            }
            lemma_bfs_advance(*self, visited@, parent@, o, ds, par, hp);
            lemma_order_advance(*self, o, par, hp);
        }
        Ghost((o, ds, par))
    }

    /// Looks at neighbour `(nx, ny)` of the cell numbered `cidx`, reached
    /// through an open passage: an unmarked neighbour is marked, given
    /// `cidx` as parent, and queued. Returns whether it was queued.
    fn relax(
        &self,
        visited: &mut Vec<bool>,
        parent: &mut Vec<usize>,
        queue: &mut VecDeque<(usize, usize)>,
        cidx: usize,
        nx: usize,
        ny: usize,
        Ghost(o): Ghost<Seq<(usize, usize)>>,
        Ghost(ds): Ghost<Seq<int>>,
        Ghost(par): Ghost<Seq<int>>,
        Ghost(hp): Ghost<int>,
    ) -> (pushed: bool)
        requires
            self.wf(),
            bfs_inv(*self, old(visited)@, old(parent)@, o, ds, par, hp),
            0 <= hp < o.len(),
            cidx == idx(self.w(), pos(o[hp]).0, pos(o[hp]).1),
            self.open_between(pos(o[hp]), (nx as int, ny as int)),
            old(queue)@ == o.subrange(hp + 1, o.len() as int),
            bfs_order(*self, o, par, hp),
            forall|i: int| 0 < i < o.len() && #[trigger] par[i] == hp ==> dir_rank(pos(o[hp]), pos(o[i]))
                < dir_rank(pos(o[hp]), (nx as int, ny as int)),
        ensures
            pushed == !old(visited)@[idx(self.w(), nx as int, ny as int)],
            ({
                let o2 = if pushed { o.push((nx, ny)) } else { o };
                let d2 = if pushed { ds.push(ds[hp] + 1) } else { ds };
                let p2 = if pushed { par.push(hp) } else { par };
                &&& bfs_inv(*self, final(visited)@, final(parent)@, o2, d2, p2, hp)
                &&& final(queue)@ == o2.subrange(hp + 1, o2.len() as int)
                &&& reached_within(o2, d2, (nx as int, ny as int), ds[hp] + 1)
                &&& forall|c: (int, int), d: int| reached_within(o, ds, c, d) ==> reached_within(o2, d2, c, d)
                &&& bfs_order(*self, o2, p2, hp)
                &&& forall|i: int| 0 < i < o2.len() && #[trigger] p2[i] == hp ==> dir_rank(pos(o[hp]), pos(o2[i]))
                    <= dir_rank(pos(o[hp]), (nx as int, ny as int))
            }),
    {
        let ghost n = (nx, ny);
        proof {
            reveal(bfs_inv);
            self.lemma_dims();
            lemma_idx_bounds(self.w(), self.h(), nx as int, ny as int);
        }
        let nidx = ny * self.width() + nx;
        if !visited[nidx] {
            proof {
                lemma_order_enqueue(*self, visited@, parent@, o, ds, par, hp, n);
                lemma_bfs_enqueue(*self, visited@, parent@, o, ds, par, hp, n);
                let o2 = o.push(n);
                let p2 = par.push(hp);
                assert forall|i: int| 0 < i < o2.len() && #[trigger] p2[i] == hp implies dir_rank(pos(o[hp]), pos(o2[i]))
                    <= dir_rank(pos(o[hp]), (nx as int, ny as int)) by {
                    if i < o.len() {
                        assert(o2[i] == o[i] && p2[i] == par[i]);
                    }
                }
            }
            visited[nidx] = true;
            parent[nidx] = cidx;
            queue.push_back((nx, ny));
            assert(queue@ == o.push(n).subrange(hp + 1, o.len() + 1int));
            true
        } else {
            proof {
                lemma_bfs_seen(*self, visited@, parent@, o, ds, par, hp, (nx as int, ny as int));
            }
            false
        }
    }
}

} // verus!
