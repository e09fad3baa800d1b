//! The maze: a grid of cells with a wall on every cell edge that can be open
//! or closed.
//!
//! Horizontal walls are numbered by `(col, row)` with `col < width` and
//! `row <= height`: wall `(col, row)` lies above cell `(col, row)`. Vertical
//! walls are numbered with `col <= width` and `row < height`: wall
//! `(col, row)` lies left of cell `(col, row)`.

use vstd::prelude::*;
use crate::grid::{idx, in_grid, lemma_idx_bounds, lemma_idx_injective};

verus! {

pub struct Maze {
    width: usize,
    height: usize,
    h_walls: Vec<bool>,
    v_walls: Vec<bool>,
}

impl Maze {
    /// The wall vectors have the lengths that the dimensions give.
    pub closed spec fn wf(&self) -> bool {
        &&& self.width < usize::MAX
        &&& self.height < usize::MAX
        &&& self.width * (self.height + 1) <= usize::MAX
        &&& (self.width + 1) * self.height <= usize::MAX
        &&& self.h_walls@.len() == self.width * (self.height + 1)
        &&& self.v_walls@.len() == (self.width + 1) * self.height
    }

    pub closed spec fn w(&self) -> int {
        self.width as int
    }

    pub closed spec fn h(&self) -> int {
        self.height as int
    }

    /// Whether horizontal wall `(col, row)` stands.
    pub closed spec fn hw(&self, col: int, row: int) -> bool {
        self.h_walls@[idx(self.width as int, col, row)]
    }

    /// Whether vertical wall `(col, row)` stands.
    pub closed spec fn vw(&self, col: int, row: int) -> bool {
        self.v_walls@[idx(self.width + 1, col, row)]
    }

    /// The arithmetic bounds that the dimensions of a well-formed maze meet.
    pub proof fn lemma_dims(&self)
        requires
            self.wf(),
        ensures
            0 <= self.w() < usize::MAX,
            0 <= self.h(),
            self.h() < usize::MAX,
            self.w() * (self.h() + 1) <= usize::MAX,
            (self.w() + 1) * self.h() <= usize::MAX,
            self.w() * self.h() <= usize::MAX,
    {
        assert(self.w() * self.h() <= self.w() * (self.h() + 1)) by (nonlinear_arith)
            requires
                self.w() >= 0,
                self.h() >= 0,
        ;
    }

    /// A fully walled maze of the given size.
    pub fn new(width: usize, height: usize) -> (m: Maze)
        requires
            width < usize::MAX,
            height < usize::MAX,
            width * (height + 1) <= usize::MAX,
            (width + 1) * height <= usize::MAX,
        ensures
            m.wf(),
            m.w() == width,
            m.h() == height,
            forall|c: int, r: int| 0 <= c < width && 0 <= r <= height ==> #[trigger] m.hw(c, r),
            forall|c: int, r: int| 0 <= c <= width && 0 <= r < height ==> #[trigger] m.vw(c, r),
    {
        let m = Maze {
            width,
            height,
            h_walls: vec![true; width * (height + 1)],
            v_walls: vec![true; (width + 1) * height],
        };
        assert forall|c: int, r: int| 0 <= c < width && 0 <= r <= height implies #[trigger] m.hw(c, r) by {
            lemma_idx_bounds(width as int, height + 1, c, r);
        }
        assert forall|c: int, r: int| 0 <= c <= width && 0 <= r < height implies #[trigger] m.vw(c, r) by {
            lemma_idx_bounds(width + 1, height as int, c, r);
        }
        m
    }

    /// The number of cell columns.
    pub fn width(&self) -> (r: usize)
        ensures
            r == self.w(),
    {
        self.width
    }

    /// The number of cell rows.
    pub fn height(&self) -> (r: usize)
        ensures
            r == self.h(),
    {
        self.height
    }

    /// Whether horizontal wall `(col, row)` stands.
    pub fn h_wall(&self, col: usize, row: usize) -> (b: bool)
        requires
            self.wf(),
            col < self.w(),
            row <= self.h(),
        ensures
            b == self.hw(col as int, row as int),
    {
        proof {
            lemma_idx_bounds(self.width as int, self.height + 1, col as int, row as int);
        }
        self.h_walls[row * self.width + col]
    }

    /// Whether vertical wall `(col, row)` stands.
    pub fn v_wall(&self, col: usize, row: usize) -> (b: bool)
        requires
            self.wf(),
            col <= self.w(),
            row < self.h(),
        ensures
            b == self.vw(col as int, row as int),
    {
        proof {
            lemma_idx_bounds(self.width + 1, self.height as int, col as int, row as int);
        }
        self.v_walls[row * (self.width + 1) + col]
    }

    /// Sets horizontal wall `(col, row)` to `val`; every other wall keeps its state.
    pub fn set_h_wall(&mut self, col: usize, row: usize, val: bool)
        requires
            old(self).wf(),
            col < old(self).w(),
            row <= old(self).h(),
        ensures
            final(self).wf(),
            final(self).w() == old(self).w(),
            final(self).h() == old(self).h(),
            final(self).hw(col as int, row as int) == val,
            forall|c: int, r: int|
                0 <= c < old(self).w() && 0 <= r <= old(self).h() && (c != col || r != row)
                    ==> #[trigger] final(self).hw(c, r) == old(self).hw(c, r),
            forall|c: int, r: int| #[trigger] final(self).vw(c, r) == old(self).vw(c, r),
    {
        proof {
            lemma_idx_bounds(self.width as int, self.height + 1, col as int, row as int);
        }
        let i = row * self.width + col;
        self.h_walls[i] = val;
        proof {
            let w = self.width as int;
            assert forall|c: int, r: int|
                0 <= c < old(self).w() && 0 <= r <= old(self).h() && (c != col || r != row)
                    implies #[trigger] self.hw(c, r) == old(self).hw(c, r) by {
                lemma_idx_bounds(w, self.height + 1, c, r);
                if idx(w, c, r) == idx(w, col as int, row as int) {
                    lemma_idx_injective(w, c, r, col as int, row as int);
                }
            }
        }
    }

    /// Sets vertical wall `(col, row)` to `val`; every other wall keeps its state.
    pub fn set_v_wall(&mut self, col: usize, row: usize, val: bool)
        requires
            old(self).wf(),
            col <= old(self).w(),
            row < old(self).h(),
        ensures
            final(self).wf(),
            final(self).w() == old(self).w(),
            final(self).h() == old(self).h(),
            final(self).vw(col as int, row as int) == val,
            forall|c: int, r: int|
                0 <= c <= old(self).w() && 0 <= r < old(self).h() && (c != col || r != row)
                    ==> #[trigger] final(self).vw(c, r) == old(self).vw(c, r),
            forall|c: int, r: int| #[trigger] final(self).hw(c, r) == old(self).hw(c, r),
    {
        proof {
            lemma_idx_bounds(self.width + 1, self.height as int, col as int, row as int);
        }
        let i = row * (self.width + 1) + col;
        self.v_walls[i] = val;
        proof {
            let w = self.width + 1;
            assert forall|c: int, r: int|
                0 <= c <= old(self).w() && 0 <= r < old(self).h() && (c != col || r != row)
                    implies #[trigger] self.vw(c, r) == old(self).vw(c, r) by {
                lemma_idx_bounds(w, self.height as int, c, r);
                if idx(w, c, r) == idx(w, col as int, row as int) {
                    lemma_idx_injective(w, c, r, col as int, row as int);
                }
            }
        }
    }

    /// Cells `a` and `b` are neighbours on the grid with no wall between them.
    pub open spec fn open_between(&self, a: (int, int), b: (int, int)) -> bool {
        &&& in_grid(self.w(), self.h(), a.0, a.1)
        &&& in_grid(self.w(), self.h(), b.0, b.1)
        &&& {
            ||| (b.0 == a.0 && b.1 == a.1 - 1 && !self.hw(a.0, a.1))
            ||| (b.0 == a.0 && b.1 == a.1 + 1 && !self.hw(a.0, b.1))
            ||| (b.1 == a.1 && b.0 == a.0 - 1 && !self.vw(a.0, a.1))
            ||| (b.1 == a.1 && b.0 == a.0 + 1 && !self.vw(b.0, a.1))
        }
    }

    /// `p` is a walk through the maze: consecutive cells are joined by an open passage.
    pub open spec fn is_walk(&self, p: Seq<(int, int)>) -> bool {
        &&& p.len() >= 1
        &&& forall|i: int| 0 <= i < p.len() - 1 ==> #[trigger] self.open_between(p[i], p[i + 1])
    }

    /// `p` is a walk from the top-left cell to `c`.
    pub open spec fn is_route_to(&self, p: Seq<(int, int)>, c: (int, int)) -> bool {
        &&& self.is_walk(p)
        &&& p[0] == (0int, 0int)
        &&& p.last() == c
    }

    /// Cell `c` can be reached from the top-left cell through open passages.
    pub open spec fn reachable(&self, c: (int, int)) -> bool {
        exists|p: Seq<(int, int)>| #[trigger] self.is_route_to(p, c)
    }

    /// `p` is a path through the maze: a walk that never visits a cell twice.
    pub open spec fn is_simple_path(&self, p: Seq<(int, int)>) -> bool {
        &&& self.is_walk(p)
        &&& p.no_duplicates()
    }

    /// Passages are two-way.
    pub proof fn lemma_open_between_symmetric(&self, a: (int, int), b: (int, int))
        requires
            self.open_between(a, b),
        ensures
            self.open_between(b, a),
    {
    }

    /// `c` is a cycle of three or more distinct cells, each joined to the
    /// next, and the last to the first, by an open passage.
    pub open spec fn is_simple_cycle(&self, c: Seq<(int, int)>) -> bool {
        &&& c.len() >= 3
        &&& c.no_duplicates()
        &&& forall|i: int| 0 <= i < c.len() - 1 ==> #[trigger] self.open_between(c[i], c[i + 1])
        &&& self.open_between(c.last(), c[0])
    }

    /// The open walls, each as `(is_horizontal, col, row)`.
    pub open spec fn open_walls(&self) -> Set<(bool, int, int)> {
        Set::new(
            |t: (bool, int, int)|
                if t.0 {
                    0 <= t.1 < self.w() && 0 <= t.2 <= self.h() && !self.hw(t.1, t.2)
                } else {
                    0 <= t.1 <= self.w() && 0 <= t.2 < self.h() && !self.vw(t.1, t.2)
                },
        )
    }

    /// Every wall on the outer border of the grid stands.
    pub open spec fn border_closed(&self) -> bool {
        &&& forall|c: int| 0 <= c < self.w() ==> #[trigger] self.hw(c, 0) && self.hw(c, self.h())
        &&& forall|r: int| 0 <= r < self.h() ==> #[trigger] self.vw(0, r) && self.vw(self.w(), r)
    }

    /// Dropping the last cell of a route of two or more cells leaves a route to
    /// the cell before it, which an open passage joins to the last one.
    pub proof fn lemma_route_pop(&self, p: Seq<(int, int)>, c: (int, int))
        requires
            self.is_route_to(p, c),
            p.len() >= 2,
        ensures
            self.is_route_to(p.drop_last(), p.drop_last().last()),
            self.open_between(p.drop_last().last(), c),
    {
        let q = p.drop_last();
        let j = p.len() - 2;
        assert(self.open_between(p[j], p[j + 1]));
        assert forall|i: int| 0 <= i < q.len() - 1 implies #[trigger] self.open_between(q[i], q[i + 1]) by {
            assert(self.open_between(p[i], p[i + 1]));
        }
    }

    /// Extending a route by an open passage gives a route to the new cell.
    pub proof fn lemma_route_push(&self, p: Seq<(int, int)>, a: (int, int), c: (int, int))
        requires
            self.is_route_to(p, a),
            self.open_between(a, c),
        ensures
            self.is_route_to(p.push(c), c),
    {
        let q = p.push(c);
        assert forall|i: int| 0 <= i < q.len() - 1 implies #[trigger] self.open_between(q[i], q[i + 1]) by {
            if i < p.len() - 1 {
                assert(q[i] == p[i] && q[i + 1] == p[i + 1]);
            } else {
                assert(q[i] == p.last());
            }
        }
    }

    /// Cells `a` and `b` are the two ends of a path through the maze.
    pub open spec fn joined(&self, a: (int, int), b: (int, int)) -> bool {
        exists|p: Seq<(int, int)>| #[trigger] self.is_simple_path(p) && p[0] == a && p.last() == b
    }

    /// A walk read backwards is a walk.
    pub proof fn lemma_walk_reverse(&self, p: Seq<(int, int)>) -> (q: Seq<(int, int)>)
        requires
            self.is_walk(p),
        ensures
            self.is_walk(q),
            q.len() == p.len(),
            q[0] == p.last(),
            q.last() == p[0],
    {
        let n = p.len() as int;
        let q = Seq::new(p.len(), |i: int| p[n - 1 - i]);
        assert forall|i: int| 0 <= i < q.len() - 1 implies #[trigger] self.open_between(q[i], q[i + 1]) by {
            let j = n - 2 - i;
            assert(self.open_between(p[j], p[j + 1]));
            self.lemma_open_between_symmetric(p[j], p[j + 1]);
        }
        q
    }

    /// A walk that ends where a second one starts, followed by the rest of
    /// the second, is a walk.
    pub proof fn lemma_walk_join(&self, p: Seq<(int, int)>, q: Seq<(int, int)>)
        requires
            self.is_walk(p),
            self.is_walk(q),
            p.last() == q[0],
        ensures
            self.is_walk(p + q.drop_first()),
            (p + q.drop_first())[0] == p[0],
            (p + q.drop_first()).last() == q.last(),
    {
        let r = p + q.drop_first();
        assert forall|i: int| 0 <= i < r.len() - 1 implies #[trigger] self.open_between(r[i], r[i + 1]) by {
            if i < p.len() - 1 {
                assert(self.open_between(p[i], p[i + 1]));
            } else {
                let k = i - (p.len() - 1);
                assert(r[i] == q[k]);
                assert(r[i + 1] == q[k + 1]);
                assert(self.open_between(q[k], q[k + 1]));
            }
        }
        if q.len() > 1 {
            assert(r.last() == q.drop_first().last());
        }
    }

    /// Cutting out the loops of a walk leaves a path with the same ends.
    pub proof fn lemma_walk_to_path(&self, p: Seq<(int, int)>) -> (q: Seq<(int, int)>)
        requires
            self.is_walk(p),
        ensures
            self.is_simple_path(q),
            q[0] == p[0],
            q.last() == p.last(),
        decreases p.len(),
    {
        if p.no_duplicates() {
            p
        } else {
            let (i0, j0) = choose|i: int, j: int|
                0 <= i < p.len() && 0 <= j < p.len() && i != j && p[i] == p[j];
            let i = if i0 < j0 { i0 } else { j0 };
            let j = if i0 < j0 { j0 } else { i0 };
            let r = p.subrange(0, i) + p.subrange(j, p.len() as int);
            assert forall|t: int| 0 <= t < r.len() - 1 implies #[trigger] self.open_between(r[t], r[t + 1]) by {
                if t < i - 1 {
                    assert(r[t] == p[t] && r[t + 1] == p[t + 1]);
                    assert(self.open_between(p[t], p[t + 1]));
                } else if t == i - 1 {
                    assert(r[t] == p[i - 1] && r[t + 1] == p[j]);
                    assert(self.open_between(p[i - 1], p[i]));
                } else {
                    let k = t - i + j;
                    assert(r[t] == p[k] && r[t + 1] == p[k + 1]);
                    assert(self.open_between(p[k], p[k + 1]));
                }
            }
            if i == 0 {
                assert(r[0] == p[j]);
            } else {
                assert(r[0] == p[0]);
            }
            assert(r.last() == p.last());
            self.lemma_walk_to_path(r)
        }
    }

    /// When every cell can be reached from the top-left cell, any two cells
    /// are joined by a path.
    pub proof fn lemma_reachable_cells_joined(&self, a: (int, int), b: (int, int))
        requires
            self.reachable(a),
            self.reachable(b),
        ensures
            self.joined(a, b),
    {
        let ra = choose|p: Seq<(int, int)>| #[trigger] self.is_route_to(p, a);
        let rb = choose|p: Seq<(int, int)>| #[trigger] self.is_route_to(p, b);
        let back = self.lemma_walk_reverse(ra);
        self.lemma_walk_join(back, rb);
        let q = self.lemma_walk_to_path(back + rb.drop_first());
        assert(self.is_simple_path(q));
    }
}

/// The box-drawing character for a wall corner with wall arms going up,
/// down, left and right as given.
pub open spec fn corner_glyph(up: bool, down: bool, left: bool, right: bool) -> char {
    match (up, down, left, right) {
        (false, false, false, false) => ' ',
        (false, false, false, true) => '\u{2576}',
        (false, true, false, false) => '\u{2577}',
        (false, true, false, true) => '\u{250c}',
        (false, false, true, false) => '\u{2574}',
        (false, false, true, true) => '\u{2500}',
        (false, true, true, false) => '\u{2510}',
        (false, true, true, true) => '\u{252c}',
        (true, false, false, false) => '\u{2575}',
        (true, false, false, true) => '\u{2514}',
        (true, true, false, false) => '\u{2502}',
        (true, true, false, true) => '\u{251c}',
        (true, false, true, false) => '\u{2518}',
        (true, false, true, true) => '\u{2534}',
        (true, true, true, false) => '\u{2524}',
        (true, true, true, true) => '\u{253c}',
    }
}

/// The arms of a light box-drawing character, as its Unicode name gives
/// them: `(up, down, left, right)`. A blank has none; any other character
/// is no box-drawing corner.
pub open spec fn glyph_arms(ch: char) -> Option<(bool, bool, bool, bool)> {
    if ch == ' ' {
        Some((false, false, false, false))
    } else if ch == '\u{2574}' {
        // BOX DRAWINGS LIGHT LEFT
        Some((false, false, true, false))
    } else if ch == '\u{2575}' {
        // BOX DRAWINGS LIGHT UP
        Some((true, false, false, false))
    } else if ch == '\u{2576}' {
        // BOX DRAWINGS LIGHT RIGHT
        Some((false, false, false, true))
    } else if ch == '\u{2577}' {
        // BOX DRAWINGS LIGHT DOWN
        Some((false, true, false, false))
    } else if ch == '\u{2500}' {
        // BOX DRAWINGS LIGHT HORIZONTAL
        Some((false, false, true, true))
    } else if ch == '\u{2502}' {
        // BOX DRAWINGS LIGHT VERTICAL
        Some((true, true, false, false))
    } else if ch == '\u{250c}' {
        // BOX DRAWINGS LIGHT DOWN AND RIGHT
        Some((false, true, false, true))
    } else if ch == '\u{2510}' {
        // BOX DRAWINGS LIGHT DOWN AND LEFT
        Some((false, true, true, false))
    } else if ch == '\u{2514}' {
        // BOX DRAWINGS LIGHT UP AND RIGHT
        Some((true, false, false, true))
    } else if ch == '\u{2518}' {
        // BOX DRAWINGS LIGHT UP AND LEFT
        Some((true, false, true, false))
    } else if ch == '\u{251c}' {
        // BOX DRAWINGS LIGHT VERTICAL AND RIGHT
        Some((true, true, false, true))
    } else if ch == '\u{2524}' {
        // BOX DRAWINGS LIGHT VERTICAL AND LEFT
        Some((true, true, true, false))
    } else if ch == '\u{252c}' {
        // BOX DRAWINGS LIGHT DOWN AND HORIZONTAL
        Some((false, true, true, true))
    } else if ch == '\u{2534}' {
        // BOX DRAWINGS LIGHT UP AND HORIZONTAL
        Some((true, false, true, true))
    } else if ch == '\u{253c}' {
        // BOX DRAWINGS LIGHT VERTICAL AND HORIZONTAL
        Some((true, true, true, true))
    } else {
        None
    }
}

/// A box-drawing corner has an arm on each side where a wall meets it and
/// on no other: up where vertical wall `(c, r - 1)` stands, down where
/// `(c, r)` stands, left where horizontal wall `(c - 1, r)` stands, right
/// where `(c, r)` stands; walls outside the grid count as absent. In ASCII
/// mode every corner is a `+`.
pub proof fn lemma_corner_arms(m: Maze, c: int, r: int)
    ensures
        m.corner_char(c, r, true) == '+',
        glyph_arms(m.corner_char(c, r, false)) == Some(
            (
                r > 0 && m.vw(c, r - 1),
                r < m.h() && m.vw(c, r),
                c > 0 && m.hw(c - 1, r),
                c < m.w() && m.hw(c, r),
            ),
        ),
{
}

impl Maze {
    /// The character drawn at wall corner `(col, row)`: `+` in ASCII mode,
    /// otherwise the box-drawing character whose arms follow the walls that
    /// meet there.
    pub open spec fn corner_char(&self, col: int, row: int, ascii: bool) -> char {
        if ascii {
            '+'
        } else {
            corner_glyph(
                row > 0 && self.vw(col, row - 1),
                row < self.h() && self.vw(col, row),
                col > 0 && self.hw(col - 1, row),
                col < self.w() && self.hw(col, row),
            )
        }
    }

    /// The character drawn at wall corner `(col, row)`. In ASCII mode it is
    /// always `+`, and no wall is read.
    pub fn intersection_char(&self, col: usize, row: usize, ascii: bool) -> (c: char)
        requires
            !ascii ==> self.wf() && col <= self.w() && row <= self.h(),
        ensures
            c == self.corner_char(col as int, row as int, ascii),
    {
        if ascii {
            return '+';
        }
        let up = row > 0 && self.v_wall(col, row - 1);
        let down = row < self.height && self.v_wall(col, row);
        let left = col > 0 && self.h_wall(col - 1, row);
        let right = col < self.width && self.h_wall(col, row);
        match (up, down, left, right) {
            (false, false, false, false) => ' ',
            (false, false, false, true) => '\u{2576}',
            (false, true, false, false) => '\u{2577}',
            (false, true, false, true) => '\u{250c}',
            (false, false, true, false) => '\u{2574}',
            (false, false, true, true) => '\u{2500}',
            (false, true, true, false) => '\u{2510}',
            (false, true, true, true) => '\u{252c}',
            (true, false, false, false) => '\u{2575}',
            (true, false, false, true) => '\u{2514}',
            (true, true, false, false) => '\u{2502}',
            (true, true, false, true) => '\u{251c}',
            (true, false, true, false) => '\u{2518}',
            (true, false, true, true) => '\u{2534}',
            (true, true, true, false) => '\u{2524}',
            (true, true, true, true) => '\u{253c}',
        }
    }
}

} // verus!
