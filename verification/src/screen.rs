//! What a drawing plan leaves on the terminal: a model of the characters on
//! the screen, and the laws that the still picture and the animation's final
//! picture show the maze, its start and goal, and the solution's route.

use vstd::prelude::*;
use crate::render::{
    Command, Tone, full_grid_corner, full_grid_side, full_grid_corners, full_grid_sides, full_grid_row,
    full_grid_rows, full_grid_plan, carved_corner, anim_title, explore_piece, explore_plan, path_piece,
    path_pieces, path_rows, corner_redraw, carve_step_plan, carve_plan, drawable_step, anim_finish,
    animated_plan, carve_delay, explore_delay, lemma_carved_corner, static_plan, static_header, grid_rows,
    grid_row, wall_pieces, wall_piece, cell_pieces, cell_piece, cell_inside, line_end, static_footer,
    on_solution, h_wall_text, v_wall_char,
};
use crate::generate::{CarvingStep, WallKind, opened_h, opened_v, opens_h, opens_v, carved_from};
use crate::maze::Maze;
use crate::grid::{count_true, idx};

verus! {

/// The characters on the screen, by `(column, row)`, and the cursor. Only
/// positions written since the screen was last cleared hold a character.
pub struct Screen {
    pub col: int,
    pub row: int,
    pub chars: Map<(int, int), char>,
}

/// Printing one character: a newline moves to the start of the next row,
/// any other character is written at the cursor, which moves right.
pub open spec fn put_char(s: Screen, ch: char) -> Screen {
    if ch == '\n' {
        Screen { col: 0, row: s.row + 1, chars: s.chars }
    } else {
        Screen { col: s.col + 1, row: s.row, chars: s.chars.insert((s.col, s.row), ch) }
    }
}

/// Printing the characters of `t` one after another.
pub open spec fn put_text(s: Screen, t: Seq<char>) -> Screen
    decreases t.len(),
{
    if t.len() == 0 {
        s
    } else {
        put_text(put_char(s, t[0]), t.drop_first())
    }
}

pub open spec fn digit_char(d: nat) -> char {
    (d + 48) as char
}

/// The decimal digits of `n`.
pub open spec fn decimal(n: nat) -> Seq<char>
    decreases n,
{
    if n < 10 {
        seq![digit_char(n)]
    } else {
        decimal(n / 10).push(digit_char(n % 10))
    }
}

/// The effect of one command on the screen. Colours, attributes, pauses,
/// flushing, the cursor's visibility, the terminal mode and waiting for a
/// key change no character; clearing and entering the alternate screen
/// leave it blank.
pub open spec fn apply(s: Screen, c: Command) -> Screen {
    match c {
        Command::Text(t) => put_text(s, t@),
        Command::Char(ch) => put_char(s, ch),
        Command::Number(n) => put_text(s, decimal(n as nat)),
        Command::MoveTo(x, y) => Screen { col: x as int, row: y as int, chars: s.chars },
        Command::ClearAll => Screen { col: s.col, row: s.row, chars: Map::empty() },
        Command::EnterAlternateScreen => Screen { col: s.col, row: s.row, chars: Map::empty() },
        _ => s,
    }
}

/// The screen after carrying out `cmds` in order.
pub open spec fn run(s: Screen, cmds: Seq<Command>) -> Screen
    decreases cmds.len(),
{
    if cmds.len() == 0 {
        s
    } else {
        run(apply(s, cmds[0]), cmds.drop_first())
    }
}

/// Position `(x, y)` holds character `ch`.
pub open spec fn shows(s: Screen, x: int, y: int, ch: char) -> bool {
    s.chars.dom().contains((x, y)) && s.chars[(x, y)] == ch
}

pub open spec fn no_newline(t: Seq<char>) -> bool {
    forall|i: int| 0 <= i < t.len() ==> t[i] != '\n'
}

proof fn lemma_run_concat(s: Screen, a: Seq<Command>, b: Seq<Command>)
    ensures
        run(s, a + b) == run(run(s, a), b),
    decreases a.len(),
{
    if a.len() == 0 {
        assert(a + b =~= b);
    } else {
        assert((a + b).drop_first() =~= a.drop_first() + b);
        assert((a + b)[0] == a[0]);
        lemma_run_concat(apply(s, a[0]), a.drop_first(), b);
    }
}

proof fn lemma_run_one(s: Screen, c: Command)
    ensures
        run(s, seq![c]) == apply(s, c),
{
    reveal_with_fuel(run, 2);
    assert(seq![c].drop_first() =~= Seq::<Command>::empty());
}

/// Text without a newline is written along the cursor's row.
proof fn lemma_put_text(s: Screen, t: Seq<char>)
    requires
        no_newline(t),
    ensures
        put_text(s, t).col == s.col + t.len(),
        put_text(s, t).row == s.row,
        forall|i: int| 0 <= i < t.len() ==> #[trigger] shows(put_text(s, t), s.col + i, s.row, t[i]),
        forall|x: int, y: int|
            #![trigger put_text(s, t).chars.dom().contains((x, y))]
            #![trigger put_text(s, t).chars[(x, y)]]
            !(y == s.row && s.col <= x < s.col + t.len()) ==> (put_text(s, t).chars.dom().contains((x, y))
                == s.chars.dom().contains((x, y)) && (s.chars.dom().contains((x, y)) ==> put_text(s, t).chars[(x, y)]
                == s.chars[(x, y)])),
    decreases t.len(),
{
    if t.len() > 0 {
        let s1 = put_char(s, t[0]);
        let t1 = t.drop_first();
        assert(no_newline(t1)) by {
            assert forall|i: int| 0 <= i < t1.len() implies t1[i] != '\n' by {
                assert(t1[i] == t[i + 1]);
            }
        }
        lemma_put_text(s1, t1);
        let r = put_text(s, t);
        assert forall|i: int| 0 <= i < t.len() implies #[trigger] shows(r, s.col + i, s.row, t[i]) by {
            if i > 0 {
                assert(t1[i - 1] == t[i]);
                assert(shows(put_text(s1, t1), s1.col + (i - 1), s1.row, t1[i - 1]));
            } else {
                assert(r.chars.dom().contains((s.col, s.row)));
                assert(r.chars[(s.col, s.row)] == s1.chars[(s.col, s.row)]);
            }
        }
        assert forall|x: int, y: int|
            #![trigger r.chars.dom().contains((x, y))]
            #![trigger r.chars[(x, y)]]
            !(y == s.row && s.col <= x < s.col + t.len()) implies (r.chars.dom().contains((x, y))
            == s.chars.dom().contains((x, y)) && (s.chars.dom().contains((x, y)) ==> r.chars[(x, y)]
            == s.chars[(x, y)])) by {
            assert(r.chars.dom().contains((x, y)) == s1.chars.dom().contains((x, y)));
            if s1.chars.dom().contains((x, y)) {
                assert(r.chars[(x, y)] == s1.chars[(x, y)]);
            }
        }
    }
}

proof fn lemma_decimal_no_newline(n: nat)
    ensures
        no_newline(decimal(n)),
    decreases n,
{
    if n >= 10 {
        lemma_decimal_no_newline(n / 10);
        let d = decimal(n);
        assert forall|i: int| 0 <= i < d.len() implies d[i] != '\n' by {
            if i < d.len() - 1 {
                assert(d[i] == decimal(n / 10)[i]);
            }
        }
    }
}


// ---------------------------------------------------------------------------
// The picture of the grid

/// The character on horizontal wall `(c, r)`: blank once a step opened it.
pub open spec fn h_glyph(done: Seq<CarvingStep>, c: int, r: int) -> char {
    if opened_h(done, c, r) {
        ' '
    } else {
        '\u{2500}'
    }
}

/// The character on vertical wall `(c, r)`: blank once a step opened it.
pub open spec fn v_glyph(done: Seq<CarvingStep>, c: int, r: int) -> char {
    if opened_v(done, c, r) {
        ' '
    } else {
        '\u{2502}'
    }
}

/// Some step of `done` opened a wall that meets corner `(c, r)`.
pub open spec fn corner_touched(w: int, h: int, done: Seq<CarvingStep>, c: int, r: int) -> bool {
    ||| (c > 0 && opened_h(done, c - 1, r))
    ||| (c < w && opened_h(done, c, r))
    ||| (r > 0 && opened_v(done, c, r - 1))
    ||| (r < h && opened_v(done, c, r))
}

/// The character at corner `(c, r)`: the full cross drawn at first, and the
/// glyph that the open walls leave once one of them was opened.
pub open spec fn corner_shown(w: int, h: int, done: Seq<CarvingStep>, c: int, r: int) -> char {
    if corner_touched(w, h, done, c, r) {
        carved_corner(w, h, done, c, r)
    } else {
        '\u{253c}'
    }
}

pub open spec fn shows_h(s: Screen, done: Seq<CarvingStep>, c: int, r: int, j: int) -> bool {
    shows(s, 4 * c + j, 2 * r + 1, h_glyph(done, c, r))
}

pub open spec fn shows_v(s: Screen, done: Seq<CarvingStep>, c: int, r: int) -> bool {
    shows(s, 4 * c, 2 * r + 2, v_glyph(done, c, r))
}

pub open spec fn shows_corner(s: Screen, w: int, h: int, done: Seq<CarvingStep>, c: int, r: int) -> bool {
    shows(s, 4 * c, 2 * r + 1, corner_shown(w, h, done, c, r))
}

/// The screen shows the grid of a `w` x `h` maze as the steps `done` left
/// it: each wall line `r` on row `2r + 1`, a corner every four columns and
/// three characters of horizontal wall between; each cell line `r` on row
/// `2r + 2`, with the vertical walls every four columns.
pub open spec fn grid_shown(s: Screen, w: int, h: int, done: Seq<CarvingStep>) -> bool {
    &&& forall|c: int, r: int, j: int| 0 <= c < w && 0 <= r <= h && 1 <= j <= 3 ==> #[trigger] shows_h(s, done, c, r, j)
    &&& forall|c: int, r: int| 0 <= c <= w && 0 <= r < h ==> #[trigger] shows_v(s, done, c, r)
    &&& forall|c: int, r: int| 0 <= c <= w && 0 <= r <= h ==> #[trigger] shows_corner(s, w, h, done, c, r)
}

/// A position that holds a wall or a corner of the grid.
pub open spec fn is_slot(w: int, h: int, x: int, y: int) -> bool {
    1 <= y <= 2 * h + 1 && 0 <= x <= 4 * w && (y % 2 == 1 || x % 4 == 0)
}

/// The grid positions before `(x0, y0)`, row by row, show the fully walled
/// grid.
spec fn walled_upto(s: Screen, w: int, h: int, y0: int, x0: int) -> bool {
    let e = Seq::<CarvingStep>::empty();
    &&& forall|c: int, r: int, j: int|
        0 <= c < w && 0 <= r <= h && 1 <= j <= 3 && (2 * r + 1 < y0 || (2 * r + 1 == y0 && 4 * c + j < x0))
            ==> #[trigger] shows_h(s, e, c, r, j)
    &&& forall|c: int, r: int|
        0 <= c <= w && 0 <= r < h && (2 * r + 2 < y0 || (2 * r + 2 == y0 && 4 * c < x0)) ==> #[trigger] shows_v(s, e, c, r)
    &&& forall|c: int, r: int|
        0 <= c <= w && 0 <= r <= h && (2 * r + 1 < y0 || (2 * r + 1 == y0 && 4 * c < x0))
            ==> #[trigger] shows_corner(s, w, h, e, c, r)
    &&& forall|c: int, r: int|
        0 <= c < w && 0 <= r < h && (2 * r + 2 < y0 || (2 * r + 2 == y0 && 4 * c + 2 < x0)) ==> #[trigger] shows_centre(s, c, r, ' ')
}

/// The centre of cell `(c, r)` holds `ch`.
pub open spec fn shows_centre(s: Screen, c: int, r: int, ch: char) -> bool {
    shows(s, 4 * c + 2, 2 * r + 2, ch)
}

/// Every cell of the grid has a blank centre.
pub open spec fn centres_blank(s: Screen, w: int, h: int) -> bool {
    forall|c: int, r: int| 0 <= c < w && 0 <= r < h ==> #[trigger] shows_centre(s, c, r, ' ')
}

proof fn lemma_nothing_opened(w: int, h: int, c: int, r: int)
    ensures
        !opened_h(Seq::<CarvingStep>::empty(), c, r),
        !opened_v(Seq::<CarvingStep>::empty(), c, r),
        !corner_touched(w, h, Seq::<CarvingStep>::empty(), c, r),
{
}

proof fn lemma_full_grid_corner(s: Screen, w: int, h: int, r: int, c: int, color: Tone)
    requires
        w * 4 + 4 <= usize::MAX,
        h * 2 + 3 <= usize::MAX,
        0 <= c <= w,
        0 <= r <= h,
        walled_upto(s, w, h, 2 * r + 1, 4 * c),
    ensures
        walled_upto(run(s, full_grid_corner(w, r, c, color)), w, h, 2 * r + 1, 4 * c + 4),
{
    let e = Seq::<CarvingStep>::empty();
    let s1 = Screen { col: 4 * c, row: 2 * r + 1, chars: s.chars };
    let s3 = put_char(s1, '\u{253c}');
    let fin = if c < w { put_text(s3, "\u{2500}\u{2500}\u{2500}"@) } else { s3 };
    assert(run(s, full_grid_corner(w, r, c, color)) == fin) by {
        reveal_with_fuel(run, 5);
        reveal_strlit("\u{2500}\u{2500}\u{2500}");
        let p = full_grid_corner(w, r, c, color);
        assert(p[0] == Command::MoveTo((c * 4) as usize, (r * 2 + 1) as usize));
        assert(apply(s, p[0]) == s1);
        if c < w {
            assert(p.drop_first().drop_first().drop_first() =~= seq![Command::Text("\u{2500}\u{2500}\u{2500}")]);
        } else {
            assert(p.drop_first().drop_first().drop_first() =~= Seq::<Command>::empty());
        }
    }
    if c < w {
        reveal_strlit("\u{2500}\u{2500}\u{2500}");
        lemma_put_text(s3, "\u{2500}\u{2500}\u{2500}"@);
    }
    assert forall|cc: int, rr: int| #![auto] true implies !opened_h(e, cc, rr) && !opened_v(e, cc, rr)
        && !corner_touched(w, h, e, cc, rr) by {
        lemma_nothing_opened(w, h, cc, rr);
    }
    let y0 = 2 * r + 1;
    assert forall|cc: int, rr: int, j: int|
        0 <= cc < w && 0 <= rr <= h && 1 <= j <= 3 && (2 * rr + 1 < y0 || (2 * rr + 1 == y0 && 4 * cc + j < 4 * c + 4))
            implies #[trigger] shows_h(fin, e, cc, rr, j) by {
        let x = 4 * cc + j;
        let y = 2 * rr + 1;
        if y == y0 && x >= 4 * c {
            assert(cc == c);
            reveal_strlit("\u{2500}\u{2500}\u{2500}");
            assert(shows(fin, s3.col + (j - 1), s3.row, "\u{2500}\u{2500}\u{2500}"@[j - 1]));
        } else {
            assert(shows_h(s, e, cc, rr, j));
            assert(s3.chars.dom().contains((x, y)) && s3.chars[(x, y)] == s.chars[(x, y)]);
            if c < w {
                assert(fin.chars.dom().contains((x, y)) == s3.chars.dom().contains((x, y)));
            }
        }
    }
    assert forall|cc: int, rr: int|
        0 <= cc <= w && 0 <= rr < h && (2 * rr + 2 < y0 || (2 * rr + 2 == y0 && 4 * cc < 4 * c + 4))
            implies #[trigger] shows_v(fin, e, cc, rr) by {
        let x = 4 * cc;
        let y = 2 * rr + 2;
        assert(shows_v(s, e, cc, rr));
        assert(s3.chars.dom().contains((x, y)) && s3.chars[(x, y)] == s.chars[(x, y)]);
        if c < w {
            assert(fin.chars.dom().contains((x, y)) == s3.chars.dom().contains((x, y)));
        }
    }
    assert forall|cc: int, rr: int|
        0 <= cc <= w && 0 <= rr <= h && (2 * rr + 1 < y0 || (2 * rr + 1 == y0 && 4 * cc < 4 * c + 4))
            implies #[trigger] shows_corner(fin, w, h, e, cc, rr) by {
        let x = 4 * cc;
        let y = 2 * rr + 1;
        if y == y0 && x >= 4 * c {
            assert(cc == c);
            assert(s3.chars.dom().contains((x, y)) && s3.chars[(x, y)] == '\u{253c}');
            if c < w {
                assert(fin.chars.dom().contains((x, y)) == s3.chars.dom().contains((x, y)));
            }
        } else {
            assert(shows_corner(s, w, h, e, cc, rr));
            assert(s3.chars.dom().contains((x, y)) && s3.chars[(x, y)] == s.chars[(x, y)]);
            if c < w {
                assert(fin.chars.dom().contains((x, y)) == s3.chars.dom().contains((x, y)));
            }
        }
    }
    assert forall|cc: int, rr: int|
        0 <= cc < w && 0 <= rr < h && (2 * rr + 2 < y0 || (2 * rr + 2 == y0 && 4 * cc + 2 < 4 * c + 4))
            implies #[trigger] shows_centre(fin, cc, rr, ' ') by {
        let x = 4 * cc + 2;
        let y = 2 * rr + 2;
        assert(shows_centre(s, cc, rr, ' '));
        assert(s3.chars.dom().contains((x, y)) && s3.chars[(x, y)] == s.chars[(x, y)]);
        if c < w {
            assert(fin.chars.dom().contains((x, y)) == s3.chars.dom().contains((x, y)));
        }
    }
}


proof fn lemma_full_grid_side(s: Screen, w: int, h: int, r: int, c: int, color: Tone)
    requires
        w * 4 + 4 <= usize::MAX,
        h * 2 + 3 <= usize::MAX,
        0 <= c <= w,
        0 <= r < h,
        walled_upto(s, w, h, 2 * r + 2, 4 * c),
    ensures
        walled_upto(run(s, full_grid_side(w, r, c, color)), w, h, 2 * r + 2, 4 * c + 4),
{
    let e = Seq::<CarvingStep>::empty();
    let s1 = Screen { col: 4 * c, row: 2 * r + 2, chars: s.chars };
    let s3 = put_char(s1, '\u{2502}');
    let fin = if c < w { put_text(s3, "   "@) } else { s3 };
    assert(run(s, full_grid_side(w, r, c, color)) == fin) by {
        reveal_with_fuel(run, 6);
        let p = full_grid_side(w, r, c, color);
        assert(apply(s, p[0]) == s1);
        if c < w {
            assert(p.drop_first().drop_first().drop_first() =~= seq![Command::ResetColor, Command::Text("   ")]);
        } else {
            assert(p.drop_first().drop_first().drop_first() =~= Seq::<Command>::empty());
        }
    }
    if c < w {
        reveal_strlit("   ");
        lemma_put_text(s3, "   "@);
    }
    assert forall|cc: int, rr: int| #![auto] true implies !opened_h(e, cc, rr) && !opened_v(e, cc, rr)
        && !corner_touched(w, h, e, cc, rr) by {
        lemma_nothing_opened(w, h, cc, rr);
    }
    let y0 = 2 * r + 2;
    assert forall|cc: int, rr: int, j: int|
        0 <= cc < w && 0 <= rr <= h && 1 <= j <= 3 && (2 * rr + 1 < y0 || (2 * rr + 1 == y0 && 4 * cc + j < 4 * c + 4))
            implies #[trigger] shows_h(fin, e, cc, rr, j) by {
        let x = 4 * cc + j;
        let y = 2 * rr + 1;
        assert(shows_h(s, e, cc, rr, j));
        assert(s3.chars.dom().contains((x, y)) && s3.chars[(x, y)] == s.chars[(x, y)]);
        if c < w {
            assert(fin.chars.dom().contains((x, y)) == s3.chars.dom().contains((x, y)));
        }
    }
    assert forall|cc: int, rr: int|
        0 <= cc <= w && 0 <= rr < h && (2 * rr + 2 < y0 || (2 * rr + 2 == y0 && 4 * cc < 4 * c + 4))
            implies #[trigger] shows_v(fin, e, cc, rr) by {
        let x = 4 * cc;
        let y = 2 * rr + 2;
        if y == y0 && x >= 4 * c {
            assert(cc == c);
            assert(s3.chars.dom().contains((x, y)) && s3.chars[(x, y)] == '\u{2502}');
        } else {
            assert(shows_v(s, e, cc, rr));
            assert(s3.chars.dom().contains((x, y)) && s3.chars[(x, y)] == s.chars[(x, y)]);
        }
        if c < w {
            assert(fin.chars.dom().contains((x, y)) == s3.chars.dom().contains((x, y)));
        }
    }
    assert forall|cc: int, rr: int|
        0 <= cc <= w && 0 <= rr <= h && (2 * rr + 1 < y0 || (2 * rr + 1 == y0 && 4 * cc < 4 * c + 4))
            implies #[trigger] shows_corner(fin, w, h, e, cc, rr) by {
        let x = 4 * cc;
        let y = 2 * rr + 1;
        assert(shows_corner(s, w, h, e, cc, rr));
        assert(s3.chars.dom().contains((x, y)) && s3.chars[(x, y)] == s.chars[(x, y)]);
        if c < w {
            assert(fin.chars.dom().contains((x, y)) == s3.chars.dom().contains((x, y)));
        }
    }
    assert forall|cc: int, rr: int|
        0 <= cc < w && 0 <= rr < h && (2 * rr + 2 < y0 || (2 * rr + 2 == y0 && 4 * cc + 2 < 4 * c + 4))
            implies #[trigger] shows_centre(fin, cc, rr, ' ') by {
        let x = 4 * cc + 2;
        let y = 2 * rr + 2;
        if y == y0 && x >= 4 * c {
            assert(cc == c);
            reveal_strlit("   ");
            assert(shows(fin, s3.col + 1, s3.row, "   "@[1]));
        } else {
            assert(shows_centre(s, cc, rr, ' '));
            assert(s3.chars.dom().contains((x, y)) && s3.chars[(x, y)] == s.chars[(x, y)]);
            if c < w {
                assert(fin.chars.dom().contains((x, y)) == s3.chars.dom().contains((x, y)));
            }
        }
    }
}

proof fn lemma_full_grid_corners(s: Screen, w: int, h: int, r: int, k: int, color: Tone)
    requires
        w * 4 + 4 <= usize::MAX,
        h * 2 + 3 <= usize::MAX,
        0 <= k <= w + 1,
        0 <= r <= h,
        walled_upto(s, w, h, 2 * r + 1, 0),
    ensures
        walled_upto(run(s, full_grid_corners(w, r, color, k)), w, h, 2 * r + 1, 4 * k),
    decreases k,
{
    if k > 0 {
        lemma_full_grid_corners(s, w, h, r, k - 1, color);
        lemma_run_concat(s, full_grid_corners(w, r, color, k - 1), full_grid_corner(w, r, k - 1, color));
        lemma_full_grid_corner(run(s, full_grid_corners(w, r, color, k - 1)), w, h, r, k - 1, color);
    }
}

proof fn lemma_full_grid_sides(s: Screen, w: int, h: int, r: int, k: int, color: Tone)
    requires
        w * 4 + 4 <= usize::MAX,
        h * 2 + 3 <= usize::MAX,
        0 <= k <= w + 1,
        0 <= r < h,
        walled_upto(s, w, h, 2 * r + 2, 0),
    ensures
        walled_upto(run(s, full_grid_sides(w, r, color, k)), w, h, 2 * r + 2, 4 * k),
    decreases k,
{
    if k > 0 {
        lemma_full_grid_sides(s, w, h, r, k - 1, color);
        lemma_run_concat(s, full_grid_sides(w, r, color, k - 1), full_grid_side(w, r, k - 1, color));
        lemma_full_grid_side(run(s, full_grid_sides(w, r, color, k - 1)), w, h, r, k - 1, color);
    }
}

/// A finished row of positions lets the next row begin.
proof fn lemma_next_line(s: Screen, w: int, h: int, y: int, x: int)
    requires
        walled_upto(s, w, h, y, x),
        x > 4 * w,
    ensures
        walled_upto(s, w, h, y + 1, 0),
{
}

proof fn lemma_full_grid_rows(s: Screen, w: int, h: int, k: int, color: Tone)
    requires
        w * 4 + 4 <= usize::MAX,
        h * 2 + 3 <= usize::MAX,
        w >= 0,
        0 <= k <= h + 1,
        walled_upto(s, w, h, 1, 0),
    ensures
        walled_upto(run(s, full_grid_rows(w, h, color, k)), w, h, 2 * k + 1, 0),
    decreases k,
{
    if k > 0 {
        let r = k - 1;
        lemma_full_grid_rows(s, w, h, r, color);
        let s1 = run(s, full_grid_rows(w, h, color, r));
        lemma_run_concat(s, full_grid_rows(w, h, color, r), full_grid_row(w, h, r, color));
        lemma_full_grid_corners(s1, w, h, r, w + 1, color);
        let s2 = run(s1, full_grid_corners(w, r, color, w + 1));
        lemma_next_line(s2, w, h, 2 * r + 1, 4 * (w + 1));
        if r < h {
            lemma_run_concat(s1, full_grid_corners(w, r, color, w + 1), full_grid_sides(w, r, color, w + 1));
            lemma_full_grid_sides(s2, w, h, r, w + 1, color);
            lemma_next_line(run(s2, full_grid_sides(w, r, color, w + 1)), w, h, 2 * r + 2, 4 * (w + 1));
        } else {
            assert(full_grid_row(w, h, r, color) =~= full_grid_corners(w, r, color, w + 1));
            lemma_next_line(s2, w, h, 2 * r + 2, 4 * (w + 1));
        }
    }
}

/// Drawing the fully walled grid shows every wall and a cross at every
/// corner.
proof fn lemma_full_grid_plan(s: Screen, w: int, h: int, color: Tone)
    requires
        w * 4 + 4 <= usize::MAX,
        h * 2 + 3 <= usize::MAX,
        w >= 0,
        h >= 0,
    ensures
        grid_shown(run(s, full_grid_plan(w, h, color)), w, h, Seq::<CarvingStep>::empty()),
        centres_blank(run(s, full_grid_plan(w, h, color)), w, h),
{
    lemma_full_grid_rows(s, w, h, h + 1, color);
    let s1 = run(s, full_grid_rows(w, h, color, h + 1));
    lemma_run_concat(s, full_grid_rows(w, h, color, h + 1), seq![Command::Flush]);
    lemma_run_one(s1, Command::Flush);
}


/// Only the characters matter for what the grid shows.
proof fn lemma_same_chars(s1: Screen, s2: Screen, w: int, h: int, done: Seq<CarvingStep>)
    requires
        s1.chars == s2.chars,
        grid_shown(s1, w, h, done),
    ensures
        grid_shown(s2, w, h, done),
{
    assert forall|c: int, r: int, j: int| 0 <= c < w && 0 <= r <= h && 1 <= j <= 3 implies #[trigger] shows_h(s2, done, c, r, j) by {
        assert(shows_h(s1, done, c, r, j));
    }
    assert forall|c: int, r: int| 0 <= c <= w && 0 <= r < h implies #[trigger] shows_v(s2, done, c, r) by {
        assert(shows_v(s1, done, c, r));
    }
    assert forall|c: int, r: int| 0 <= c <= w && 0 <= r <= h implies #[trigger] shows_corner(s2, w, h, done, c, r) by {
        assert(shows_corner(s1, w, h, done, c, r));
    }
}

/// Text written where the grid has no wall or corner leaves the grid as it is.
proof fn lemma_text_keeps(s: Screen, t: Seq<char>, w: int, h: int, done: Seq<CarvingStep>)
    requires
        no_newline(t),
        grid_shown(s, w, h, done),
        forall|i: int| 0 <= i < t.len() ==> !#[trigger] is_slot(w, h, s.col + i, s.row),
    ensures
        grid_shown(put_text(s, t), w, h, done),
        put_text(s, t).row == s.row,
        put_text(s, t).col == s.col + t.len(),
{
    lemma_put_text(s, t);
    let f = put_text(s, t);
    assert forall|c: int, r: int, j: int| 0 <= c < w && 0 <= r <= h && 1 <= j <= 3 implies #[trigger] shows_h(f, done, c, r, j) by {
        let x = 4 * c + j;
        let y = 2 * r + 1;
        assert(shows_h(s, done, c, r, j));
        if y == s.row && s.col <= x < s.col + t.len() {
            assert(is_slot(w, h, s.col + (x - s.col), s.row));
        }
        assert(f.chars.dom().contains((x, y)) == s.chars.dom().contains((x, y)));
    }
    assert forall|c: int, r: int| 0 <= c <= w && 0 <= r < h implies #[trigger] shows_v(f, done, c, r) by {
        let x = 4 * c;
        let y = 2 * r + 2;
        assert(shows_v(s, done, c, r));
        if y == s.row && s.col <= x < s.col + t.len() {
            assert(is_slot(w, h, s.col + (x - s.col), s.row));
        }
        assert(f.chars.dom().contains((x, y)) == s.chars.dom().contains((x, y)));
    }
    assert forall|c: int, r: int| 0 <= c <= w && 0 <= r <= h implies #[trigger] shows_corner(f, w, h, done, c, r) by {
        let x = 4 * c;
        let y = 2 * r + 1;
        assert(shows_corner(s, w, h, done, c, r));
        if y == s.row && s.col <= x < s.col + t.len() {
            assert(is_slot(w, h, s.col + (x - s.col), s.row));
        }
        assert(f.chars.dom().contains((x, y)) == s.chars.dom().contains((x, y)));
    }
}

/// A command that keeps the cursor on its row.
pub open spec fn row_bound(c: Command) -> bool {
    match c {
        Command::Text(t) => no_newline(t@),
        Command::Char(ch) => ch != '\n',
        Command::MoveTo(_, _) => false,
        Command::ClearAll => false,
        Command::EnterAlternateScreen => false,
        _ => true,
    }
}

/// Commands that stay on a row outside the grid leave the grid as it is.
proof fn lemma_row_keeps(s: Screen, cmds: Seq<Command>, w: int, h: int, done: Seq<CarvingStep>)
    requires
        forall|i: int| 0 <= i < cmds.len() ==> row_bound(#[trigger] cmds[i]),
        s.row < 1 || s.row > 2 * h + 1,
        grid_shown(s, w, h, done),
    ensures
        grid_shown(run(s, cmds), w, h, done),
        run(s, cmds).row == s.row,
    decreases cmds.len(),
{
    if cmds.len() > 0 {
        let c = cmds[0];
        assert(row_bound(c));
        let s1 = apply(s, c);
        match c {
            Command::Text(t) => {
                lemma_text_keeps(s, t@, w, h, done);
            },
            Command::Number(n) => {
                lemma_decimal_no_newline(n as nat);
                lemma_text_keeps(s, decimal(n as nat), w, h, done);
            },
            Command::Char(ch) => {
                assert(put_char(s, ch) == put_text(s, seq![ch])) by {
                    reveal_with_fuel(put_text, 2);
                    assert(seq![ch].drop_first() =~= Seq::<char>::empty());
                }
                lemma_text_keeps(s, seq![ch], w, h, done);
            },
            _ => {},
        }
        let rest = cmds.drop_first();
        assert forall|i: int| 0 <= i < rest.len() implies row_bound(#[trigger] rest[i]) by {
            assert(rest[i] == cmds[i + 1]);
        }
        lemma_row_keeps(s1, rest, w, h, done);
    }
}

/// The title line of the animation leaves the grid as it is.
proof fn lemma_title_keeps(s: Screen, w: int, h: int, done: Seq<CarvingStep>, color: Tone, tail: &'static str)
    requires
        no_newline(tail@),
        h >= 0,
        grid_shown(s, w, h, done),
    ensures
        grid_shown(run(s, anim_title(w, h, color, tail)), w, h, done),
{
    let p = anim_title(w, h, color, tail);
    let rest = p.drop_first();
    assert(p =~= seq![p[0]] + rest);
    lemma_run_concat(s, seq![p[0]], rest);
    lemma_run_one(s, p[0]);
    reveal_strlit(" fledge maze \u{2014} ");
    reveal_strlit("\u{d7}");
    assert forall|i: int| 0 <= i < rest.len() implies row_bound(#[trigger] rest[i]) by {
        assert(rest[i] == p[i + 1]);
    }
    lemma_same_chars(s, apply(s, p[0]), w, h, done);
    lemma_row_keeps(apply(s, p[0]), rest, w, h, done);
}


/// Three characters inside the cell at column `x`, row `y` leave the grid as
/// it is.
proof fn lemma_cell_text(s: Screen, x: int, y: int, t: Seq<char>, w: int, h: int, done: Seq<CarvingStep>)
    requires
        s.col == 4 * x + 1,
        s.row == 2 * y + 2,
        t.len() == 3,
        no_newline(t),
        grid_shown(s, w, h, done),
    ensures
        grid_shown(put_text(s, t), w, h, done),
{
    assert forall|i: int| 0 <= i < t.len() implies !#[trigger] is_slot(w, h, s.col + i, s.row) by {
        assert((4 * x + 1 + i) % 4 != 0);
        assert((2 * y + 2) % 2 == 0);
    }
    lemma_text_keeps(s, t, w, h, done);
}

proof fn lemma_explore_piece(s: Screen, w: int, h: int, done: Seq<CarvingStep>, sol: Seq<bool>, e: (usize, usize), delay: u64)
    requires
        e.0 * 4 + 1 <= usize::MAX,
        e.1 * 2 + 2 <= usize::MAX,
        grid_shown(s, w, h, done),
    ensures
        grid_shown(run(s, explore_piece(w, sol, e, delay)), w, h, done),
{
    let p = explore_piece(w, sol, e, delay);
    if !sol[e.1 * w + e.0] {
        let s1 = Screen { col: e.0 * 4 + 1, row: e.1 * 2 + 2, chars: s.chars };
        reveal_strlit(" \u{b7} ");
        assert(run(s, p) == put_text(s1, " \u{b7} "@)) by {
            reveal_with_fuel(run, 6);
            assert(apply(s, p[0]) == s1);
            assert(p.drop_first().drop_first().drop_first() =~= seq![Command::Flush, Command::Sleep(delay)]);
        }
        lemma_same_chars(s, s1, w, h, done);
        lemma_cell_text(s1, e.0 as int, e.1 as int, " \u{b7} "@, w, h, done);
    } else {
        assert(run(s, p) == s);
    }
}

proof fn lemma_explore_plan(s: Screen, w: int, h: int, done: Seq<CarvingStep>, sol: Seq<bool>, es: Seq<(usize, usize)>, delay: u64, k: int)
    requires
        0 <= k <= es.len(),
        forall|i: int| 0 <= i < es.len() ==> (#[trigger] es[i]).0 * 4 + 1 <= usize::MAX && es[i].1 * 2 + 2 <= usize::MAX,
        grid_shown(s, w, h, done),
    ensures
        grid_shown(run(s, explore_plan(w, sol, es, delay, k)), w, h, done),
    decreases k,
{
    if k > 0 {
        lemma_explore_plan(s, w, h, done, sol, es, delay, k - 1);
        lemma_run_concat(s, explore_plan(w, sol, es, delay, k - 1), explore_piece(w, sol, es[k - 1], delay));
        lemma_explore_piece(run(s, explore_plan(w, sol, es, delay, k - 1)), w, h, done, sol, es[k - 1], delay);
    }
}

proof fn lemma_path_piece(s: Screen, w: int, h: int, done: Seq<CarvingStep>, sol: Seq<bool>, r: int, c: int)
    requires
        0 <= c < w,
        0 <= r < h,
        w * 4 + 4 <= usize::MAX,
        h * 2 + 3 <= usize::MAX,
        grid_shown(s, w, h, done),
    ensures
        grid_shown(run(s, path_piece(w, h, sol, r, c)), w, h, done),
{
    let p = path_piece(w, h, sol, r, c);
    if sol[crate::grid::idx(w, c, r)] {
        let s1 = Screen { col: c * 4 + 1, row: r * 2 + 2, chars: s.chars };
        let t: &'static str = if c == 0 && r == 0 {
            " S "
        } else if c == w - 1 && r == h - 1 {
            " E "
        } else {
            " \u{25cf} "
        };
        reveal_strlit(" S ");
        reveal_strlit(" E ");
        reveal_strlit(" \u{25cf} ");
        assert(run(s, p) == put_text(s1, t@)) by {
            reveal_with_fuel(run, 6);
            assert(apply(s, p[0]) == s1);
            assert(p.drop_first().drop_first().drop_first().drop_first() =~= seq![Command::ResetAttributes]);
        }
        lemma_same_chars(s, s1, w, h, done);
        lemma_cell_text(s1, c, r, t@, w, h, done);
    } else {
        assert(run(s, p) == s);
    }
}

proof fn lemma_path_pieces(s: Screen, w: int, h: int, done: Seq<CarvingStep>, sol: Seq<bool>, r: int, k: int)
    requires
        0 <= k <= w,
        0 <= r < h,
        w * 4 + 4 <= usize::MAX,
        h * 2 + 3 <= usize::MAX,
        grid_shown(s, w, h, done),
    ensures
        grid_shown(run(s, path_pieces(w, h, sol, r, k)), w, h, done),
    decreases k,
{
    if k > 0 {
        lemma_path_pieces(s, w, h, done, sol, r, k - 1);
        lemma_run_concat(s, path_pieces(w, h, sol, r, k - 1), path_piece(w, h, sol, r, k - 1));
        lemma_path_piece(run(s, path_pieces(w, h, sol, r, k - 1)), w, h, done, sol, r, k - 1);
    }
}

proof fn lemma_path_rows(s: Screen, w: int, h: int, done: Seq<CarvingStep>, sol: Seq<bool>, k: int)
    requires
        0 <= k <= h,
        w >= 0,
        w * 4 + 4 <= usize::MAX,
        h * 2 + 3 <= usize::MAX,
        grid_shown(s, w, h, done),
    ensures
        grid_shown(run(s, path_rows(w, h, sol, k)), w, h, done),
    decreases k,
{
    if k > 0 {
        lemma_path_rows(s, w, h, done, sol, k - 1);
        lemma_run_concat(s, path_rows(w, h, sol, k - 1), path_pieces(w, h, sol, k - 1, w));
        lemma_path_pieces(run(s, path_rows(w, h, sol, k - 1)), w, h, done, sol, k - 1, w);
    }
}


proof fn lemma_opened_push(d: Seq<CarvingStep>, st: CarvingStep)
    ensures
        forall|c: int, r: int| #[trigger] opened_h(d.push(st), c, r) == (opened_h(d, c, r) || opens_h(st, c, r)),
        forall|c: int, r: int| #[trigger] opened_v(d.push(st), c, r) == (opened_v(d, c, r) || opens_v(st, c, r)),
{
    let d2 = d.push(st);
    assert(d2[d.len() as int] == st);
    assert forall|c: int, r: int| #[trigger] opened_h(d2, c, r) == (opened_h(d, c, r) || opens_h(st, c, r)) by {
        if opened_h(d2, c, r) && !opens_h(st, c, r) {
            let j = choose|j: int| 0 <= j < d2.len() && #[trigger] opens_h(d2[j], c, r);
            assert(d2[j] == d[j]);
        }
        if opened_h(d, c, r) {
            let j = choose|j: int| 0 <= j < d.len() && #[trigger] opens_h(d[j], c, r);
            assert(d2[j] == d[j]);
        }
    }
    assert forall|c: int, r: int| #[trigger] opened_v(d2, c, r) == (opened_v(d, c, r) || opens_v(st, c, r)) by {
        if opened_v(d2, c, r) && !opens_v(st, c, r) {
            let j = choose|j: int| 0 <= j < d2.len() && #[trigger] opens_v(d2[j], c, r);
            assert(d2[j] == d[j]);
        }
        if opened_v(d, c, r) {
            let j = choose|j: int| 0 <= j < d.len() && #[trigger] opens_v(d[j], c, r);
            assert(d2[j] == d[j]);
        }
    }
}

proof fn lemma_corner_redraw(s: Screen, col: int, row: int, ch: char, color: Tone)
    requires
        0 <= col * 4 <= usize::MAX,
        0 <= row * 2 + 1 <= usize::MAX,
    ensures
        run(s, corner_redraw(col, row, ch, color)) == put_char(Screen { col: col * 4, row: row * 2 + 1, chars: s.chars }, ch),
{
    reveal_with_fuel(run, 4);
    let p = corner_redraw(col, row, ch, color);
    assert(p.drop_first().drop_first().drop_first() =~= Seq::<Command>::empty());
}

/// Opening horizontal wall `(wx, wy)` on the screen: blank the wall and
/// redraw its two corners.
proof fn lemma_open_h(s: Screen, w: int, h: int, d0: Seq<CarvingStep>, st: CarvingStep)
    requires
        st.wall_kind == WallKind::H,
        st.wall_pos.0 < w,
        st.wall_pos.1 <= h,
        w * 4 + 4 <= usize::MAX,
        h * 2 + 3 <= usize::MAX,
        grid_shown(s, w, h, d0),
    ensures
        ({
            let d1 = d0.push(st);
            let wx = st.wall_pos.0 as int;
            let wy = st.wall_pos.1 as int;
            grid_shown(
                run(
                    s,
                    seq![
                        Command::MoveTo((wx * 4 + 1) as usize, (wy * 2 + 1) as usize),
                        Command::SetColor(Tone::Cyan),
                        Command::Text("   "),
                    ] + corner_redraw(wx, wy, carved_corner(w, h, d1, wx, wy), Tone::Cyan) + corner_redraw(
                        wx + 1,
                        wy,
                        carved_corner(w, h, d1, wx + 1, wy),
                        Tone::Cyan,
                    ),
                ),
                w,
                h,
                d1,
            )
        }),
        ({
            let d1 = d0.push(st);
            let wx = st.wall_pos.0 as int;
            let wy = st.wall_pos.1 as int;
            let f = run(
                    s,
                    seq![
                        Command::MoveTo((wx * 4 + 1) as usize, (wy * 2 + 1) as usize),
                        Command::SetColor(Tone::Cyan),
                        Command::Text("   "),
                    ] + corner_redraw(wx, wy, carved_corner(w, h, d1, wx, wy), Tone::Cyan) + corner_redraw(
                        wx + 1,
                        wy,
                        carved_corner(w, h, d1, wx + 1, wy),
                        Tone::Cyan,
                    ),
                );
            forall|x: int, y: int|
                #![trigger f.chars.dom().contains((x, y))]
                y % 2 == 0 && x % 4 != 0 ==> f.chars.dom().contains((x, y)) == s.chars.dom().contains((x, y))
                    && (s.chars.dom().contains((x, y)) ==> f.chars[(x, y)] == s.chars[(x, y)])
        }),
{
    let d1 = d0.push(st);
    let wx = st.wall_pos.0 as int;
    let wy = st.wall_pos.1 as int;
    lemma_opened_push(d0, st);
    let a = seq![
        Command::MoveTo((wx * 4 + 1) as usize, (wy * 2 + 1) as usize),
        Command::SetColor(Tone::Cyan),
        Command::Text("   "),
    ];
    let g1 = carved_corner(w, h, d1, wx, wy);
    let g2 = carved_corner(w, h, d1, wx + 1, wy);
    let b = corner_redraw(wx, wy, g1, Tone::Cyan);
    let c2 = corner_redraw(wx + 1, wy, g2, Tone::Cyan);
    let s1 = Screen { col: wx * 4 + 1, row: wy * 2 + 1, chars: s.chars };
    reveal_strlit("   ");
    let s2 = put_text(s1, "   "@);
    assert(run(s, a) == s2) by {
        reveal_with_fuel(run, 4);
        assert(a.drop_first().drop_first().drop_first() =~= Seq::<Command>::empty());
    }
    lemma_put_text(s1, "   "@);
    let s3 = put_char(Screen { col: wx * 4, row: wy * 2 + 1, chars: s2.chars }, g1);
    let s4 = put_char(Screen { col: (wx + 1) * 4, row: wy * 2 + 1, chars: s3.chars }, g2);
    lemma_corner_redraw(s2, wx, wy, g1, Tone::Cyan);
    lemma_corner_redraw(s3, wx + 1, wy, g2, Tone::Cyan);
    lemma_run_concat(s, a, b);
    lemma_run_concat(s, a + b, c2);
    assert(g1 != '\n' && g2 != '\n');
    let f = s4;
    assert(run(s, a + b + c2) == f);
    assert forall|c: int, r: int, j: int| 0 <= c < w && 0 <= r <= h && 1 <= j <= 3 implies #[trigger] shows_h(f, d1, c, r, j) by {
        let x = 4 * c + j;
        let y = 2 * r + 1;
        if c == wx && r == wy {
            assert(shows(s2, s1.col + (j - 1), s1.row, "   "@[j - 1]));
            assert(opens_h(st, c, r));
        } else {
            assert(shows_h(s, d0, c, r, j));
            if y == s1.row {
                assert(!(s1.col <= x < s1.col + 3));
            }
            assert(s2.chars.dom().contains((x, y)) == s.chars.dom().contains((x, y)));
        }
    }
    assert forall|c: int, r: int| 0 <= c <= w && 0 <= r < h implies #[trigger] shows_v(f, d1, c, r) by {
        let x = 4 * c;
        let y = 2 * r + 2;
        assert(shows_v(s, d0, c, r));
        assert(s2.chars.dom().contains((x, y)) == s.chars.dom().contains((x, y)));
    }
    assert forall|c: int, r: int| 0 <= c <= w && 0 <= r <= h implies #[trigger] shows_corner(f, w, h, d1, c, r) by {
        let x = 4 * c;
        let y = 2 * r + 1;
        if c == wx && r == wy {
            assert(opens_h(st, c, r));
        } else if c == wx + 1 && r == wy {
            assert(opens_h(st, c - 1, r));
        } else {
            assert(shows_corner(s, w, h, d0, c, r));
            if y == s1.row {
                assert(!(s1.col <= x < s1.col + 3));
            }
            assert(s2.chars.dom().contains((x, y)) == s.chars.dom().contains((x, y)));
            assert(!opens_h(st, c, r) && !opens_h(st, c - 1, r));
            assert(opened_h(d1, c, r) == opened_h(d0, c, r));
            assert(opened_h(d1, c - 1, r) == opened_h(d0, c - 1, r));
            assert(opened_v(d1, c, r) == opened_v(d0, c, r));
            assert(opened_v(d1, c, r - 1) == opened_v(d0, c, r - 1));
        }
    }
}


/// Opening vertical wall `(wx, wy)` on the screen: blank the wall and
/// redraw its two corners.
proof fn lemma_open_v(s: Screen, w: int, h: int, d0: Seq<CarvingStep>, st: CarvingStep)
    requires
        st.wall_kind == WallKind::V,
        st.wall_pos.0 <= w,
        st.wall_pos.1 < h,
        w * 4 + 4 <= usize::MAX,
        h * 2 + 3 <= usize::MAX,
        grid_shown(s, w, h, d0),
    ensures
        ({
            let d1 = d0.push(st);
            let wx = st.wall_pos.0 as int;
            let wy = st.wall_pos.1 as int;
            grid_shown(
                run(
                    s,
                    seq![
                        Command::MoveTo((wx * 4) as usize, (wy * 2 + 2) as usize),
                        Command::SetColor(Tone::Cyan),
                        Command::Char(' '),
                    ] + corner_redraw(wx, wy, carved_corner(w, h, d1, wx, wy), Tone::Cyan) + corner_redraw(
                        wx,
                        wy + 1,
                        carved_corner(w, h, d1, wx, wy + 1),
                        Tone::Cyan,
                    ),
                ),
                w,
                h,
                d1,
            )
        }),
        ({
            let d1 = d0.push(st);
            let wx = st.wall_pos.0 as int;
            let wy = st.wall_pos.1 as int;
            let f = run(
                    s,
                    seq![
                        Command::MoveTo((wx * 4) as usize, (wy * 2 + 2) as usize),
                        Command::SetColor(Tone::Cyan),
                        Command::Char(' '),
                    ] + corner_redraw(wx, wy, carved_corner(w, h, d1, wx, wy), Tone::Cyan) + corner_redraw(
                        wx,
                        wy + 1,
                        carved_corner(w, h, d1, wx, wy + 1),
                        Tone::Cyan,
                    ),
                );
            forall|x: int, y: int|
                #![trigger f.chars.dom().contains((x, y))]
                y % 2 == 0 && x % 4 != 0 ==> f.chars.dom().contains((x, y)) == s.chars.dom().contains((x, y))
                    && (s.chars.dom().contains((x, y)) ==> f.chars[(x, y)] == s.chars[(x, y)])
        }),
{
    let d1 = d0.push(st);
    let wx = st.wall_pos.0 as int;
    let wy = st.wall_pos.1 as int;
    lemma_opened_push(d0, st);
    let a = seq![
        Command::MoveTo((wx * 4) as usize, (wy * 2 + 2) as usize),
        Command::SetColor(Tone::Cyan),
        Command::Char(' '),
    ];
    let g1 = carved_corner(w, h, d1, wx, wy);
    let g2 = carved_corner(w, h, d1, wx, wy + 1);
    let b = corner_redraw(wx, wy, g1, Tone::Cyan);
    let c2 = corner_redraw(wx, wy + 1, g2, Tone::Cyan);
    let s1 = Screen { col: wx * 4, row: wy * 2 + 2, chars: s.chars };
    let s2 = put_char(s1, ' ');
    assert(run(s, a) == s2) by {
        reveal_with_fuel(run, 4);
        assert(a.drop_first().drop_first().drop_first() =~= Seq::<Command>::empty());
    }
    let s3 = put_char(Screen { col: wx * 4, row: wy * 2 + 1, chars: s2.chars }, g1);
    let s4 = put_char(Screen { col: wx * 4, row: (wy + 1) * 2 + 1, chars: s3.chars }, g2);
    lemma_corner_redraw(s2, wx, wy, g1, Tone::Cyan);
    lemma_corner_redraw(s3, wx, wy + 1, g2, Tone::Cyan);
    lemma_run_concat(s, a, b);
    lemma_run_concat(s, a + b, c2);
    assert(g1 != '\n' && g2 != '\n');
    let f = s4;
    assert(run(s, a + b + c2) == f);
    assert forall|c: int, r: int, j: int| 0 <= c < w && 0 <= r <= h && 1 <= j <= 3 implies #[trigger] shows_h(f, d1, c, r, j) by {
        assert(shows_h(s, d0, c, r, j));
        assert(!opens_h(st, c, r));
    }
    assert forall|c: int, r: int| 0 <= c <= w && 0 <= r < h implies #[trigger] shows_v(f, d1, c, r) by {
        if c == wx && r == wy {
            assert(opens_v(st, c, r));
        } else {
            assert(shows_v(s, d0, c, r));
            assert(!opens_v(st, c, r));
        }
    }
    assert forall|c: int, r: int| 0 <= c <= w && 0 <= r <= h implies #[trigger] shows_corner(f, w, h, d1, c, r) by {
        if c == wx && r == wy {
            assert(opens_v(st, c, r));
        } else if c == wx && r == wy + 1 {
            assert(opens_v(st, c, r - 1));
        } else {
            assert(shows_corner(s, w, h, d0, c, r));
            assert(!opens_v(st, c, r) && !opens_v(st, c, r - 1));
            assert(opened_h(d1, c, r) == opened_h(d0, c, r));
            assert(opened_h(d1, c - 1, r) == opened_h(d0, c - 1, r));
            assert(opened_v(d1, c, r) == opened_v(d0, c, r));
            assert(opened_v(d1, c, r - 1) == opened_v(d0, c, r - 1));
        }
    }
}


/// Showing carving step `k` turns the picture of the first `k` steps into
/// that of the first `k + 1`.
proof fn lemma_carve_step(s: Screen, w: int, h: int, steps: Seq<CarvingStep>, k: int, delay: u64)
    requires
        0 <= k < steps.len(),
        w * 4 + 4 <= usize::MAX,
        h * 2 + 3 <= usize::MAX,
        drawable_step(w, h, steps[k]),
        grid_shown(s, w, h, steps.take(k)),
    ensures
        grid_shown(run(s, carve_step_plan(w, h, steps, k, delay)), w, h, steps.take(k + 1)),
{
    let st = steps[k];
    let d0 = steps.take(k);
    let d1 = steps.take(k + 1);
    assert(d1 =~= d0.push(st));
    let tc = (st.cell.0 * 4 + 1) as usize;
    let tr = (st.cell.1 * 2 + 2) as usize;
    let wx = st.wall_pos.0 as int;
    let wy = st.wall_pos.1 as int;
    let p1 = seq![
        Command::MoveTo(tc, tr),
        Command::SetColor(Tone::Yellow),
        Command::Bold,
        Command::Text(" \u{25c6} "),
        Command::ResetAttributes,
    ];
    let p2 = match st.wall_kind {
        WallKind::H => seq![
            Command::MoveTo((wx * 4 + 1) as usize, (wy * 2 + 1) as usize),
            Command::SetColor(Tone::Cyan),
            Command::Text("   "),
        ] + corner_redraw(wx, wy, carved_corner(w, h, d1, wx, wy), Tone::Cyan) + corner_redraw(
            wx + 1,
            wy,
            carved_corner(w, h, d1, wx + 1, wy),
            Tone::Cyan,
        ),
        WallKind::V => seq![
            Command::MoveTo((wx * 4) as usize, (wy * 2 + 2) as usize),
            Command::SetColor(Tone::Cyan),
            Command::Char(' '),
        ] + corner_redraw(wx, wy, carved_corner(w, h, d1, wx, wy), Tone::Cyan) + corner_redraw(
            wx,
            wy + 1,
            carved_corner(w, h, d1, wx, wy + 1),
            Tone::Cyan,
        ),
    };
    let p3 = seq![
        Command::Flush,
        Command::Sleep(delay),
        Command::MoveTo(tc, tr),
        Command::ResetColor,
        Command::Text("   "),
    ];
    assert(carve_step_plan(w, h, steps, k, delay) == p1 + p2 + p3);
    lemma_run_concat(s, p1, p2);
    lemma_run_concat(s, p1 + p2, p3);
    // the marker
    reveal_strlit(" \u{25c6} ");
    reveal_strlit("   ");
    let m1 = Screen { col: tc as int, row: tr as int, chars: s.chars };
    assert(run(s, p1) == put_text(m1, " \u{25c6} "@)) by {
        reveal_with_fuel(run, 6);
        assert(p1.drop_first().drop_first().drop_first().drop_first() =~= seq![Command::ResetAttributes]);
    }
    lemma_same_chars(s, m1, w, h, d0);
    lemma_cell_text(m1, st.cell.0 as int, st.cell.1 as int, " \u{25c6} "@, w, h, d0);
    let sa = run(s, p1);
    // the wall
    match st.wall_kind {
        WallKind::H => {
            lemma_open_h(sa, w, h, d0, st);
        },
        WallKind::V => {
            lemma_open_v(sa, w, h, d0, st);
        },
    }
    let sb = run(sa, p2);
    // clearing the marker
    let m2 = Screen { col: tc as int, row: tr as int, chars: sb.chars };
    assert(run(sb, p3) == put_text(m2, "   "@)) by {
        reveal_with_fuel(run, 6);
        assert(p3.drop_first().drop_first().drop_first().drop_first().drop_first() =~= Seq::<Command>::empty());
    }
    lemma_same_chars(sb, m2, w, h, d1);
    lemma_cell_text(m2, st.cell.0 as int, st.cell.1 as int, "   "@, w, h, d1);
}

proof fn lemma_carve_step_centres(s: Screen, w: int, h: int, steps: Seq<CarvingStep>, k: int, delay: u64)
    requires
        0 <= k < steps.len(),
        w * 4 + 4 <= usize::MAX,
        h * 2 + 3 <= usize::MAX,
        drawable_step(w, h, steps[k]),
        grid_shown(s, w, h, steps.take(k)),
        centres_blank(s, w, h),
    ensures
        centres_blank(run(s, carve_step_plan(w, h, steps, k, delay)), w, h),
{
    let st = steps[k];
    let d0 = steps.take(k);
    let d1 = steps.take(k + 1);
    assert(d1 =~= d0.push(st));
    let tc = (st.cell.0 * 4 + 1) as usize;
    let tr = (st.cell.1 * 2 + 2) as usize;
    let wx = st.wall_pos.0 as int;
    let wy = st.wall_pos.1 as int;
    let p1 = seq![
        Command::MoveTo(tc, tr),
        Command::SetColor(Tone::Yellow),
        Command::Bold,
        Command::Text(" \u{25c6} "),
        Command::ResetAttributes,
    ];
    let p2 = match st.wall_kind {
        WallKind::H => seq![
            Command::MoveTo((wx * 4 + 1) as usize, (wy * 2 + 1) as usize),
            Command::SetColor(Tone::Cyan),
            Command::Text("   "),
        ] + corner_redraw(wx, wy, carved_corner(w, h, d1, wx, wy), Tone::Cyan) + corner_redraw(
            wx + 1,
            wy,
            carved_corner(w, h, d1, wx + 1, wy),
            Tone::Cyan,
        ),
        WallKind::V => seq![
            Command::MoveTo((wx * 4) as usize, (wy * 2 + 2) as usize),
            Command::SetColor(Tone::Cyan),
            Command::Char(' '),
        ] + corner_redraw(wx, wy, carved_corner(w, h, d1, wx, wy), Tone::Cyan) + corner_redraw(
            wx,
            wy + 1,
            carved_corner(w, h, d1, wx, wy + 1),
            Tone::Cyan,
        ),
    };
    let p3 = seq![
        Command::Flush,
        Command::Sleep(delay),
        Command::MoveTo(tc, tr),
        Command::ResetColor,
        Command::Text("   "),
    ];
    assert(carve_step_plan(w, h, steps, k, delay) == p1 + p2 + p3);
    lemma_run_concat(s, p1, p2);
    lemma_run_concat(s, p1 + p2, p3);
    // the marker
    reveal_strlit(" \u{25c6} ");
    reveal_strlit("   ");
    let m1 = Screen { col: tc as int, row: tr as int, chars: s.chars };
    assert(run(s, p1) == put_text(m1, " \u{25c6} "@)) by {
        reveal_with_fuel(run, 6);
        assert(p1.drop_first().drop_first().drop_first().drop_first() =~= seq![Command::ResetAttributes]);
    }
    lemma_same_chars(s, m1, w, h, d0);
    lemma_cell_text(m1, st.cell.0 as int, st.cell.1 as int, " \u{25c6} "@, w, h, d0);
    let sa = run(s, p1);
    let cx = st.cell.0 as int;
    let cy = st.cell.1 as int;
    lemma_put_text(m1, " \u{25c6} "@);
    match st.wall_kind {
        WallKind::H => {
            lemma_open_h(sa, w, h, d0, st);
        },
        WallKind::V => {
            lemma_open_v(sa, w, h, d0, st);
        },
    }
    let sb = run(sa, p2);
    let m2 = Screen { col: tc as int, row: tr as int, chars: sb.chars };
    assert(run(sb, p3) == put_text(m2, "   "@)) by {
        reveal_with_fuel(run, 6);
        assert(p3.drop_first().drop_first().drop_first().drop_first().drop_first() =~= Seq::<Command>::empty());
    }
    lemma_put_text(m2, "   "@);
    let f = put_text(m2, "   "@);
    assert forall|c: int, r: int| 0 <= c < w && 0 <= r < h implies #[trigger] shows_centre(f, c, r, ' ') by {
        let x = 4 * c + 2;
        let y = 2 * r + 2;
        if y == m2.row && m2.col <= x < m2.col + 3 {
            assert(shows(f, m2.col + (x - m2.col), m2.row, "   "@[x - m2.col]));
        } else {
            assert(shows_centre(s, c, r, ' '));
            if y == m1.row {
                assert(!(m1.col <= x < m1.col + 3));
            }
            assert(sa.chars.dom().contains((x, y)) == s.chars.dom().contains((x, y)));
            assert(sa.chars[(x, y)] == s.chars[(x, y)]);
            assert(y % 2 == 0 && x % 4 != 0);
            assert(sb.chars.dom().contains((x, y)) == sa.chars.dom().contains((x, y)));
            assert(sb.chars[(x, y)] == sa.chars[(x, y)]);
            assert(f.chars.dom().contains((x, y)) == sb.chars.dom().contains((x, y)));
        }
    }
}

proof fn lemma_carve_plan(s: Screen, w: int, h: int, steps: Seq<CarvingStep>, delay: u64, k: int)
    requires
        0 <= k <= steps.len(),
        w * 4 + 4 <= usize::MAX,
        h * 2 + 3 <= usize::MAX,
        forall|i: int| 0 <= i < steps.len() ==> drawable_step(w, h, #[trigger] steps[i]),
        grid_shown(s, w, h, Seq::<CarvingStep>::empty()),
    ensures
        grid_shown(run(s, carve_plan(w, h, steps, delay, k)), w, h, steps.take(k)),
    decreases k,
{
    if k == 0 {
        assert(steps.take(0) =~= Seq::<CarvingStep>::empty());
    } else {
        lemma_carve_plan(s, w, h, steps, delay, k - 1);
        lemma_run_concat(s, carve_plan(w, h, steps, delay, k - 1), carve_step_plan(w, h, steps, k - 1, delay));
        lemma_carve_step(run(s, carve_plan(w, h, steps, delay, k - 1)), w, h, steps, k - 1, delay);
    }
}


/// A command that writes nothing and leaves the cursor where it is.
pub open spec fn quiet(c: Command) -> bool {
    match c {
        Command::Text(_) => false,
        Command::Char(_) => false,
        Command::Number(_) => false,
        Command::MoveTo(_, _) => false,
        Command::ClearAll => false,
        Command::EnterAlternateScreen => false,
        _ => true,
    }
}

proof fn lemma_quiet(s: Screen, cmds: Seq<Command>)
    requires
        forall|i: int| 0 <= i < cmds.len() ==> quiet(#[trigger] cmds[i]),
    ensures
        run(s, cmds) == s,
    decreases cmds.len(),
{
    if cmds.len() > 0 {
        assert(quiet(cmds[0]));
        let rest = cmds.drop_first();
        assert forall|i: int| 0 <= i < rest.len() implies quiet(#[trigger] rest[i]) by {
            assert(rest[i] == cmds[i + 1]);
        }
        lemma_quiet(s, rest);
    }
}

/// What the end of the animation writes before it waits for a key (the
/// final title and the exit hint below the grid) leaves the grid as it is.
proof fn lemma_finish_keeps(s: Screen, w: int, h: int, done: Seq<CarvingStep>, count: nat)
    requires
        h >= 0,
        h * 2 + 3 <= usize::MAX,
        grid_shown(s, w, h, done),
    ensures
        grid_shown(run(s, anim_finish(w, h, count).take(17)), w, h, done),
{
    let fin = anim_finish(w, h, count).take(17);
    let a = fin.subrange(1, 12);
    let b = fin.subrange(13, 17);
    assert(fin =~= seq![fin[0]] + a + seq![fin[12]] + b);
    reveal_strlit(" fledge maze \u{2014} ");
    reveal_strlit("\u{d7}");
    reveal_strlit(" \u{2014} solved! (");
    reveal_strlit(" steps)   ");
    reveal_strlit("Press any key to exit...");
    lemma_run_concat(s, seq![fin[0]] + a + seq![fin[12]], b);
    lemma_run_concat(s, seq![fin[0]] + a, seq![fin[12]]);
    lemma_run_concat(s, seq![fin[0]], a);
    lemma_run_one(s, fin[0]);
    let s1 = apply(s, fin[0]);
    lemma_same_chars(s, s1, w, h, done);
    assert forall|i: int| 0 <= i < a.len() implies row_bound(#[trigger] a[i]) by {
        assert(a[i] == fin[i + 1]);
    }
    lemma_row_keeps(s1, a, w, h, done);
    let s2 = run(s1, a);
    lemma_run_one(s2, fin[12]);
    let s3 = apply(s2, fin[12]);
    lemma_same_chars(s2, s3, w, h, done);
    assert(s3.row == h * 2 + 3);
    assert forall|i: int| 0 <= i < b.len() implies row_bound(#[trigger] b[i]) by {
        assert(b[i] == fin[i + 13]);
    }
    lemma_row_keeps(s3, b, w, h, done);
}

/// Some wall that meets corner `(c, r)` of `m` is open.
pub open spec fn corner_has_open_wall(m: Maze, c: int, r: int) -> bool {
    ||| (c > 0 && !m.hw(c - 1, r))
    ||| (c < m.w() && !m.hw(c, r))
    ||| (r > 0 && !m.vw(c, r - 1))
    ||| (r < m.h() && !m.vw(c, r))
}

/// The screen that the animation of carving `m` out of the fully walled
/// `m0` and of solving it leaves while it waits for a key shows `m`: on row
/// `2r + 1`, columns `4c + 1` to `4c + 3` hold `───` where horizontal wall
/// `(c, r)` stands and blanks where it is open; on row `2r + 2`, column `4c`
/// holds `│` where vertical wall `(c, r)` stands and a blank where it is
/// open; and on row `2r + 1`, column `4c` holds the box-drawing character
/// of corner `(c, r)` when a wall meeting there is open, and the full cross
/// of the first picture otherwise. Whatever was on the screen before does
/// not matter.
pub proof fn lemma_animation_shows_maze(
    s: Screen,
    m0: Maze,
    m: Maze,
    steps: Seq<CarvingStep>,
    sol: Seq<bool>,
    es: Seq<(usize, usize)>,
)
    requires
        forall|c: int, r: int| 0 <= c < m0.w() && 0 <= r <= m0.h() ==> #[trigger] m0.hw(c, r),
        forall|c: int, r: int| 0 <= c <= m0.w() && 0 <= r < m0.h() ==> #[trigger] m0.vw(c, r),
        m.wf(),
        carved_from(m0, m, steps),
        m.w() * 4 + 4 <= usize::MAX,
        m.h() * 2 + 3 <= usize::MAX,
        forall|i: int| 0 <= i < steps.len() ==> drawable_step(m.w(), m.h(), #[trigger] steps[i]),
        forall|i: int| 0 <= i < es.len() ==> (#[trigger] es[i]).0 * 4 + 1 <= usize::MAX && es[i].1 * 2 + 2 <= usize::MAX,
    ensures
        ({
            let p = animated_plan(m.w(), m.h(), steps, sol, es);
            let f = run(s, p.take(p.len() - 12));
            &&& p[p.len() - 12] == Command::WaitForKey
            &&& forall|c: int, r: int|
                0 <= c < m.w() && 0 <= r <= m.h() ==> {
                    let ch = if #[trigger] m.hw(c, r) { '\u{2500}' } else { ' ' };
                    shows(f, 4 * c + 1, 2 * r + 1, ch) && shows(f, 4 * c + 2, 2 * r + 1, ch) && shows(
                        f,
                        4 * c + 3,
                        2 * r + 1,
                        ch,
                    )
                }
            &&& forall|c: int, r: int|
                0 <= c <= m.w() && 0 <= r < m.h() ==> shows(
                    f,
                    4 * c,
                    2 * r + 2,
                    if #[trigger] m.vw(c, r) { '\u{2502}' } else { ' ' },
                )
            &&& forall|c: int, r: int|
                0 <= c <= m.w() && 0 <= r <= m.h() ==> shows(
                    f,
                    4 * c,
                    2 * r + 1,
                    if #[trigger] corner_has_open_wall(m, c, r) { m.corner_char(c, r, false) } else { '\u{253c}' },
                )
        }),
{
    let w = m.w();
    let h = m.h();
    let a0 = seq![
        Command::EnterAlternateScreen,
        Command::HideCursor,
        Command::ClearAll,
        Command::EnableRawMode,
    ];
    let g = full_grid_plan(w, h, Tone::DarkGrey);
    let t1 = anim_title(w, h, Tone::DarkCyan, " \u{2014} generating...");
    let q1 = seq![Command::Flush, Command::Sleep(500)];
    let cv = carve_plan(w, h, steps, carve_delay(w, h), steps.len() as int);
    let t2 = anim_title(w, h, Tone::DarkCyan, " \u{2014} solving...       ");
    let q2 = seq![Command::Flush, Command::Sleep(300)];
    let ex = explore_plan(w, sol, es, explore_delay(es.len() as int), es.len() as int);
    let q3 = seq![Command::Sleep(200)];
    let pr = path_rows(w, h, sol, h);
    let fin = anim_finish(w, h, count_true(sol));
    let p = animated_plan(w, h, steps, sol, es);
    let x1 = a0 + g;
    let x2 = x1 + t1;
    let x3 = x2 + q1;
    let x4 = x3 + cv;
    let x5 = x4 + t2;
    let x6 = x5 + q2;
    let x7 = x6 + ex;
    let x8 = x7 + q3;
    let x9 = x8 + pr;
    assert(p == x9 + fin);
    assert(fin.len() == 29);
    assert(p.take(p.len() - 12) =~= x9 + fin.take(17));
    assert(p[p.len() - 12] == fin[17]);
    assert(fin[17] == Command::WaitForKey);
    assert(w >= 0 && h >= 0) by {
        m.lemma_dims();
    }
    let e = Seq::<CarvingStep>::empty();
    // the fully walled grid
    lemma_run_concat(s, a0, g);
    lemma_full_grid_plan(run(s, a0), w, h, Tone::DarkGrey);
    // the first title and pause
    reveal_strlit(" \u{2014} generating...");
    reveal_strlit(" \u{2014} solving...       ");
    lemma_run_concat(s, x1, t1);
    lemma_title_keeps(run(s, x1), w, h, e, Tone::DarkCyan, " \u{2014} generating...");
    lemma_run_concat(s, x2, q1);
    lemma_quiet(run(s, x2), q1);
    // carving
    lemma_run_concat(s, x3, cv);
    lemma_carve_plan(run(s, x3), w, h, steps, carve_delay(w, h), steps.len() as int);
    assert(steps.take(steps.len() as int) =~= steps);
    // the second title and pause
    lemma_run_concat(s, x4, t2);
    lemma_title_keeps(run(s, x4), w, h, steps, Tone::DarkCyan, " \u{2014} solving...       ");
    lemma_run_concat(s, x5, q2);
    lemma_quiet(run(s, x5), q2);
    // exploring
    lemma_run_concat(s, x6, ex);
    lemma_explore_plan(run(s, x6), w, h, steps, sol, es, explore_delay(es.len() as int), es.len() as int);
    lemma_run_concat(s, x7, q3);
    lemma_quiet(run(s, x7), q3);
    // the route
    lemma_run_concat(s, x8, pr);
    lemma_path_rows(run(s, x8), w, h, steps, sol, h);
    // the end, up to the wait
    lemma_run_concat(s, x9, fin.take(17));
    lemma_finish_keeps(run(s, x9), w, h, steps, count_true(sol));
    let f = run(s, p.take(p.len() - 12));
    assert(grid_shown(f, w, h, steps));
    // in terms of the maze
    assert forall|c: int, r: int|
        0 <= c < w && 0 <= r <= h implies {
            let ch = if #[trigger] m.hw(c, r) { '\u{2500}' } else { ' ' };
            shows(f, 4 * c + 1, 2 * r + 1, ch) && shows(f, 4 * c + 2, 2 * r + 1, ch) && shows(
                f,
                4 * c + 3,
                2 * r + 1,
                ch,
            )
        } by {
        assert(shows_h(f, steps, c, r, 1));
        assert(shows_h(f, steps, c, r, 2));
        assert(shows_h(f, steps, c, r, 3));
    }
    assert forall|c: int, r: int|
        0 <= c <= w && 0 <= r < h implies shows(
            f,
            4 * c,
            2 * r + 2,
            if #[trigger] m.vw(c, r) { '\u{2502}' } else { ' ' },
        ) by {
        assert(shows_v(f, steps, c, r));
    }
    assert forall|c: int, r: int|
        0 <= c <= w && 0 <= r <= h implies shows(
            f,
            4 * c,
            2 * r + 1,
            if #[trigger] corner_has_open_wall(m, c, r) { m.corner_char(c, r, false) } else { '\u{253c}' },
        ) by {
        assert(shows_corner(f, w, h, steps, c, r));
        lemma_carved_corner(m0, m, steps, c, r);
        if c > 0 {
            assert(m.hw(c - 1, r) == (m0.hw(c - 1, r) && !opened_h(steps, c - 1, r)));
        }
        if c < w {
            assert(m.hw(c, r) == (m0.hw(c, r) && !opened_h(steps, c, r)));
        }
        if r > 0 {
            assert(m.vw(c, r - 1) == (m0.vw(c, r - 1) && !opened_v(steps, c, r - 1)));
        }
        if r < h {
            assert(m.vw(c, r) == (m0.vw(c, r) && !opened_v(steps, c, r)));
        }
    }
}


// ---------------------------------------------------------------------------
// The route marks of the animation

/// A character that marks a cell of the route: `S`, `E` or a bullet.
pub open spec fn is_route_mark(ch: char) -> bool {
    ch == 'S' || ch == 'E' || ch == '\u{25cf}'
}

/// The mark that the route's cell `(c, r)` gets: `S` at the start, `E` at
/// the goal, a bullet between.
pub open spec fn route_char(w: int, h: int, c: int, r: int) -> char {
    if c == 0 && r == 0 {
        'S'
    } else if c == w - 1 && r == h - 1 {
        'E'
    } else {
        '\u{25cf}'
    }
}

/// A command that prints no route mark.
pub open spec fn mark_free(c: Command) -> bool {
    match c {
        Command::Text(t) => forall|i: int| 0 <= i < t@.len() ==> !is_route_mark(#[trigger] t@[i]),
        Command::Char(ch) => !is_route_mark(ch),
        _ => true,
    }
}

pub open spec fn all_mark_free(cmds: Seq<Command>) -> bool {
    forall|i: int| 0 <= i < cmds.len() ==> mark_free(#[trigger] cmds[i])
}

/// No position of the screen holds a route mark.
pub open spec fn no_marks(s: Screen) -> bool {
    forall|p: (int, int)| s.chars.dom().contains(p) ==> !is_route_mark(#[trigger] s.chars[p])
}

proof fn lemma_concat_mark_free(a: Seq<Command>, b: Seq<Command>)
    requires
        all_mark_free(a),
        all_mark_free(b),
    ensures
        all_mark_free(a + b),
{
    assert forall|i: int| 0 <= i < (a + b).len() implies mark_free(#[trigger] (a + b)[i]) by {
        if i < a.len() {
            assert((a + b)[i] == a[i]);
        } else {
            assert((a + b)[i] == b[i - a.len()]);
        }
    }
}

proof fn lemma_put_text_no_marks(s: Screen, t: Seq<char>)
    requires
        no_marks(s),
        forall|i: int| 0 <= i < t.len() ==> !is_route_mark(#[trigger] t[i]),
    ensures
        no_marks(put_text(s, t)),
    decreases t.len(),
{
    if t.len() > 0 {
        let s1 = put_char(s, t[0]);
        assert(!is_route_mark(t[0]));
        assert(no_marks(s1));
        let t1 = t.drop_first();
        assert forall|i: int| 0 <= i < t1.len() implies !is_route_mark(#[trigger] t1[i]) by {
            assert(t1[i] == t[i + 1]);
        }
        lemma_put_text_no_marks(s1, t1);
    }
}

proof fn lemma_decimal_digits(n: nat)
    ensures
        forall|i: int| 0 <= i < decimal(n).len() ==> 48 <= (#[trigger] decimal(n)[i]) as int <= 57,
    decreases n,
{
    if n >= 10 {
        lemma_decimal_digits(n / 10);
        let d = decimal(n);
        assert forall|i: int| 0 <= i < d.len() implies 48 <= (#[trigger] d[i]) as int <= 57 by {
            if i < d.len() - 1 {
                assert(d[i] == decimal(n / 10)[i]);
            }
        }
    }
}

/// Commands that print no route mark, on a screen that shows none, leave
/// it showing none.
proof fn lemma_run_no_marks(s: Screen, cmds: Seq<Command>)
    requires
        no_marks(s),
        all_mark_free(cmds),
    ensures
        no_marks(run(s, cmds)),
    decreases cmds.len(),
{
    if cmds.len() > 0 {
        let c = cmds[0];
        assert(mark_free(c));
        match c {
            Command::Text(t) => {
                lemma_put_text_no_marks(s, t@);
            },
            Command::Number(n) => {
                lemma_decimal_digits(n as nat);
                let d = decimal(n as nat);
                assert forall|i: int| 0 <= i < d.len() implies !is_route_mark(#[trigger] d[i]) by {
                    assert(48 <= d[i] as int <= 57);
                }
                lemma_put_text_no_marks(s, d);
            },
            _ => {},
        }
        let rest = cmds.drop_first();
        assert forall|i: int| 0 <= i < rest.len() implies mark_free(#[trigger] rest[i]) by {
            assert(rest[i] == cmds[i + 1]);
        }
        lemma_run_no_marks(apply(s, c), rest);
    }
}


proof fn lemma_full_grid_mark_free(w: int, h: int, color: Tone)
    ensures
        all_mark_free(full_grid_plan(w, h, color)),
{
    lemma_rows_mark_free(w, h, color, h + 1);
    lemma_concat_mark_free(full_grid_rows(w, h, color, h + 1), seq![Command::Flush]);
}

proof fn lemma_corners_mark_free(w: int, r: int, color: Tone, k: int)
    ensures
        all_mark_free(full_grid_corners(w, r, color, k)),
    decreases k,
{
    if k > 0 {
        lemma_corners_mark_free(w, r, color, k - 1);
        reveal_strlit("\u{2500}\u{2500}\u{2500}");
        assert(all_mark_free(full_grid_corner(w, r, k - 1, color)));
        lemma_concat_mark_free(full_grid_corners(w, r, color, k - 1), full_grid_corner(w, r, k - 1, color));
    }
}

proof fn lemma_sides_mark_free(w: int, r: int, color: Tone, k: int)
    ensures
        all_mark_free(full_grid_sides(w, r, color, k)),
    decreases k,
{
    if k > 0 {
        lemma_sides_mark_free(w, r, color, k - 1);
        reveal_strlit("   ");
        assert(all_mark_free(full_grid_side(w, r, k - 1, color)));
        lemma_concat_mark_free(full_grid_sides(w, r, color, k - 1), full_grid_side(w, r, k - 1, color));
    }
}

proof fn lemma_rows_mark_free(w: int, h: int, color: Tone, k: int)
    ensures
        all_mark_free(full_grid_rows(w, h, color, k)),
    decreases k,
{
    if k > 0 {
        lemma_rows_mark_free(w, h, color, k - 1);
        let r = k - 1;
        lemma_corners_mark_free(w, r, color, w + 1);
        lemma_sides_mark_free(w, r, color, w + 1);
        if r < h {
            lemma_concat_mark_free(full_grid_corners(w, r, color, w + 1), full_grid_sides(w, r, color, w + 1));
        } else {
            assert(full_grid_row(w, h, r, color) =~= full_grid_corners(w, r, color, w + 1));
        }
        lemma_concat_mark_free(full_grid_rows(w, h, color, k - 1), full_grid_row(w, h, r, color));
    }
}

proof fn lemma_title_mark_free(w: int, h: int, color: Tone, tail: &'static str)
    requires
        forall|i: int| 0 <= i < tail@.len() ==> !is_route_mark(#[trigger] tail@[i]),
    ensures
        all_mark_free(anim_title(w, h, color, tail)),
{
    reveal_strlit(" fledge maze \u{2014} ");
    reveal_strlit("\u{d7}");
    let p = anim_title(w, h, color, tail);
    assert forall|i: int| 0 <= i < p.len() implies mark_free(#[trigger] p[i]) by {
        if i == 3 {
            assert forall|j: int| 0 <= j < " fledge maze \u{2014} "@.len() implies !is_route_mark(
                #[trigger] " fledge maze \u{2014} "@[j],
            ) by {}
        }
    }
}

proof fn lemma_carve_plan_mark_free(w: int, h: int, steps: Seq<CarvingStep>, delay: u64, k: int)
    ensures
        all_mark_free(carve_plan(w, h, steps, delay, k)),
    decreases k,
{
    if k > 0 {
        lemma_carve_plan_mark_free(w, h, steps, delay, k - 1);
        let p = carve_step_plan(w, h, steps, k - 1, delay);
        reveal_strlit(" \u{25c6} ");
        reveal_strlit("   ");
        assert forall|i: int| 0 <= i < p.len() implies mark_free(#[trigger] p[i]) by {}
        lemma_concat_mark_free(carve_plan(w, h, steps, delay, k - 1), p);
    }
}

proof fn lemma_explore_plan_mark_free(w: int, sol: Seq<bool>, es: Seq<(usize, usize)>, delay: u64, k: int)
    ensures
        all_mark_free(explore_plan(w, sol, es, delay, k)),
    decreases k,
{
    if k > 0 {
        lemma_explore_plan_mark_free(w, sol, es, delay, k - 1);
        reveal_strlit(" \u{b7} ");
        let p = explore_piece(w, sol, es[k - 1], delay);
        assert(all_mark_free(p));
        lemma_concat_mark_free(explore_plan(w, sol, es, delay, k - 1), p);
    }
}


/// Commands that stay on the cursor's row change no other row.
proof fn lemma_row_frame(s: Screen, cmds: Seq<Command>)
    requires
        forall|i: int| 0 <= i < cmds.len() ==> row_bound(#[trigger] cmds[i]),
    ensures
        run(s, cmds).row == s.row,
        forall|x: int, y: int|
            #![trigger run(s, cmds).chars.dom().contains((x, y))]
            #![trigger run(s, cmds).chars[(x, y)]]
            y != s.row ==> run(s, cmds).chars.dom().contains((x, y)) == s.chars.dom().contains((x, y))
                && (s.chars.dom().contains((x, y)) ==> run(s, cmds).chars[(x, y)] == s.chars[(x, y)]),
    decreases cmds.len(),
{
    if cmds.len() > 0 {
        let c = cmds[0];
        assert(row_bound(c));
        let s1 = apply(s, c);
        match c {
            Command::Text(t) => {
                lemma_put_text(s, t@);
            },
            Command::Number(n) => {
                lemma_decimal_no_newline(n as nat);
                lemma_put_text(s, decimal(n as nat));
            },
            _ => {},
        }
        let rest = cmds.drop_first();
        assert forall|i: int| 0 <= i < rest.len() implies row_bound(#[trigger] rest[i]) by {
            assert(rest[i] == cmds[i + 1]);
        }
        lemma_row_frame(s1, rest);
        let f = run(s, cmds);
        assert forall|x: int, y: int|
            #![trigger f.chars.dom().contains((x, y))]
            #![trigger f.chars[(x, y)]]
            y != s.row implies f.chars.dom().contains((x, y)) == s.chars.dom().contains((x, y))
                && (s.chars.dom().contains((x, y)) ==> f.chars[(x, y)] == s.chars[(x, y)]) by {
            assert(f.chars.dom().contains((x, y)) == s1.chars.dom().contains((x, y)));
            assert(s1.chars.dom().contains((x, y)) == s.chars.dom().contains((x, y)));
            if s.chars.dom().contains((x, y)) {
                assert(s1.chars[(x, y)] == s.chars[(x, y)]);
            }
        }
    }
}

/// The centre of the cell at column `c`, row `r` holds a route mark.
pub open spec fn marked_at(s: Screen, c: int, r: int) -> bool {
    s.chars.dom().contains((4 * c + 2, 2 * r + 2)) && is_route_mark(s.chars[(4 * c + 2, 2 * r + 2)])
}

/// The cells before `(c0, r0)`, row by row, that the solution marks carry
/// their route mark; no other cell carries one.
spec fn route_cell_ok(s: Screen, w: int, h: int, sol: Seq<bool>, r0: int, c0: int, c: int, r: int) -> bool {
    let done = r < r0 || (r == r0 && c < c0);
    &&& (done && sol[idx(w, c, r)]) ==> shows(s, 4 * c + 2, 2 * r + 2, route_char(w, h, c, r))
    &&& !(done && sol[idx(w, c, r)]) ==> !marked_at(s, c, r)
}

spec fn route_upto(s: Screen, w: int, h: int, sol: Seq<bool>, r0: int, c0: int) -> bool {
    forall|c: int, r: int| 0 <= c < w && 0 <= r < h ==> #[trigger] route_cell_ok(s, w, h, sol, r0, c0, c, r)
}

proof fn lemma_route_piece(s: Screen, w: int, h: int, sol: Seq<bool>, r: int, c: int)
    requires
        0 <= c < w,
        0 <= r < h,
        w * 4 + 4 <= usize::MAX,
        h * 2 + 3 <= usize::MAX,
        route_upto(s, w, h, sol, r, c),
    ensures
        route_upto(run(s, path_piece(w, h, sol, r, c)), w, h, sol, r, c + 1),
{
    let p = path_piece(w, h, sol, r, c);
    if sol[idx(w, c, r)] {
        let s1 = Screen { col: c * 4 + 1, row: r * 2 + 2, chars: s.chars };
        let t: &'static str = if c == 0 && r == 0 {
            " S "
        } else if c == w - 1 && r == h - 1 {
            " E "
        } else {
            " \u{25cf} "
        };
        reveal_strlit(" S ");
        reveal_strlit(" E ");
        reveal_strlit(" \u{25cf} ");
        assert(run(s, p) == put_text(s1, t@)) by {
            reveal_with_fuel(run, 6);
            assert(apply(s, p[0]) == s1);
            assert(p.drop_first().drop_first().drop_first().drop_first() =~= seq![Command::ResetAttributes]);
        }
        lemma_put_text(s1, t@);
        let f = put_text(s1, t@);
        assert(t@[1] == route_char(w, h, c, r));
        assert forall|cc: int, rr: int| 0 <= cc < w && 0 <= rr < h implies #[trigger] route_cell_ok(
            f,
            w,
            h,
            sol,
            r,
            c + 1,
            cc,
            rr,
        ) by {
            let x = 4 * cc + 2;
            let y = 2 * rr + 2;
            if cc == c && rr == r {
                assert(shows(f, s1.col + 1, s1.row, t@[1]));
            } else {
                if y == s1.row {
                    assert(!(s1.col <= x < s1.col + 3));
                }
                assert(f.chars.dom().contains((x, y)) == s.chars.dom().contains((x, y)));
                if s.chars.dom().contains((x, y)) {
                    assert(f.chars[(x, y)] == s.chars[(x, y)]);
                }
                assert(route_cell_ok(s, w, h, sol, r, c, cc, rr));
            }
        }
    } else {
        assert(run(s, p) == s);
        assert forall|cc: int, rr: int| 0 <= cc < w && 0 <= rr < h implies #[trigger] route_cell_ok(
            s,
            w,
            h,
            sol,
            r,
            c + 1,
            cc,
            rr,
        ) by {
            assert(route_cell_ok(s, w, h, sol, r, c, cc, rr));
        }
    }
}

proof fn lemma_route_next_row(s: Screen, w: int, h: int, sol: Seq<bool>, r: int)
    requires
        route_upto(s, w, h, sol, r, w),
    ensures
        route_upto(s, w, h, sol, r + 1, 0),
{
    assert forall|c: int, rr: int| 0 <= c < w && 0 <= rr < h implies #[trigger] route_cell_ok(s, w, h, sol, r + 1, 0, c, rr) by {
        assert(route_cell_ok(s, w, h, sol, r, w, c, rr));
    }
}

proof fn lemma_route_pieces(s: Screen, w: int, h: int, sol: Seq<bool>, r: int, k: int)
    requires
        0 <= k <= w,
        0 <= r < h,
        w * 4 + 4 <= usize::MAX,
        h * 2 + 3 <= usize::MAX,
        route_upto(s, w, h, sol, r, 0),
    ensures
        route_upto(run(s, path_pieces(w, h, sol, r, k)), w, h, sol, r, k),
    decreases k,
{
    if k > 0 {
        lemma_route_pieces(s, w, h, sol, r, k - 1);
        lemma_run_concat(s, path_pieces(w, h, sol, r, k - 1), path_piece(w, h, sol, r, k - 1));
        lemma_route_piece(run(s, path_pieces(w, h, sol, r, k - 1)), w, h, sol, r, k - 1);
    }
}

proof fn lemma_route_rows(s: Screen, w: int, h: int, sol: Seq<bool>, k: int)
    requires
        0 <= k <= h,
        w >= 0,
        w * 4 + 4 <= usize::MAX,
        h * 2 + 3 <= usize::MAX,
        route_upto(s, w, h, sol, 0, 0),
    ensures
        route_upto(run(s, path_rows(w, h, sol, k)), w, h, sol, k, 0),
    decreases k,
{
    if k > 0 {
        lemma_route_rows(s, w, h, sol, k - 1);
        lemma_run_concat(s, path_rows(w, h, sol, k - 1), path_pieces(w, h, sol, k - 1, w));
        lemma_route_pieces(run(s, path_rows(w, h, sol, k - 1)), w, h, sol, k - 1, w);
        lemma_route_next_row(run(s, path_rows(w, h, sol, k)), w, h, sol, k - 1);
    }
}


/// While the animation waits for a key, the cell at column `c`, row `r` of
/// a `w` x `h` maze shows a route mark at its centre (column `4c + 2`, row
/// `2r + 2`) exactly when the solution marks it: `S` on the top-left cell,
/// `E` on the bottom-right cell, a bullet on the others. No cell off the
/// solution shows a route mark, whatever was on the screen before.
pub proof fn lemma_animation_marks_route(
    s: Screen,
    w: int,
    h: int,
    steps: Seq<CarvingStep>,
    sol: Seq<bool>,
    es: Seq<(usize, usize)>,
)
    requires
        w >= 0,
        h >= 0,
        w * 4 + 4 <= usize::MAX,
        h * 2 + 3 <= usize::MAX,
    ensures
        ({
            let p = animated_plan(w, h, steps, sol, es);
            let f = run(s, p.take(p.len() - 12));
            forall|c: int, r: int|
                0 <= c < w && 0 <= r < h ==> {
                    &&& #[trigger] sol[idx(w, c, r)] ==> shows(f, 4 * c + 2, 2 * r + 2, route_char(w, h, c, r))
                    &&& !sol[idx(w, c, r)] ==> !marked_at(f, c, r)
                }
        }),
{
    let a0 = seq![
        Command::EnterAlternateScreen,
        Command::HideCursor,
        Command::ClearAll,
        Command::EnableRawMode,
    ];
    let g = full_grid_plan(w, h, Tone::DarkGrey);
    let t1 = anim_title(w, h, Tone::DarkCyan, " \u{2014} generating...");
    let q1 = seq![Command::Flush, Command::Sleep(500)];
    let cv = carve_plan(w, h, steps, carve_delay(w, h), steps.len() as int);
    let t2 = anim_title(w, h, Tone::DarkCyan, " \u{2014} solving...       ");
    let q2 = seq![Command::Flush, Command::Sleep(300)];
    let ex = explore_plan(w, sol, es, explore_delay(es.len() as int), es.len() as int);
    let q3 = seq![Command::Sleep(200)];
    let pr = path_rows(w, h, sol, h);
    let fin = anim_finish(w, h, count_true(sol));
    let p = animated_plan(w, h, steps, sol, es);
    let x1 = a0 + g;
    let x2 = x1 + t1;
    let x3 = x2 + q1;
    let x4 = x3 + cv;
    let x5 = x4 + t2;
    let x6 = x5 + q2;
    let x7 = x6 + ex;
    let x8 = x7 + q3;
    let x9 = x8 + pr;
    assert(p == x9 + fin);
    assert(fin.len() == 29);
    assert(p.take(p.len() - 12) =~= x9 + fin.take(17));
    // a blank screen first
    assert(run(s, a0).chars == Map::<(int, int), char>::empty()) by {
        reveal_with_fuel(run, 5);
        assert(a0.drop_first().drop_first().drop_first().drop_first() =~= Seq::<Command>::empty());
    }
    assert(no_marks(run(s, a0)));
    // nothing up to the route prints a route mark
    reveal_strlit(" \u{2014} generating...");
    reveal_strlit(" \u{2014} solving...       ");
    lemma_full_grid_mark_free(w, h, Tone::DarkGrey);
    lemma_title_mark_free(w, h, Tone::DarkCyan, " \u{2014} generating...");
    lemma_title_mark_free(w, h, Tone::DarkCyan, " \u{2014} solving...       ");
    lemma_carve_plan_mark_free(w, h, steps, carve_delay(w, h), steps.len() as int);
    lemma_explore_plan_mark_free(w, sol, es, explore_delay(es.len() as int), es.len() as int);
    lemma_run_concat(s, a0, g);
    lemma_run_no_marks(run(s, a0), g);
    lemma_run_concat(s, x1, t1);
    lemma_run_no_marks(run(s, x1), t1);
    lemma_run_concat(s, x2, q1);
    lemma_run_no_marks(run(s, x2), q1);
    lemma_run_concat(s, x3, cv);
    lemma_run_no_marks(run(s, x3), cv);
    lemma_run_concat(s, x4, t2);
    lemma_run_no_marks(run(s, x4), t2);
    lemma_run_concat(s, x5, q2);
    lemma_run_no_marks(run(s, x5), q2);
    lemma_run_concat(s, x6, ex);
    lemma_run_no_marks(run(s, x6), ex);
    lemma_run_concat(s, x7, q3);
    lemma_run_no_marks(run(s, x7), q3);
    let s8 = run(s, x8);
    assert forall|c: int, r: int| 0 <= c < w && 0 <= r < h implies #[trigger] route_cell_ok(s8, w, h, sol, 0, 0, c, r) by {
        if s8.chars.dom().contains((4 * c + 2, 2 * r + 2)) {
            assert(!is_route_mark(s8.chars[(4 * c + 2, 2 * r + 2)]));
        }
    }
    // the route
    lemma_run_concat(s, x8, pr);
    lemma_route_rows(s8, w, h, sol, h);
    let s9 = run(s, x9);
    // the end, up to the wait, writes on rows 0 and 2h + 3 only
    lemma_run_concat(s, x9, fin.take(17));
    let ft = fin.take(17);
    let a = ft.subrange(1, 12);
    let b = ft.subrange(13, 17);
    assert(ft =~= seq![ft[0]] + a + seq![ft[12]] + b);
    reveal_strlit(" fledge maze \u{2014} ");
    reveal_strlit("\u{d7}");
    reveal_strlit(" \u{2014} solved! (");
    reveal_strlit(" steps)   ");
    reveal_strlit("Press any key to exit...");
    lemma_run_concat(s9, seq![ft[0]] + a + seq![ft[12]], b);
    lemma_run_concat(s9, seq![ft[0]] + a, seq![ft[12]]);
    lemma_run_concat(s9, seq![ft[0]], a);
    lemma_run_one(s9, ft[0]);
    let u1 = apply(s9, ft[0]);
    assert forall|i: int| 0 <= i < a.len() implies row_bound(#[trigger] a[i]) by {
        assert(a[i] == ft[i + 1]);
    }
    lemma_row_frame(u1, a);
    let u2 = run(u1, a);
    lemma_run_one(u2, ft[12]);
    let u3 = apply(u2, ft[12]);
    assert forall|i: int| 0 <= i < b.len() implies row_bound(#[trigger] b[i]) by {
        assert(b[i] == ft[i + 13]);
    }
    lemma_row_frame(u3, b);
    let f = run(u3, b);
    assert(f == run(s, p.take(p.len() - 12)));
    assert forall|c: int, r: int| 0 <= c < w && 0 <= r < h implies {
        &&& #[trigger] sol[idx(w, c, r)] ==> shows(f, 4 * c + 2, 2 * r + 2, route_char(w, h, c, r))
        &&& !sol[idx(w, c, r)] ==> !marked_at(f, c, r)
    } by {
        let x = 4 * c + 2;
        let y = 2 * r + 2;
        assert(route_cell_ok(s9, w, h, sol, h, 0, c, r));
        assert(u1.chars == s9.chars);
        assert(u2.chars.dom().contains((x, y)) == u1.chars.dom().contains((x, y)));
        assert(f.chars.dom().contains((x, y)) == u3.chars.dom().contains((x, y)));
        if s9.chars.dom().contains((x, y)) {
            assert(u2.chars[(x, y)] == u1.chars[(x, y)]);
            assert(f.chars[(x, y)] == u3.chars[(x, y)]);
        }
    }
}


// ---------------------------------------------------------------------------
// The still picture

/// A command that never moves the cursor up or clears the screen.
pub open spec fn forward(c: Command) -> bool {
    match c {
        Command::MoveTo(_, _) => false,
        Command::ClearAll => false,
        Command::EnterAlternateScreen => false,
        _ => true,
    }
}

proof fn lemma_put_text_forward(s: Screen, t: Seq<char>)
    ensures
        put_text(s, t).row >= s.row,
        forall|x: int, y: int|
            #![trigger put_text(s, t).chars.dom().contains((x, y))]
            #![trigger put_text(s, t).chars[(x, y)]]
            y < s.row ==> put_text(s, t).chars.dom().contains((x, y)) == s.chars.dom().contains((x, y))
                && (s.chars.dom().contains((x, y)) ==> put_text(s, t).chars[(x, y)] == s.chars[(x, y)]),
    decreases t.len(),
{
    if t.len() > 0 {
        let s1 = put_char(s, t[0]);
        lemma_put_text_forward(s1, t.drop_first());
        let f = put_text(s, t);
        assert forall|x: int, y: int|
            #![trigger f.chars.dom().contains((x, y))]
            #![trigger f.chars[(x, y)]]
            y < s.row implies f.chars.dom().contains((x, y)) == s.chars.dom().contains((x, y))
                && (s.chars.dom().contains((x, y)) ==> f.chars[(x, y)] == s.chars[(x, y)]) by {
            assert(f.chars.dom().contains((x, y)) == s1.chars.dom().contains((x, y)));
            if s.chars.dom().contains((x, y)) {
                assert(s1.chars[(x, y)] == s.chars[(x, y)]);
            }
        }
    }
}

/// Commands that never move up leave the rows above the cursor as they are.
proof fn lemma_forward(s: Screen, cmds: Seq<Command>)
    requires
        forall|i: int| 0 <= i < cmds.len() ==> forward(#[trigger] cmds[i]),
    ensures
        run(s, cmds).row >= s.row,
        forall|x: int, y: int|
            #![trigger run(s, cmds).chars.dom().contains((x, y))]
            #![trigger run(s, cmds).chars[(x, y)]]
            y < s.row ==> run(s, cmds).chars.dom().contains((x, y)) == s.chars.dom().contains((x, y))
                && (s.chars.dom().contains((x, y)) ==> run(s, cmds).chars[(x, y)] == s.chars[(x, y)]),
    decreases cmds.len(),
{
    if cmds.len() > 0 {
        let c = cmds[0];
        assert(forward(c));
        let s1 = apply(s, c);
        match c {
            Command::Text(t) => {
                lemma_put_text_forward(s, t@);
            },
            Command::Number(n) => {
                lemma_put_text_forward(s, decimal(n as nat));
            },
            Command::Char(ch) => {
                assert(put_char(s, ch) == put_text(s, seq![ch])) by {
                    reveal_with_fuel(put_text, 2);
                    assert(seq![ch].drop_first() =~= Seq::<char>::empty());
                }
                lemma_put_text_forward(s, seq![ch]);
            },
            _ => {},
        }
        let rest = cmds.drop_first();
        assert forall|i: int| 0 <= i < rest.len() implies forward(#[trigger] rest[i]) by {
            assert(rest[i] == cmds[i + 1]);
        }
        lemma_forward(s1, rest);
        let f = run(s, cmds);
        assert forall|x: int, y: int|
            #![trigger f.chars.dom().contains((x, y))]
            #![trigger f.chars[(x, y)]]
            y < s.row implies f.chars.dom().contains((x, y)) == s.chars.dom().contains((x, y))
                && (s.chars.dom().contains((x, y)) ==> f.chars[(x, y)] == s.chars[(x, y)]) by {
            assert(f.chars.dom().contains((x, y)) == s1.chars.dom().contains((x, y)));
            if s.chars.dom().contains((x, y)) {
                assert(s1.chars[(x, y)] == s.chars[(x, y)]);
            }
        }
    }
}

pub open spec fn all_forward(cmds: Seq<Command>) -> bool {
    forall|i: int| 0 <= i < cmds.len() ==> forward(#[trigger] cmds[i])
}

pub open spec fn all_row_bound(cmds: Seq<Command>) -> bool {
    forall|i: int| 0 <= i < cmds.len() ==> row_bound(#[trigger] cmds[i])
}

proof fn lemma_concat_forward(a: Seq<Command>, b: Seq<Command>)
    requires
        all_forward(a),
        all_forward(b),
    ensures
        all_forward(a + b),
{
    assert forall|i: int| 0 <= i < (a + b).len() implies forward(#[trigger] (a + b)[i]) by {
        if i < a.len() {
            assert((a + b)[i] == a[i]);
        } else {
            assert((a + b)[i] == b[i - a.len()]);
        }
    }
}

proof fn lemma_concat_row_bound(a: Seq<Command>, b: Seq<Command>)
    requires
        all_row_bound(a),
        all_row_bound(b),
    ensures
        all_row_bound(a + b),
{
    assert forall|i: int| 0 <= i < (a + b).len() implies row_bound(#[trigger] (a + b)[i]) by {
        if i < a.len() {
            assert((a + b)[i] == a[i]);
        } else {
            assert((a + b)[i] == b[i - a.len()]);
        }
    }
}

proof fn lemma_row_bound_forward(a: Seq<Command>)
    requires
        all_row_bound(a),
    ensures
        all_forward(a),
{
    assert forall|i: int| 0 <= i < a.len() implies forward(#[trigger] a[i]) by {
        assert(row_bound(a[i]));
    }
}

proof fn lemma_wall_pieces_row_bound(m: Maze, r: int, ascii: bool, k: int)
    ensures
        all_row_bound(wall_pieces(m, r, ascii, k)),
    decreases k,
{
    if k > 0 {
        lemma_wall_pieces_row_bound(m, r, ascii, k - 1);
        reveal_strlit("---");
        reveal_strlit("\u{2500}\u{2500}\u{2500}");
        reveal_strlit("   ");
        let p = wall_piece(m, r, k - 1, ascii);
        assert(m.corner_char(k - 1, r, ascii) != '\n');
        assert(all_row_bound(p));
        lemma_concat_row_bound(wall_pieces(m, r, ascii, k - 1), p);
    }
}


/// The character of vertical wall `(c, r)` in the still picture.
spec fn still_v(m: Maze, r: int, c: int, ascii: bool) -> char {
    if m.vw(c, r) {
        v_wall_char(ascii)
    } else {
        ' '
    }
}

/// Each of the three characters of horizontal wall `(c, r)` in the still
/// picture.
spec fn still_h(m: Maze, r: int, c: int, ascii: bool) -> char {
    if m.hw(c, r) {
        if ascii {
            '-'
        } else {
            '\u{2500}'
        }
    } else {
        ' '
    }
}

/// The character at the centre of cell `(c, r)` in the still picture.
spec fn still_centre(m: Maze, sol: Option<Seq<bool>>, c: int, r: int) -> char {
    if c == 0 && r == 0 {
        'S'
    } else if c == m.w() - 1 && r == m.h() - 1 {
        'E'
    } else if on_solution(m, sol, c, r) {
        '\u{b7}'
    } else {
        ' '
    }
}

/// The text inside cell `(c, r)` in the still picture.
spec fn inside_text(m: Maze, sol: Option<Seq<bool>>, c: int, r: int) -> &'static str {
    if c == 0 && r == 0 {
        " S "
    } else if c == m.w() - 1 && r == m.h() - 1 {
        " E "
    } else if on_solution(m, sol, c, r) {
        " \u{b7} "
    } else {
        "   "
    }
}

proof fn lemma_cell_inside(s: Screen, m: Maze, sol: Option<Seq<bool>>, r: int, c: int)
    ensures
        run(s, cell_inside(m, sol, r, c)) == put_text(s, inside_text(m, sol, c, r)@),
{
    let p = cell_inside(m, sol, r, c);
    reveal_with_fuel(run, 5);
    if c == 0 && r == 0 {
        assert(p.drop_first().drop_first().drop_first().drop_first() =~= Seq::<Command>::empty());
    } else if c == m.w() - 1 && r == m.h() - 1 {
        assert(p.drop_first().drop_first().drop_first().drop_first() =~= Seq::<Command>::empty());
    } else {
        assert(p.drop_first().drop_first() =~= Seq::<Command>::empty());
    }
}

proof fn lemma_still_cell(s: Screen, m: Maze, sol: Option<Seq<bool>>, r: int, c: int, ascii: bool)
    requires
        0 <= c <= m.w(),
        s.col == 4 * c,
    ensures
        run(s, cell_piece(m, sol, r, c, ascii)).row == s.row,
        run(s, cell_piece(m, sol, r, c, ascii)).col == 4 * c + if c < m.w() { 4int } else { 1int },
        c < m.w() ==> shows(run(s, cell_piece(m, sol, r, c, ascii)), 4 * c + 2, s.row, still_centre(m, sol, c, r)),
        shows(run(s, cell_piece(m, sol, r, c, ascii)), 4 * c, s.row, still_v(m, r, c, ascii)),
        forall|x: int, y: int|
            #![trigger run(s, cell_piece(m, sol, r, c, ascii)).chars.dom().contains((x, y))]
            (y != s.row || x < 4 * c) ==> run(s, cell_piece(m, sol, r, c, ascii)).chars.dom().contains((x, y))
                == s.chars.dom().contains((x, y)) && (s.chars.dom().contains((x, y)) ==> run(
                s,
                cell_piece(m, sol, r, c, ascii),
            ).chars[(x, y)] == s.chars[(x, y)]),
{
    let ch = if m.vw(c, r) { v_wall_char(ascii) } else { ' ' };
    let first = if m.vw(c, r) {
        seq![Command::SetColor(crate::render::wall_tone(ascii)), Command::Char(v_wall_char(ascii))]
    } else {
        seq![Command::ResetColor, Command::Char(' ')]
    };
    let inside = if c < m.w() { cell_inside(m, sol, r, c) } else { Seq::<Command>::empty() };
    assert(cell_piece(m, sol, r, c, ascii) == first + inside);
    lemma_run_concat(s, first, inside);
    let s1 = put_char(s, ch);
    assert(run(s, first) == s1) by {
        reveal_with_fuel(run, 3);
        assert(first.drop_first().drop_first() =~= Seq::<Command>::empty());
    }
    assert(ch != '\n');
    let f = run(s, cell_piece(m, sol, r, c, ascii));
    if c < m.w() {
        let t = inside_text(m, sol, c, r);
        lemma_cell_inside(s1, m, sol, r, c);
        reveal_strlit(" S ");
        reveal_strlit(" E ");
        reveal_strlit(" \u{b7} ");
        reveal_strlit("   ");
        assert(t@.len() == 3);
        assert(no_newline(t@));
        lemma_put_text(s1, t@);
        assert(t@[1] == still_centre(m, sol, c, r));
        assert(shows(f, s1.col + 1, s1.row, t@[1]));
        assert(f.chars.dom().contains((4 * c, s.row)) == s1.chars.dom().contains((4 * c, s.row)));
        assert forall|x: int, y: int|
            #![trigger f.chars.dom().contains((x, y))]
            (y != s.row || x < 4 * c) implies f.chars.dom().contains((x, y)) == s.chars.dom().contains((x, y))
                && (s.chars.dom().contains((x, y)) ==> f.chars[(x, y)] == s.chars[(x, y)]) by {
            assert(f.chars.dom().contains((x, y)) == s1.chars.dom().contains((x, y)));
            if s.chars.dom().contains((x, y)) {
                assert(f.chars[(x, y)] == s1.chars[(x, y)]);
            }
        }
    } else {
        assert(run(s1, inside) == s1);
    }
}

proof fn lemma_still_cells(s: Screen, m: Maze, sol: Option<Seq<bool>>, r: int, ascii: bool, k: int)
    requires
        0 <= k <= m.w(),
        s.col == 0,
    ensures
        run(s, cell_pieces(m, sol, r, ascii, k)).row == s.row,
        run(s, cell_pieces(m, sol, r, ascii, k)).col == 4 * k,
        forall|c: int| 0 <= c < k ==> #[trigger] shows(run(s, cell_pieces(m, sol, r, ascii, k)), 4 * c + 2, s.row, still_centre(m, sol, c, r)),
        forall|c: int| 0 <= c < k ==> #[trigger] shows(run(s, cell_pieces(m, sol, r, ascii, k)), 4 * c, s.row, still_v(m, r, c, ascii)),
    decreases k,
{
    if k > 0 {
        lemma_still_cells(s, m, sol, r, ascii, k - 1);
        let s1 = run(s, cell_pieces(m, sol, r, ascii, k - 1));
        lemma_run_concat(s, cell_pieces(m, sol, r, ascii, k - 1), cell_piece(m, sol, r, k - 1, ascii));
        lemma_still_cell(s1, m, sol, r, k - 1, ascii);
        let f = run(s, cell_pieces(m, sol, r, ascii, k));
        assert forall|c: int| 0 <= c < k implies #[trigger] shows(f, 4 * c + 2, s.row, still_centre(m, sol, c, r)) by {
            if c < k - 1 {
                assert(shows(s1, 4 * c + 2, s.row, still_centre(m, sol, c, r)));
                assert(f.chars.dom().contains((4 * c + 2, s.row)) == s1.chars.dom().contains((4 * c + 2, s.row)));
            }
        }
        assert forall|c: int| 0 <= c < k implies #[trigger] shows(f, 4 * c, s.row, still_v(m, r, c, ascii)) by {
            if c < k - 1 {
                assert(shows(s1, 4 * c, s.row, still_v(m, r, c, ascii)));
                assert(f.chars.dom().contains((4 * c, s.row)) == s1.chars.dom().contains((4 * c, s.row)));
            }
        }
    }
}


proof fn lemma_still_wall(s: Screen, m: Maze, r: int, c: int, ascii: bool)
    requires
        0 <= c <= m.w(),
        s.col == 4 * c,
    ensures
        run(s, wall_piece(m, r, c, ascii)).row == s.row,
        run(s, wall_piece(m, r, c, ascii)).col == 4 * c + if c < m.w() { 4int } else { 1int },
        shows(run(s, wall_piece(m, r, c, ascii)), 4 * c, s.row, m.corner_char(c, r, ascii)),
        c < m.w() ==> shows(run(s, wall_piece(m, r, c, ascii)), 4 * c + 1, s.row, still_h(m, r, c, ascii)),
        c < m.w() ==> shows(run(s, wall_piece(m, r, c, ascii)), 4 * c + 2, s.row, still_h(m, r, c, ascii)),
        c < m.w() ==> shows(run(s, wall_piece(m, r, c, ascii)), 4 * c + 3, s.row, still_h(m, r, c, ascii)),
        forall|x: int, y: int|
            #![trigger run(s, wall_piece(m, r, c, ascii)).chars.dom().contains((x, y))]
            (y != s.row || x < 4 * c) ==> run(s, wall_piece(m, r, c, ascii)).chars.dom().contains((x, y))
                == s.chars.dom().contains((x, y)) && (s.chars.dom().contains((x, y)) ==> run(
                s,
                wall_piece(m, r, c, ascii),
            ).chars[(x, y)] == s.chars[(x, y)]),
{
    let ch = m.corner_char(c, r, ascii);
    let first = seq![Command::SetColor(crate::render::wall_tone(ascii)), Command::Char(ch)];
    let t: &'static str = if m.hw(c, r) { h_wall_text(ascii) } else { "   " };
    let rest = if c < m.w() {
        if m.hw(c, r) {
            seq![Command::Text(h_wall_text(ascii))]
        } else {
            seq![Command::ResetColor, Command::Text("   ")]
        }
    } else {
        Seq::<Command>::empty()
    };
    assert(wall_piece(m, r, c, ascii) == first + rest);
    lemma_run_concat(s, first, rest);
    let s1 = put_char(s, ch);
    assert(run(s, first) == s1) by {
        reveal_with_fuel(run, 3);
        assert(first.drop_first().drop_first() =~= Seq::<Command>::empty());
    }
    assert(ch != '\n');
    let f = run(s, wall_piece(m, r, c, ascii));
    if c < m.w() {
        assert(run(s1, rest) == put_text(s1, t@)) by {
            reveal_with_fuel(run, 3);
            if m.hw(c, r) {
                assert(rest.drop_first() =~= Seq::<Command>::empty());
            } else {
                assert(rest.drop_first().drop_first() =~= Seq::<Command>::empty());
            }
        }
        reveal_strlit("---");
        reveal_strlit("\u{2500}\u{2500}\u{2500}");
        reveal_strlit("   ");
        assert(t@.len() == 3);
        assert(no_newline(t@));
        lemma_put_text(s1, t@);
        assert(t@[0] == still_h(m, r, c, ascii) && t@[1] == still_h(m, r, c, ascii) && t@[2] == still_h(m, r, c, ascii));
        assert(shows(f, s1.col + 0, s1.row, t@[0]));
        assert(shows(f, s1.col + 1, s1.row, t@[1]));
        assert(shows(f, s1.col + 2, s1.row, t@[2]));
        assert(f.chars.dom().contains((4 * c, s.row)) == s1.chars.dom().contains((4 * c, s.row)));
        assert forall|x: int, y: int|
            #![trigger f.chars.dom().contains((x, y))]
            (y != s.row || x < 4 * c) implies f.chars.dom().contains((x, y)) == s.chars.dom().contains((x, y))
                && (s.chars.dom().contains((x, y)) ==> f.chars[(x, y)] == s.chars[(x, y)]) by {
            assert(f.chars.dom().contains((x, y)) == s1.chars.dom().contains((x, y)));
            if s.chars.dom().contains((x, y)) {
                assert(f.chars[(x, y)] == s1.chars[(x, y)]);
            }
        }
    } else {
        assert(run(s1, rest) == s1);
    }
}

/// The first `k` pieces of wall line `r` of the still picture, from the
/// start of a screen row.
proof fn lemma_still_walls(s: Screen, m: Maze, r: int, ascii: bool, k: int)
    requires
        0 <= k <= m.w() + 1,
        s.col == 0,
    ensures
        run(s, wall_pieces(m, r, ascii, k)).row == s.row,
        k <= m.w() ==> run(s, wall_pieces(m, r, ascii, k)).col == 4 * k,
        forall|c: int| 0 <= c < k ==> #[trigger] shows(run(s, wall_pieces(m, r, ascii, k)), 4 * c, s.row, m.corner_char(c, r, ascii)),
        forall|c: int, j: int|
            0 <= c < k && c < m.w() && 1 <= j <= 3 ==> #[trigger] shows(
                run(s, wall_pieces(m, r, ascii, k)),
                4 * c + j,
                s.row,
                still_h(m, r, c, ascii),
            ),
    decreases k,
{
    if k > 0 {
        lemma_still_walls(s, m, r, ascii, k - 1);
        let s1 = run(s, wall_pieces(m, r, ascii, k - 1));
        lemma_run_concat(s, wall_pieces(m, r, ascii, k - 1), wall_piece(m, r, k - 1, ascii));
        lemma_still_wall(s1, m, r, k - 1, ascii);
        let f = run(s, wall_pieces(m, r, ascii, k));
        assert forall|c: int| 0 <= c < k implies #[trigger] shows(f, 4 * c, s.row, m.corner_char(c, r, ascii)) by {
            if c < k - 1 {
                assert(shows(s1, 4 * c, s.row, m.corner_char(c, r, ascii)));
                assert(f.chars.dom().contains((4 * c, s.row)) == s1.chars.dom().contains((4 * c, s.row)));
            }
        }
        assert forall|c: int, j: int| 0 <= c < k && c < m.w() && 1 <= j <= 3 implies #[trigger] shows(
            f,
            4 * c + j,
            s.row,
            still_h(m, r, c, ascii),
        ) by {
            if c < k - 1 {
                assert(shows(s1, 4 * c + j, s.row, still_h(m, r, c, ascii)));
                assert(f.chars.dom().contains((4 * c + j, s.row)) == s1.chars.dom().contains((4 * c + j, s.row)));
            }
        }
    }
}

proof fn lemma_cell_pieces_forward(m: Maze, sol: Option<Seq<bool>>, r: int, ascii: bool, k: int)
    ensures
        all_forward(cell_pieces(m, sol, r, ascii, k)),
    decreases k,
{
    if k > 0 {
        lemma_cell_pieces_forward(m, sol, r, ascii, k - 1);
        let p = cell_piece(m, sol, r, k - 1, ascii);
        assert(all_forward(p));
        lemma_concat_forward(cell_pieces(m, sol, r, ascii, k - 1), p);
    }
}

proof fn lemma_line_end(s: Screen)
    ensures
        run(s, line_end()) == (Screen { col: 0, row: s.row + 1, chars: s.chars }),
{
    reveal_with_fuel(run, 3);
    assert(line_end().drop_first().drop_first() =~= Seq::<Command>::empty());
}

proof fn lemma_grid_row_forward(m: Maze, sol: Option<Seq<bool>>, r: int, ascii: bool)
    ensures
        all_forward(grid_row(m, sol, r, ascii)),
{
    lemma_wall_pieces_row_bound(m, r, ascii, m.w() + 1);
    lemma_row_bound_forward(wall_pieces(m, r, ascii, m.w() + 1));
    assert(all_forward(line_end()));
    lemma_concat_forward(wall_pieces(m, r, ascii, m.w() + 1), line_end());
    lemma_cell_pieces_forward(m, sol, r, ascii, m.w() + 1);
    lemma_concat_forward(cell_pieces(m, sol, r, ascii, m.w() + 1), line_end());
    if r < m.h() {
        lemma_concat_forward(
            wall_pieces(m, r, ascii, m.w() + 1) + line_end(),
            cell_pieces(m, sol, r, ascii, m.w() + 1) + line_end(),
        );
    } else {
        assert(grid_row(m, sol, r, ascii) =~= wall_pieces(m, r, ascii, m.w() + 1) + line_end());
    }
}

/// The facts that wall line `r` of the still picture shows on screen row `y`.
spec fn wall_line_shown(f: Screen, m: Maze, r: int, ascii: bool, y: int) -> bool {
    &&& forall|c: int| 0 <= c <= m.w() ==> #[trigger] shows(f, 4 * c, y, m.corner_char(c, r, ascii))
    &&& forall|c: int, j: int| 0 <= c < m.w() && 1 <= j <= 3 ==> #[trigger] shows(f, 4 * c + j, y, still_h(m, r, c, ascii))
}

/// The facts that cell line `r` of the still picture shows on screen row `y`.
spec fn cell_line_shown(f: Screen, m: Maze, sol: Option<Seq<bool>>, r: int, ascii: bool, y: int) -> bool {
    &&& forall|c: int| 0 <= c <= m.w() ==> #[trigger] shows(f, 4 * c, y, still_v(m, r, c, ascii))
    &&& forall|c: int| 0 <= c < m.w() ==> #[trigger] shows(f, 4 * c + 2, y, still_centre(m, sol, c, r))
}

/// Facts about rows above the cursor survive commands that never move up.
proof fn lemma_wall_line_kept(s: Screen, f: Screen, m: Maze, r: int, ascii: bool, y: int)
    requires
        wall_line_shown(s, m, r, ascii, y),
        forall|x: int| #![trigger f.chars.dom().contains((x, y))] f.chars.dom().contains((x, y)) == s.chars.dom().contains((x, y))
            && (s.chars.dom().contains((x, y)) ==> f.chars[(x, y)] == s.chars[(x, y)]),
    ensures
        wall_line_shown(f, m, r, ascii, y),
{
    assert forall|c: int| 0 <= c <= m.w() implies #[trigger] shows(f, 4 * c, y, m.corner_char(c, r, ascii)) by {
        assert(shows(s, 4 * c, y, m.corner_char(c, r, ascii)));
        assert(f.chars.dom().contains((4 * c, y)));
    }
    assert forall|c: int, j: int| 0 <= c < m.w() && 1 <= j <= 3 implies #[trigger] shows(f, 4 * c + j, y, still_h(m, r, c, ascii)) by {
        assert(shows(s, 4 * c + j, y, still_h(m, r, c, ascii)));
        assert(f.chars.dom().contains((4 * c + j, y)));
    }
}

proof fn lemma_cell_line_kept(s: Screen, f: Screen, m: Maze, sol: Option<Seq<bool>>, r: int, ascii: bool, y: int)
    requires
        cell_line_shown(s, m, sol, r, ascii, y),
        forall|x: int| #![trigger f.chars.dom().contains((x, y))] f.chars.dom().contains((x, y)) == s.chars.dom().contains((x, y))
            && (s.chars.dom().contains((x, y)) ==> f.chars[(x, y)] == s.chars[(x, y)]),
    ensures
        cell_line_shown(f, m, sol, r, ascii, y),
{
    assert forall|c: int| 0 <= c <= m.w() implies #[trigger] shows(f, 4 * c, y, still_v(m, r, c, ascii)) by {
        assert(shows(s, 4 * c, y, still_v(m, r, c, ascii)));
        assert(f.chars.dom().contains((4 * c, y)));
    }
    assert forall|c: int| 0 <= c < m.w() implies #[trigger] shows(f, 4 * c + 2, y, still_centre(m, sol, c, r)) by {
        assert(shows(s, 4 * c + 2, y, still_centre(m, sol, c, r)));
        assert(f.chars.dom().contains((4 * c + 2, y)));
    }
}

/// The wall line of grid row `r`, from the start of a screen row, and the
/// end of that line.
proof fn lemma_still_wall_line(s: Screen, m: Maze, r: int, ascii: bool)
    requires
        m.w() >= 0,
        s.col == 0,
    ensures
        run(s, wall_pieces(m, r, ascii, m.w() + 1) + line_end()) == (Screen {
            col: 0,
            row: s.row + 1,
            chars: run(s, wall_pieces(m, r, ascii, m.w() + 1)).chars,
        }),
        wall_line_shown(run(s, wall_pieces(m, r, ascii, m.w() + 1)), m, r, ascii, s.row),
{
    let wl = wall_pieces(m, r, ascii, m.w() + 1);
    lemma_still_walls(s, m, r, ascii, m.w() + 1);
    lemma_run_concat(s, wl, line_end());
    lemma_line_end(run(s, wl));
}

/// Grid row `r` of the still picture, from the start of a screen row:
/// it ends at the start of the row two below, with its wall line on the row
/// where it began and its cell line on the row below.
proof fn lemma_still_row(s: Screen, m: Maze, sol: Option<Seq<bool>>, r: int, ascii: bool)
    requires
        0 <= r < m.h(),
        m.w() >= 0,
        s.col == 0,
    ensures
        run(s, grid_row(m, sol, r, ascii)).col == 0,
        run(s, grid_row(m, sol, r, ascii)).row == s.row + 2,
        wall_line_shown(run(s, grid_row(m, sol, r, ascii)), m, r, ascii, s.row),
        cell_line_shown(run(s, grid_row(m, sol, r, ascii)), m, sol, r, ascii, s.row + 1),
{
    let w = m.w();
    let wl = wall_pieces(m, r, ascii, w + 1);
    let cl = cell_pieces(m, sol, r, ascii, w + 1);
    assert(grid_row(m, sol, r, ascii) == (wl + line_end()) + (cl + line_end()));
    lemma_run_concat(s, wl + line_end(), cl + line_end());
    lemma_still_wall_line(s, m, r, ascii);
    let s1 = run(s, wl);
    let s2 = run(s, wl + line_end());
    lemma_run_concat(s2, cl, line_end());
    lemma_run_concat(s2, cell_pieces(m, sol, r, ascii, w), cell_piece(m, sol, r, w, ascii));
    lemma_still_cells(s2, m, sol, r, ascii, w);
    let s3 = run(s2, cell_pieces(m, sol, r, ascii, w));
    lemma_still_cell(s3, m, sol, r, w, ascii);
    let s4 = run(s2, cl);
    lemma_line_end(s4);
    let f = run(s, grid_row(m, sol, r, ascii));
    // the cell line
    assert(cell_line_shown(s4, m, sol, r, ascii, s.row + 1)) by {
        assert forall|c: int| 0 <= c <= w implies #[trigger] shows(s4, 4 * c, s.row + 1, still_v(m, r, c, ascii)) by {
            if c < w {
                assert(shows(s3, 4 * c, s2.row, still_v(m, r, c, ascii)));
                assert(s4.chars.dom().contains((4 * c, s2.row)) == s3.chars.dom().contains((4 * c, s2.row)));
            }
        }
        assert forall|c: int| 0 <= c < w implies #[trigger] shows(s4, 4 * c + 2, s.row + 1, still_centre(m, sol, c, r)) by {
            assert(shows(s3, 4 * c + 2, s2.row, still_centre(m, sol, c, r)));
            assert(s4.chars.dom().contains((4 * c + 2, s2.row)) == s3.chars.dom().contains((4 * c + 2, s2.row)));
        }
    }
    assert(f.chars == s4.chars);
    lemma_cell_line_kept(s4, f, m, sol, r, ascii, s.row + 1);
    // the wall line, above the rest
    lemma_cell_pieces_forward(m, sol, r, ascii, w + 1);
    assert(all_forward(line_end()));
    lemma_concat_forward(cl, line_end());
    lemma_forward(s2, cl + line_end());
    lemma_wall_line_kept(s1, f, m, r, ascii, s.row);
}

proof fn lemma_still_rows(s: Screen, m: Maze, sol: Option<Seq<bool>>, ascii: bool, k: int)
    requires
        0 <= k <= m.h(),
        m.w() >= 0,
        s.col == 0,
    ensures
        run(s, grid_rows(m, sol, ascii, k)).col == 0,
        run(s, grid_rows(m, sol, ascii, k)).row == s.row + 2 * k,
        forall|r: int| 0 <= r < k ==> #[trigger] wall_line_shown(run(s, grid_rows(m, sol, ascii, k)), m, r, ascii, s.row + 2 * r),
        forall|r: int| 0 <= r < k ==> #[trigger] cell_line_shown(run(s, grid_rows(m, sol, ascii, k)), m, sol, r, ascii, s.row + 2 * r + 1),
    decreases k,
{
    if k > 0 {
        lemma_still_rows(s, m, sol, ascii, k - 1);
        let s1 = run(s, grid_rows(m, sol, ascii, k - 1));
        lemma_run_concat(s, grid_rows(m, sol, ascii, k - 1), grid_row(m, sol, k - 1, ascii));
        lemma_still_row(s1, m, sol, k - 1, ascii);
        lemma_grid_row_forward(m, sol, k - 1, ascii);
        lemma_forward(s1, grid_row(m, sol, k - 1, ascii));
        let f = run(s, grid_rows(m, sol, ascii, k));
        assert forall|r: int| 0 <= r < k implies #[trigger] wall_line_shown(f, m, r, ascii, s.row + 2 * r) by {
            if r < k - 1 {
                assert(wall_line_shown(s1, m, r, ascii, s.row + 2 * r));
                lemma_wall_line_kept(s1, f, m, r, ascii, s.row + 2 * r);
            }
        }
        assert forall|r: int| 0 <= r < k implies #[trigger] cell_line_shown(f, m, sol, r, ascii, s.row + 2 * r + 1) by {
            if r < k - 1 {
                assert(cell_line_shown(s1, m, sol, r, ascii, s.row + 2 * r + 1));
                lemma_cell_line_kept(s1, f, m, sol, r, ascii, s.row + 2 * r + 1);
            }
        }
    }
}

/// The still picture of `m`, printed from any position of the screen,
/// puts grid row `r` two rows below the cursor's row `y`, at rows
/// `y + 2 + 2r` (its wall line) and `y + 3 + 2r` (its cells):
/// - column `4c` of a wall line holds the corner character of corner
///   `(c, r)`, and columns `4c + 1` to `4c + 3` hold the horizontal wall
///   `(c, r)`: dashes (`-` in ASCII, `─` otherwise) where it stands, blanks
///   where it is open;
/// - column `4c` of a cell line holds the vertical wall `(c, r)`: `|` or `│`
///   where it stands, a blank where it is open;
/// - the centre of cell `(c, r)`, column `4c + 2`, holds `S` on the top-left
///   cell, `E` on the bottom-right cell, a dot on each other cell that the
///   solution marks, and a blank on the rest. So `E` stands on the goal cell
///   alone and `S` on the start cell alone.
pub proof fn lemma_still_picture_shows_maze(s: Screen, m: Maze, sol: Option<Seq<bool>>, ascii: bool)
    requires
        m.wf(),
    ensures
        m.w() >= 1 && m.h() >= 1 ==> shows(run(s, static_plan(m, sol, ascii)), 2, s.row + 3, 'S'),
        m.w() >= 1 && m.h() >= 1 && (m.w() > 1 || m.h() > 1) ==> shows(
            run(s, static_plan(m, sol, ascii)),
            4 * (m.w() - 1) + 2,
            s.row + 2 * (m.h() - 1) + 3,
            'E',
        ),
        forall|c: int, r: int|
            0 <= c < m.w() && 0 <= r < m.h() && !(c == 0 && r == 0) && !(c == m.w() - 1 && r == m.h() - 1)
                ==> shows(
                run(s, static_plan(m, sol, ascii)),
                4 * c + 2,
                s.row + 2 * r + 3,
                if #[trigger] on_solution(m, sol, c, r) { '\u{b7}' } else { ' ' },
            ),
        forall|c: int, r: int|
            0 <= c <= m.w() && 0 <= r <= m.h() ==> shows(
                run(s, static_plan(m, sol, ascii)),
                4 * c,
                s.row + 2 * r + 2,
                #[trigger] m.corner_char(c, r, ascii),
            ),
        forall|c: int, r: int|
            0 <= c < m.w() && 0 <= r <= m.h() ==> {
                let ch = if #[trigger] m.hw(c, r) {
                    if ascii {
                        '-'
                    } else {
                        '\u{2500}'
                    }
                } else {
                    ' '
                };
                &&& shows(run(s, static_plan(m, sol, ascii)), 4 * c + 1, s.row + 2 * r + 2, ch)
                &&& shows(run(s, static_plan(m, sol, ascii)), 4 * c + 2, s.row + 2 * r + 2, ch)
                &&& shows(run(s, static_plan(m, sol, ascii)), 4 * c + 3, s.row + 2 * r + 2, ch)
            },
        forall|c: int, r: int|
            0 <= c <= m.w() && 0 <= r < m.h() ==> shows(
                run(s, static_plan(m, sol, ascii)),
                4 * c,
                s.row + 2 * r + 3,
                if #[trigger] m.vw(c, r) {
                    if ascii {
                        '|'
                    } else {
                        '\u{2502}'
                    }
                } else {
                    ' '
                },
            ),
{
    m.lemma_dims();
    let w = m.w();
    let h = m.h();
    let hd = static_header(m);
    let gr = grid_rows(m, sol, ascii, h + 1);
    let ft = static_footer(sol) + seq![Command::Flush];
    assert(static_plan(m, sol, ascii) == hd + gr + ft);
    lemma_run_concat(s, hd, gr);
    lemma_run_concat(s, hd + gr, ft);
    // the title ends at the start of the second row below
    let a = hd.take(8);
    assert(hd =~= a + seq![Command::Text("\n\n")]);
    reveal_strlit("fledge maze \u{2014} ");
    reveal_strlit("\u{d7}");
    reveal_strlit("\n\n");
    assert forall|i: int| 0 <= i < a.len() implies row_bound(#[trigger] a[i]) by {}
    lemma_row_frame(s, a);
    lemma_run_concat(s, a, seq![Command::Text("\n\n")]);
    let s1 = run(s, a);
    lemma_run_one(s1, Command::Text("\n\n"));
    assert(put_text(s1, "\n\n"@) == (Screen { col: 0, row: s.row + 2, chars: s1.chars })) by {
        reveal_with_fuel(put_text, 3);
        assert("\n\n"@.drop_first().drop_first() =~= Seq::<char>::empty());
    }
    let s2 = run(s, hd);
    let y = s2.row;
    // the grid rows with cells
    let grh = grid_rows(m, sol, ascii, h);
    lemma_run_concat(s2, grh, grid_row(m, sol, h, ascii));
    lemma_still_rows(s2, m, sol, ascii, h);
    let s3 = run(s2, grh);
    // the bottom wall line
    assert(grid_row(m, sol, h, ascii) == wall_pieces(m, h, ascii, w + 1) + line_end());
    lemma_still_wall_line(s3, m, h, ascii);
    let s3a = run(s3, wall_pieces(m, h, ascii, w + 1));
    lemma_wall_pieces_row_bound(m, h, ascii, w + 1);
    lemma_row_frame(s3, wall_pieces(m, h, ascii, w + 1));
    let s4 = run(s2, gr);
    assert(s4.chars == s3a.chars);
    // the footer lies below
    assert(all_forward(ft));
    lemma_forward(s4, ft);
    let f = run(s, static_plan(m, sol, ascii));
    lemma_wall_line_kept(s3a, f, m, h, ascii, y + 2 * h);
    assert forall|r: int| 0 <= r < h implies #[trigger] wall_line_shown(f, m, r, ascii, y + 2 * r) by {
        assert(wall_line_shown(s3, m, r, ascii, y + 2 * r));
        lemma_wall_line_kept(s3, s3a, m, r, ascii, y + 2 * r);
        lemma_wall_line_kept(s3a, f, m, r, ascii, y + 2 * r);
    }
    assert forall|r: int| 0 <= r < h implies #[trigger] cell_line_shown(f, m, sol, r, ascii, y + 2 * r + 1) by {
        assert(cell_line_shown(s3, m, sol, r, ascii, y + 2 * r + 1));
        lemma_cell_line_kept(s3, s3a, m, sol, r, ascii, y + 2 * r + 1);
        lemma_cell_line_kept(s3a, f, m, sol, r, ascii, y + 2 * r + 1);
    }
    assert forall|c: int, r: int| 0 <= c < w && 0 <= r < h implies shows(f, 4 * c + 2, s.row + 2 * r + 3, still_centre(m, sol, c, r)) by {
        assert(cell_line_shown(f, m, sol, r, ascii, y + 2 * r + 1));
    }
    if w >= 1 && h >= 1 {
        assert(shows(f, 4 * 0int + 2, s.row + 2 * 0int + 3, still_centre(m, sol, 0, 0)));
        assert(shows(f, 4 * (w - 1) + 2, s.row + 2 * (h - 1) + 3, still_centre(m, sol, w - 1, h - 1)));
    }
    assert forall|c: int, r: int|
        0 <= c < w && 0 <= r < h && !(c == 0 && r == 0) && !(c == w - 1 && r == h - 1) implies shows(
            f,
            4 * c + 2,
            s.row + 2 * r + 3,
            if #[trigger] on_solution(m, sol, c, r) { '\u{b7}' } else { ' ' },
        ) by {
        assert(shows(f, 4 * c + 2, s.row + 2 * r + 3, still_centre(m, sol, c, r)));
    }
    assert forall|c: int, r: int| 0 <= c <= w && 0 <= r <= h implies shows(
        f,
        4 * c,
        s.row + 2 * r + 2,
        #[trigger] m.corner_char(c, r, ascii),
    ) by {
        assert(wall_line_shown(f, m, r, ascii, y + 2 * r));
    }
    assert forall|c: int, r: int| 0 <= c < w && 0 <= r <= h implies {
        let ch = if #[trigger] m.hw(c, r) {
            if ascii {
                '-'
            } else {
                '\u{2500}'
            }
        } else {
            ' '
        };
        &&& shows(f, 4 * c + 1, s.row + 2 * r + 2, ch)
        &&& shows(f, 4 * c + 2, s.row + 2 * r + 2, ch)
        &&& shows(f, 4 * c + 3, s.row + 2 * r + 2, ch)
    } by {
        assert(wall_line_shown(f, m, r, ascii, y + 2 * r));
        assert(shows(f, 4 * c + 1, y + 2 * r, still_h(m, r, c, ascii)));
        assert(shows(f, 4 * c + 2, y + 2 * r, still_h(m, r, c, ascii)));
        assert(shows(f, 4 * c + 3, y + 2 * r, still_h(m, r, c, ascii)));
    }
    assert forall|c: int, r: int| 0 <= c <= w && 0 <= r < h implies shows(
        f,
        4 * c,
        s.row + 2 * r + 3,
        if #[trigger] m.vw(c, r) {
            if ascii {
                '|'
            } else {
                '\u{2502}'
            }
        } else {
            ' '
        },
    ) by {
        assert(cell_line_shown(f, m, sol, r, ascii, y + 2 * r + 1));
        assert(shows(f, 4 * c, y + 2 * r + 1, still_v(m, r, c, ascii)));
    }
}


proof fn lemma_carve_plan_centres(s: Screen, w: int, h: int, steps: Seq<CarvingStep>, delay: u64, k: int)
    requires
        0 <= k <= steps.len(),
        w * 4 + 4 <= usize::MAX,
        h * 2 + 3 <= usize::MAX,
        forall|i: int| 0 <= i < steps.len() ==> drawable_step(w, h, #[trigger] steps[i]),
        grid_shown(s, w, h, Seq::<CarvingStep>::empty()),
        centres_blank(s, w, h),
    ensures
        centres_blank(run(s, carve_plan(w, h, steps, delay, k)), w, h),
    decreases k,
{
    if k > 0 {
        lemma_carve_plan_centres(s, w, h, steps, delay, k - 1);
        lemma_carve_plan(s, w, h, steps, delay, k - 1);
        lemma_run_concat(s, carve_plan(w, h, steps, delay, k - 1), carve_step_plan(w, h, steps, k - 1, delay));
        lemma_carve_step_centres(run(s, carve_plan(w, h, steps, delay, k - 1)), w, h, steps, k - 1, delay);
    }
}


/// One of the first `k` cells of `es` is cell `(c, r)`.
pub open spec fn explored_within(es: Seq<(usize, usize)>, k: int, c: int, r: int) -> bool {
    exists|i: int| 0 <= i < k && #[trigger] es[i] == (c as usize, r as usize)
}

/// The centre of cell `(c, r)` after the first `k` explored cells were
/// shown: a dot on a cell explored off the solution, a blank otherwise.
spec fn explore_centre_ok(s: Screen, w: int, sol: Seq<bool>, es: Seq<(usize, usize)>, k: int, c: int, r: int) -> bool {
    shows_centre(s, c, r, if explored_within(es, k, c, r) && !sol[idx(w, c, r)] { '\u{b7}' } else { ' ' })
}

spec fn explore_centres(s: Screen, w: int, h: int, sol: Seq<bool>, es: Seq<(usize, usize)>, k: int) -> bool {
    forall|c: int, r: int| 0 <= c < w && 0 <= r < h ==> #[trigger] explore_centre_ok(s, w, sol, es, k, c, r)
}

proof fn lemma_explore_centres_piece(
    s: Screen,
    w: int,
    h: int,
    sol: Seq<bool>,
    es: Seq<(usize, usize)>,
    k: int,
    delay: u64,
)
    requires
        0 <= k < es.len(),
        w >= 0,
        h * 2 + 3 <= usize::MAX,
        w * 4 + 4 <= usize::MAX,
        es[k].0 * 4 + 1 <= usize::MAX,
        es[k].1 * 2 + 2 <= usize::MAX,
        explore_centres(s, w, h, sol, es, k),
    ensures
        explore_centres(run(s, explore_piece(w, sol, es[k], delay)), w, h, sol, es, k + 1),
{
    let e = es[k];
    let p = explore_piece(w, sol, e, delay);
    let f = run(s, p);
    if !sol[e.1 * w + e.0] {
        let s1 = Screen { col: e.0 * 4 + 1, row: e.1 * 2 + 2, chars: s.chars };
        reveal_strlit(" \u{b7} ");
        assert(run(s, p) == put_text(s1, " \u{b7} "@)) by {
            reveal_with_fuel(run, 6);
            assert(apply(s, p[0]) == s1);
            assert(p.drop_first().drop_first().drop_first() =~= seq![Command::Flush, Command::Sleep(delay)]);
        }
        lemma_put_text(s1, " \u{b7} "@);
    } else {
        assert(f == s);
    }
    assert forall|c: int, r: int| 0 <= c < w && 0 <= r < h implies #[trigger] explore_centre_ok(f, w, sol, es, k + 1, c, r) by {
        let x = 4 * c + 2;
        let y = 2 * r + 2;
        assert(explore_centre_ok(s, w, sol, es, k, c, r));
        if c == e.0 && r == e.1 {
            assert(es[k] == (c as usize, r as usize));
            assert(explored_within(es, k + 1, c, r));
            assert(idx(w, c, r) == e.1 * w + e.0);
            if !sol[e.1 * w + e.0] {
                let s1 = Screen { col: e.0 * 4 + 1, row: e.1 * 2 + 2, chars: s.chars };
                assert(shows(f, s1.col + 1, s1.row, " \u{b7} "@[1]));
            }
        } else {
            assert((c as usize) as int == c && (r as usize) as int == r);
            assert(es[k] != (c as usize, r as usize));
            assert(explored_within(es, k + 1, c, r) == explored_within(es, k, c, r)) by {
                if explored_within(es, k + 1, c, r) {
                    let i = choose|i: int| 0 <= i < k + 1 && #[trigger] es[i] == (c as usize, r as usize);
                    assert(i != k);
                }
            }
            if !sol[e.1 * w + e.0] {
                let s1 = Screen { col: e.0 * 4 + 1, row: e.1 * 2 + 2, chars: s.chars };
                if y == s1.row {
                    assert(!(s1.col <= x < s1.col + 3));
                }
                assert(f.chars.dom().contains((x, y)) == s.chars.dom().contains((x, y)));
            }
        }
    }
}

proof fn lemma_explore_centres(
    s: Screen,
    w: int,
    h: int,
    sol: Seq<bool>,
    es: Seq<(usize, usize)>,
    delay: u64,
    k: int,
)
    requires
        0 <= k <= es.len(),
        w >= 0,
        h * 2 + 3 <= usize::MAX,
        w * 4 + 4 <= usize::MAX,
        forall|i: int| 0 <= i < es.len() ==> (#[trigger] es[i]).0 * 4 + 1 <= usize::MAX && es[i].1 * 2 + 2 <= usize::MAX,
        centres_blank(s, w, h),
    ensures
        explore_centres(run(s, explore_plan(w, sol, es, delay, k)), w, h, sol, es, k),
    decreases k,
{
    if k == 0 {
        assert forall|c: int, r: int| 0 <= c < w && 0 <= r < h implies #[trigger] explore_centre_ok(s, w, sol, es, 0, c, r) by {
            assert(shows_centre(s, c, r, ' '));
        }
    } else {
        lemma_explore_centres(s, w, h, sol, es, delay, k - 1);
        lemma_run_concat(s, explore_plan(w, sol, es, delay, k - 1), explore_piece(w, sol, es[k - 1], delay));
        lemma_explore_centres_piece(run(s, explore_plan(w, sol, es, delay, k - 1)), w, h, sol, es, k - 1, delay);
    }
}


/// The title line changes nothing below the top row.
proof fn lemma_title_frame(s: Screen, w: int, h: int, color: Tone, tail: &'static str)
    requires
        no_newline(tail@),
    ensures
        forall|x: int, y: int|
            #![trigger run(s, anim_title(w, h, color, tail)).chars.dom().contains((x, y))]
            y != 0 ==> run(s, anim_title(w, h, color, tail)).chars.dom().contains((x, y)) == s.chars.dom().contains((x, y))
                && (s.chars.dom().contains((x, y)) ==> run(s, anim_title(w, h, color, tail)).chars[(x, y)] == s.chars[(x, y)]),
{
    let p = anim_title(w, h, color, tail);
    let rest = p.drop_first();
    assert(p =~= seq![p[0]] + rest);
    lemma_run_concat(s, seq![p[0]], rest);
    lemma_run_one(s, p[0]);
    reveal_strlit(" fledge maze \u{2014} ");
    reveal_strlit("\u{d7}");
    assert forall|i: int| 0 <= i < rest.len() implies row_bound(#[trigger] rest[i]) by {
        assert(rest[i] == p[i + 1]);
    }
    lemma_row_frame(apply(s, p[0]), rest);
}

/// Blank centres stay blank where the characters stay.
proof fn lemma_centres_kept(s: Screen, f: Screen, w: int, h: int)
    requires
        centres_blank(s, w, h),
        forall|x: int, y: int|
            #![trigger f.chars.dom().contains((x, y))]
            y >= 1 ==> f.chars.dom().contains((x, y)) == s.chars.dom().contains((x, y)) && (s.chars.dom().contains((x, y))
                ==> f.chars[(x, y)] == s.chars[(x, y)]),
    ensures
        centres_blank(f, w, h),
{
    assert forall|c: int, r: int| 0 <= c < w && 0 <= r < h implies #[trigger] shows_centre(f, c, r, ' ') by {
        assert(shows_centre(s, c, r, ' '));
        assert(f.chars.dom().contains((4 * c + 2, 2 * r + 2)));
    }
}

/// Drawing the route changes the centre of no cell off the solution.
proof fn lemma_path_piece_frame(s: Screen, w: int, h: int, sol: Seq<bool>, r0: int, c0: int)
    requires
        0 <= c0 < w,
        0 <= r0 < h,
        w * 4 + 4 <= usize::MAX,
        h * 2 + 3 <= usize::MAX,
    ensures
        forall|c: int, r: int|
            0 <= c < w && 0 <= r < h && !sol[idx(w, c, r)] ==> #[trigger] run(s, path_piece(w, h, sol, r0, c0)).chars.dom().contains((4 * c + 2, 2 * r + 2))
                == s.chars.dom().contains((4 * c + 2, 2 * r + 2)) && (s.chars.dom().contains((4 * c + 2, 2 * r + 2)) ==> run(
                s,
                path_piece(w, h, sol, r0, c0),
            ).chars[(4 * c + 2, 2 * r + 2)] == s.chars[(4 * c + 2, 2 * r + 2)]),
{
    let p = path_piece(w, h, sol, r0, c0);
    if sol[idx(w, c0, r0)] {
        let s1 = Screen { col: c0 * 4 + 1, row: r0 * 2 + 2, chars: s.chars };
        let t: &'static str = if c0 == 0 && r0 == 0 {
            " S "
        } else if c0 == w - 1 && r0 == h - 1 {
            " E "
        } else {
            " \u{25cf} "
        };
        reveal_strlit(" S ");
        reveal_strlit(" E ");
        reveal_strlit(" \u{25cf} ");
        assert(run(s, p) == put_text(s1, t@)) by {
            reveal_with_fuel(run, 6);
            assert(apply(s, p[0]) == s1);
            assert(p.drop_first().drop_first().drop_first().drop_first() =~= seq![Command::ResetAttributes]);
        }
        lemma_put_text(s1, t@);
        let f = put_text(s1, t@);
        assert forall|c: int, r: int| 0 <= c < w && 0 <= r < h && !sol[idx(w, c, r)] implies #[trigger] f.chars.dom().contains((4 * c + 2, 2 * r + 2))
            == s.chars.dom().contains((4 * c + 2, 2 * r + 2)) && (s.chars.dom().contains((4 * c + 2, 2 * r + 2))
            ==> f.chars[(4 * c + 2, 2 * r + 2)] == s.chars[(4 * c + 2, 2 * r + 2)]) by {
            if 2 * r + 2 == s1.row {
                assert(!(s1.col <= 4 * c + 2 < s1.col + 3));
            }
        }
    } else {
        assert(run(s, p) == s);
    }
}

/// A cell off the solution keeps its centre while the route is drawn.
spec fn off_route_kept(s: Screen, f: Screen, w: int, h: int, sol: Seq<bool>) -> bool {
    forall|c: int, r: int|
        0 <= c < w && 0 <= r < h && !sol[idx(w, c, r)] ==> #[trigger] f.chars.dom().contains((4 * c + 2, 2 * r + 2))
            == s.chars.dom().contains((4 * c + 2, 2 * r + 2)) && (s.chars.dom().contains((4 * c + 2, 2 * r + 2))
            ==> f.chars[(4 * c + 2, 2 * r + 2)] == s.chars[(4 * c + 2, 2 * r + 2)])
}

proof fn lemma_off_route_trans(s: Screen, t: Screen, f: Screen, w: int, h: int, sol: Seq<bool>)
    requires
        off_route_kept(s, t, w, h, sol),
        off_route_kept(t, f, w, h, sol),
    ensures
        off_route_kept(s, f, w, h, sol),
{
    assert forall|c: int, r: int| 0 <= c < w && 0 <= r < h && !sol[idx(w, c, r)] implies #[trigger] f.chars.dom().contains((4 * c + 2, 2 * r + 2))
        == s.chars.dom().contains((4 * c + 2, 2 * r + 2)) && (s.chars.dom().contains((4 * c + 2, 2 * r + 2))
        ==> f.chars[(4 * c + 2, 2 * r + 2)] == s.chars[(4 * c + 2, 2 * r + 2)]) by {
        let q = (4 * c + 2, 2 * r + 2);
        assert(t.chars.dom().contains(q) == s.chars.dom().contains(q));
        assert(f.chars.dom().contains(q) == t.chars.dom().contains(q));
        if s.chars.dom().contains(q) {
            assert(t.chars[q] == s.chars[q]);
            assert(f.chars[q] == t.chars[q]);
        }
    }
}

proof fn lemma_path_pieces_frame(s: Screen, w: int, h: int, sol: Seq<bool>, r: int, k: int)
    requires
        0 <= k <= w,
        0 <= r < h,
        w * 4 + 4 <= usize::MAX,
        h * 2 + 3 <= usize::MAX,
    ensures
        off_route_kept(s, run(s, path_pieces(w, h, sol, r, k)), w, h, sol),
    decreases k,
{
    if k == 0 {
        assert(run(s, path_pieces(w, h, sol, r, 0)) == s);
    } else {
        lemma_path_pieces_frame(s, w, h, sol, r, k - 1);
        let s1 = run(s, path_pieces(w, h, sol, r, k - 1));
        lemma_run_concat(s, path_pieces(w, h, sol, r, k - 1), path_piece(w, h, sol, r, k - 1));
        lemma_path_piece_frame(s1, w, h, sol, r, k - 1);
        lemma_off_route_trans(s, s1, run(s, path_pieces(w, h, sol, r, k)), w, h, sol);
    }
}

proof fn lemma_path_rows_frame(s: Screen, w: int, h: int, sol: Seq<bool>, k: int)
    requires
        0 <= k <= h,
        w >= 0,
        w * 4 + 4 <= usize::MAX,
        h * 2 + 3 <= usize::MAX,
    ensures
        off_route_kept(s, run(s, path_rows(w, h, sol, k)), w, h, sol),
    decreases k,
{
    if k == 0 {
        assert(run(s, path_rows(w, h, sol, 0)) == s);
    } else {
        lemma_path_rows_frame(s, w, h, sol, k - 1);
        let s1 = run(s, path_rows(w, h, sol, k - 1));
        lemma_run_concat(s, path_rows(w, h, sol, k - 1), path_pieces(w, h, sol, k - 1, w));
        lemma_path_pieces_frame(s1, w, h, sol, k - 1, w);
        lemma_off_route_trans(s, s1, run(s, path_rows(w, h, sol, k)), w, h, sol);
    }
}


/// While the animation waits for a key, the centre of each cell off the
/// solution (column `4c + 2`, row `2r + 2`) shows a dot if the search
/// explored the cell and a blank if it did not: the carving leaves every
/// cell blank, the search marks exactly the explored cells off the
/// solution, and drawing the route leaves them alone.
pub proof fn lemma_animation_shows_search(
    s: Screen,
    w: int,
    h: int,
    steps: Seq<CarvingStep>,
    sol: Seq<bool>,
    es: Seq<(usize, usize)>,
)
    requires
        w >= 0,
        h >= 0,
        w * 4 + 4 <= usize::MAX,
        h * 2 + 3 <= usize::MAX,
        forall|i: int| 0 <= i < steps.len() ==> drawable_step(w, h, #[trigger] steps[i]),
        forall|i: int| 0 <= i < es.len() ==> (#[trigger] es[i]).0 * 4 + 1 <= usize::MAX && es[i].1 * 2 + 2 <= usize::MAX,
    ensures
        ({
            let p = animated_plan(w, h, steps, sol, es);
            let f = run(s, p.take(p.len() - 12));
            forall|c: int, r: int|
                0 <= c < w && 0 <= r < h && !#[trigger] sol[idx(w, c, r)] ==> shows(
                    f,
                    4 * c + 2,
                    2 * r + 2,
                    if explored_within(es, es.len() as int, c, r) { '\u{b7}' } else { ' ' },
                )
        }),
{
    let a0 = seq![
        Command::EnterAlternateScreen,
        Command::HideCursor,
        Command::ClearAll,
        Command::EnableRawMode,
    ];
    let g = full_grid_plan(w, h, Tone::DarkGrey);
    let t1 = anim_title(w, h, Tone::DarkCyan, " \u{2014} generating...");
    let q1 = seq![Command::Flush, Command::Sleep(500)];
    let cv = carve_plan(w, h, steps, carve_delay(w, h), steps.len() as int);
    let t2 = anim_title(w, h, Tone::DarkCyan, " \u{2014} solving...       ");
    let q2 = seq![Command::Flush, Command::Sleep(300)];
    let ex = explore_plan(w, sol, es, explore_delay(es.len() as int), es.len() as int);
    let q3 = seq![Command::Sleep(200)];
    let pr = path_rows(w, h, sol, h);
    let fin = anim_finish(w, h, count_true(sol));
    let p = animated_plan(w, h, steps, sol, es);
    let x1 = a0 + g;
    let x2 = x1 + t1;
    let x3 = x2 + q1;
    let x4 = x3 + cv;
    let x5 = x4 + t2;
    let x6 = x5 + q2;
    let x7 = x6 + ex;
    let x8 = x7 + q3;
    let x9 = x8 + pr;
    assert(p == x9 + fin);
    assert(fin.len() == 29);
    assert(p.take(p.len() - 12) =~= x9 + fin.take(17));
    let e = Seq::<CarvingStep>::empty();
    reveal_strlit(" \u{2014} generating...");
    reveal_strlit(" \u{2014} solving...       ");
    // the fully walled grid: every centre blank
    lemma_run_concat(s, a0, g);
    lemma_full_grid_plan(run(s, a0), w, h, Tone::DarkGrey);
    // the first title and pause
    lemma_run_concat(s, x1, t1);
    lemma_title_keeps(run(s, x1), w, h, e, Tone::DarkCyan, " \u{2014} generating...");
    lemma_title_frame(run(s, x1), w, h, Tone::DarkCyan, " \u{2014} generating...");
    lemma_centres_kept(run(s, x1), run(s, x2), w, h);
    lemma_run_concat(s, x2, q1);
    lemma_quiet(run(s, x2), q1);
    // carving leaves every centre blank
    lemma_run_concat(s, x3, cv);
    lemma_carve_plan_centres(run(s, x3), w, h, steps, carve_delay(w, h), steps.len() as int);
    // the second title and pause
    lemma_run_concat(s, x4, t2);
    lemma_title_frame(run(s, x4), w, h, Tone::DarkCyan, " \u{2014} solving...       ");
    lemma_centres_kept(run(s, x4), run(s, x5), w, h);
    lemma_run_concat(s, x5, q2);
    lemma_quiet(run(s, x5), q2);
    // the search
    lemma_run_concat(s, x6, ex);
    lemma_explore_centres(run(s, x6), w, h, sol, es, explore_delay(es.len() as int), es.len() as int);
    lemma_run_concat(s, x7, q3);
    lemma_quiet(run(s, x7), q3);
    let s8 = run(s, x8);
    // the route
    lemma_run_concat(s, x8, pr);
    lemma_path_rows_frame(s8, w, h, sol, h);
    let s9 = run(s, x9);
    // the end, up to the wait, writes on rows 0 and 2h + 3 only
    lemma_run_concat(s, x9, fin.take(17));
    let ft = fin.take(17);
    let a = ft.subrange(1, 12);
    let b = ft.subrange(13, 17);
    assert(ft =~= seq![ft[0]] + a + seq![ft[12]] + b);
    reveal_strlit(" fledge maze \u{2014} ");
    reveal_strlit("\u{d7}");
    reveal_strlit(" \u{2014} solved! (");
    reveal_strlit(" steps)   ");
    reveal_strlit("Press any key to exit...");
    lemma_run_concat(s9, seq![ft[0]] + a + seq![ft[12]], b);
    lemma_run_concat(s9, seq![ft[0]] + a, seq![ft[12]]);
    lemma_run_concat(s9, seq![ft[0]], a);
    lemma_run_one(s9, ft[0]);
    let u1 = apply(s9, ft[0]);
    assert forall|i: int| 0 <= i < a.len() implies row_bound(#[trigger] a[i]) by {
        assert(a[i] == ft[i + 1]);
    }
    lemma_row_frame(u1, a);
    let u2 = run(u1, a);
    lemma_run_one(u2, ft[12]);
    let u3 = apply(u2, ft[12]);
    assert forall|i: int| 0 <= i < b.len() implies row_bound(#[trigger] b[i]) by {
        assert(b[i] == ft[i + 13]);
    }
    lemma_row_frame(u3, b);
    let f = run(u3, b);
    assert(f == run(s, p.take(p.len() - 12)));
    assert forall|c: int, r: int|
        0 <= c < w && 0 <= r < h && !#[trigger] sol[idx(w, c, r)] implies shows(
            f,
            4 * c + 2,
            2 * r + 2,
            if explored_within(es, es.len() as int, c, r) { '\u{b7}' } else { ' ' },
        ) by {
        let q = (4 * c + 2, 2 * r + 2);
        assert(explore_centre_ok(s8, w, sol, es, es.len() as int, c, r));
        assert(s9.chars.dom().contains(q) == s8.chars.dom().contains(q));
        assert(s9.chars[q] == s8.chars[q]);
        assert(u1.chars == s9.chars);
        assert(u2.chars.dom().contains(q) == u1.chars.dom().contains(q));
        assert(u2.chars[q] == u1.chars[q]);
        assert(f.chars.dom().contains(q) == u3.chars.dom().contains(q));
        assert(f.chars[q] == u3.chars[q]);
    }
}

} // verus!
