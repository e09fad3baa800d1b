//! Drawing plans: the exact sequence of terminal commands that draws a maze,
//! its solution and the animation of carving and solving it. Carrying the
//! commands out on a terminal is left to the caller.

use vstd::prelude::*;
use crate::grid::{idx, count_true, lemma_idx_bounds};
use crate::maze::{Maze, corner_glyph};
use crate::generate::{CarvingStep, WallKind, opened_h, opened_v, carved_from, lemma_carved_push_h, lemma_carved_push_v};

verus! {

/// The colours the drawings use.
#[derive(Clone, Copy, Debug, PartialEq, Eq)]
pub enum Tone {
    White,
    Cyan,
    DarkCyan,
    Green,
    DarkGreen,
    Red,
    DarkGrey,
    Yellow,
    DarkBlue,
}

/// One terminal command.
#[derive(Clone, Copy, Debug, PartialEq, Eq)]
pub enum Command {
    /// Set the foreground colour.
    SetColor(Tone),
    /// Reset the foreground colour.
    ResetColor,
    /// Switch to bold text.
    Bold,
    /// Reset all text attributes.
    ResetAttributes,
    /// Print text.
    Text(&'static str),
    /// Print one character.
    Char(char),
    /// Print a number in decimal.
    Number(usize),
    /// Move the cursor to column, row.
    MoveTo(usize, usize),
    /// Flush the output.
    Flush,
    /// Wait this many milliseconds.
    Sleep(u64),
    EnterAlternateScreen,
    LeaveAlternateScreen,
    HideCursor,
    ShowCursor,
    ClearAll,
    EnableRawMode,
    DisableRawMode,
    /// Wait for a key press, giving up after thirty seconds without input.
    WaitForKey,
}

// ---------------------------------------------------------------------------
// The still picture

/// The colour of walls in the still picture.
pub open spec fn wall_tone(ascii: bool) -> Tone {
    if ascii {
        Tone::White
    } else {
        Tone::Cyan
    }
}

pub open spec fn h_wall_text(ascii: bool) -> &'static str {
    if ascii {
        "---"
    } else {
        "\u{2500}\u{2500}\u{2500}"
    }
}

pub open spec fn v_wall_char(ascii: bool) -> char {
    if ascii {
        '|'
    } else {
        '\u{2502}'
    }
}

/// The title line of the still picture.
pub open spec fn static_header(m: Maze) -> Seq<Command> {
    seq![
        Command::SetColor(Tone::DarkCyan),
        Command::Bold,
        Command::Text("fledge maze \u{2014} "),
        Command::Number(m.w() as usize),
        Command::Text("\u{d7}"),
        Command::Number(m.h() as usize),
        Command::ResetAttributes,
        Command::ResetColor,
        Command::Text("\n\n"),
    ]
}

/// The corner at column `c` of wall line `r`, and the wall to its right.
pub open spec fn wall_piece(m: Maze, r: int, c: int, ascii: bool) -> Seq<Command> {
    seq![Command::SetColor(wall_tone(ascii)), Command::Char(m.corner_char(c, r, ascii))] + if c < m.w() {
        if m.hw(c, r) {
            seq![Command::Text(h_wall_text(ascii))]
        } else {
            seq![Command::ResetColor, Command::Text("   ")]
        }
    } else {
        Seq::empty()
    }
}

/// The first `k` pieces of wall line `r`.
pub open spec fn wall_pieces(m: Maze, r: int, ascii: bool, k: int) -> Seq<Command>
    decreases k,
{
    if k <= 0 {
        Seq::empty()
    } else {
        wall_pieces(m, r, ascii, k - 1) + wall_piece(m, r, k - 1, ascii)
    }
}

pub open spec fn line_end() -> Seq<Command> {
    seq![Command::ResetColor, Command::Char('\n')]
}

/// Whether cell `(c, r)` is marked in the solution, if there is one.
pub open spec fn on_solution(m: Maze, sol: Option<Seq<bool>>, c: int, r: int) -> bool {
    match sol {
        Some(s) => s[idx(m.w(), c, r)],
        None => false,
    }
}

/// The inside of cell `(c, r)`: start, end, a route dot, or blank.
pub open spec fn cell_inside(m: Maze, sol: Option<Seq<bool>>, r: int, c: int) -> Seq<Command> {
    if c == 0 && r == 0 {
        seq![Command::SetColor(Tone::Green), Command::Bold, Command::Text(" S "), Command::ResetAttributes]
    } else if c == m.w() - 1 && r == m.h() - 1 {
        seq![Command::SetColor(Tone::Red), Command::Bold, Command::Text(" E "), Command::ResetAttributes]
    } else if on_solution(m, sol, c, r) {
        seq![Command::SetColor(Tone::Green), Command::Text(" \u{b7} ")]
    } else {
        seq![Command::ResetColor, Command::Text("   ")]
    }
}

/// The wall left of column `c` in cell line `r`, and the cell there.
pub open spec fn cell_piece(m: Maze, sol: Option<Seq<bool>>, r: int, c: int, ascii: bool) -> Seq<Command> {
    (if m.vw(c, r) {
        seq![Command::SetColor(wall_tone(ascii)), Command::Char(v_wall_char(ascii))]
    } else {
        seq![Command::ResetColor, Command::Char(' ')]
    }) + if c < m.w() {
        cell_inside(m, sol, r, c)
    } else {
        Seq::empty()
    }
}

/// The first `k` pieces of cell line `r`.
pub open spec fn cell_pieces(m: Maze, sol: Option<Seq<bool>>, r: int, ascii: bool, k: int) -> Seq<Command>
    decreases k,
{
    if k <= 0 {
        Seq::empty()
    } else {
        cell_pieces(m, sol, r, ascii, k - 1) + cell_piece(m, sol, r, k - 1, ascii)
    }
}

/// Wall line `r` and, below it unless it is the bottom one, cell line `r`.
pub open spec fn grid_row(m: Maze, sol: Option<Seq<bool>>, r: int, ascii: bool) -> Seq<Command> {
    wall_pieces(m, r, ascii, m.w() + 1) + line_end() + if r < m.h() {
        cell_pieces(m, sol, r, ascii, m.w() + 1) + line_end()
    } else {
        Seq::empty()
    }
}

/// The first `k` rows of the grid.
pub open spec fn grid_rows(m: Maze, sol: Option<Seq<bool>>, ascii: bool, k: int) -> Seq<Command>
    decreases k,
{
    if k <= 0 {
        Seq::empty()
    } else {
        grid_rows(m, sol, ascii, k - 1) + grid_row(m, sol, k - 1, ascii)
    }
}

/// The line under the grid that gives the length of the solution.
pub open spec fn static_footer(sol: Option<Seq<bool>>) -> Seq<Command> {
    match sol {
        Some(s) => seq![
            Command::Char('\n'),
            Command::SetColor(Tone::DarkGreen),
            Command::Text("Path: top-left \u{2192} bottom-right ("),
            Command::Number(count_true(s) as usize),
            Command::Text(" steps)\n"),
            Command::ResetColor,
        ],
        None => Seq::empty(),
    }
}

/// The whole still picture.
pub open spec fn static_plan(m: Maze, sol: Option<Seq<bool>>, ascii: bool) -> Seq<Command> {
    static_header(m) + grid_rows(m, sol, ascii, m.h() + 1) + static_footer(sol) + seq![Command::Flush]
}

pub open spec fn sol_view(solution: Option<&[bool]>) -> Option<Seq<bool>> {
    match solution {
        Some(s) => Some(s@),
        None => None,
    }
}

/// How many entries of `s` are `true`.
pub fn count_marked(s: &[bool]) -> (n: usize)
    ensures
        n == count_true(s@),
{
    let mut n: usize = 0;
    let mut i: usize = 0;
    while i < s.len()
        invariant
            i <= s@.len(),
            n == count_true(s@.subrange(0, i as int)),
            n <= i,
        decreases s@.len() - i,
    {
        assert(s@.subrange(0, i + 1).drop_last() =~= s@.subrange(0, i as int));
        if s[i] {
            n = n + 1;
        }
        i = i + 1;
    }
    assert(s@.subrange(0, s@.len() as int) =~= s@);
    n
}

fn wall_piece_cmds(maze: &Maze, row: usize, col: usize, ascii: bool) -> (v: Vec<Command>)
    requires
        maze.wf(),
        row <= maze.h(),
        col <= maze.w(),
    ensures
        v@ == wall_piece(*maze, row as int, col as int, ascii),
{
    let wall_color = if ascii { Tone::White } else { Tone::Cyan };
    let mut v: Vec<Command> = Vec::new();
    v.push(Command::SetColor(wall_color));
    v.push(Command::Char(maze.intersection_char(col, row, ascii)));
    if col < maze.width() {
        if maze.h_wall(col, row) {
            v.push(Command::Text(if ascii { "---" } else { "\u{2500}\u{2500}\u{2500}" }));
        } else {
            v.push(Command::ResetColor);
            v.push(Command::Text("   "));
        }
    }
    assert(v@ =~= wall_piece(*maze, row as int, col as int, ascii));
    v
}

fn cell_piece_cmds(maze: &Maze, solution: Option<&[bool]>, row: usize, col: usize, ascii: bool) -> (v: Vec<Command>)
    requires
        maze.wf(),
        row < maze.h(),
        col <= maze.w(),
        solution matches Some(s) ==> s@.len() >= maze.w() * maze.h(),
    ensures
        v@ == cell_piece(*maze, sol_view(solution), row as int, col as int, ascii),
{
    let mw = maze.width();
    let mh = maze.height();
    let wall_color = if ascii { Tone::White } else { Tone::Cyan };
    let mut v: Vec<Command> = Vec::new();
    if maze.v_wall(col, row) {
        v.push(Command::SetColor(wall_color));
        v.push(Command::Char(if ascii { '|' } else { '\u{2502}' }));
    } else {
        v.push(Command::ResetColor);
        v.push(Command::Char(' '));
    }
    if col < mw {
        proof {
            lemma_idx_bounds(mw as int, mh as int, col as int, row as int);
            maze.lemma_dims();
        }
        let cidx = row * mw + col;
        let is_start = col == 0 && row == 0;
        let is_end = col == mw - 1 && row == mh - 1;
        let on_path = match solution {
            Some(s) => s[cidx],
            None => false,
        };
        if is_start {
            v.push(Command::SetColor(Tone::Green));
            v.push(Command::Bold);
            v.push(Command::Text(" S "));
            v.push(Command::ResetAttributes);
        } else if is_end {
            v.push(Command::SetColor(Tone::Red));
            v.push(Command::Bold);
            v.push(Command::Text(" E "));
            v.push(Command::ResetAttributes);
        } else if on_path {
            v.push(Command::SetColor(Tone::Green));
            v.push(Command::Text(" \u{b7} "));
        } else {
            v.push(Command::ResetColor);
            v.push(Command::Text("   "));
        }
    }
    assert(v@ =~= cell_piece(*maze, sol_view(solution), row as int, col as int, ascii));
    v
}

/// The terminal commands that draw the maze as a still picture: a title,
/// the grid of walls and cells (start `S`, end `E`, and a dot on each cell
/// that `solution` marks), and, with a solution, a line with its length.
pub fn render_static(maze: &Maze, solution: Option<&[bool]>, ascii: bool) -> (plan: Vec<Command>)
    requires
        maze.wf(),
        solution matches Some(s) ==> s@.len() >= maze.w() * maze.h(),
    ensures
        plan@ == static_plan(*maze, sol_view(solution), ascii),
{
    proof {
        maze.lemma_dims();
    }
    let mw = maze.width();
    let mh = maze.height();
    let ghost m = *maze;
    let ghost sol = sol_view(solution);
    let mut out: Vec<Command> = Vec::new();
    out.push(Command::SetColor(Tone::DarkCyan));
    out.push(Command::Bold);
    out.push(Command::Text("fledge maze \u{2014} "));
    out.push(Command::Number(mw));
    out.push(Command::Text("\u{d7}"));
    out.push(Command::Number(mh));
    out.push(Command::ResetAttributes);
    out.push(Command::ResetColor);
    out.push(Command::Text("\n\n"));
    assert(out@ =~= static_header(m));
    let mut row: usize = 0;
    while row <= mh
        invariant
            maze.wf(),
            m == *maze,
            sol == sol_view(solution),
            mw == maze.w(),
            mh == maze.h(),
            mh < usize::MAX,
            mw < usize::MAX,
            solution matches Some(s) ==> s@.len() >= maze.w() * maze.h(),
            row <= mh + 1,
            out@ == static_header(m) + grid_rows(m, sol, ascii, row as int),
        decreases mh + 1 - row,
    {
        let ghost before = out@;
        let mut col: usize = 0;
        while col <= mw
            invariant
                maze.wf(),
                m == *maze,
                mw == maze.w(),
                mh == maze.h(),
                mw < usize::MAX,
                row <= mh,
                col <= mw + 1,
                out@ == before + wall_pieces(m, row as int, ascii, col as int),
            decreases mw + 1 - col,
        {
            let mut piece = wall_piece_cmds(maze, row, col, ascii);
            out.append(&mut piece);
            assert(out@ =~= before + wall_pieces(m, row as int, ascii, col + 1));
            col = col + 1;
        }
        out.push(Command::ResetColor);
        out.push(Command::Char('\n'));
        if row < mh {
            let ghost mid = out@;
            let mut col: usize = 0;
            while col <= mw
                invariant
                    maze.wf(),
                    m == *maze,
                    sol == sol_view(solution),
                    mw == maze.w(),
                    mh == maze.h(),
                    mw < usize::MAX,
                    row < mh,
                    col <= mw + 1,
                    solution matches Some(s) ==> s@.len() >= maze.w() * maze.h(),
                    out@ == mid + cell_pieces(m, sol, row as int, ascii, col as int),
                decreases mw + 1 - col,
            {
                let mut piece = cell_piece_cmds(maze, solution, row, col, ascii);
                out.append(&mut piece);
                assert(out@ =~= mid + cell_pieces(m, sol, row as int, ascii, col + 1));
                col = col + 1;
            }
            out.push(Command::ResetColor);
            out.push(Command::Char('\n'));
        }
        assert(out@ =~= static_header(m) + grid_rows(m, sol, ascii, row + 1));
        row = row + 1;
    }
    match solution {
        Some(s) => {
            let path_count = count_marked(s);
            out.push(Command::Char('\n'));
            out.push(Command::SetColor(Tone::DarkGreen));
            out.push(Command::Text("Path: top-left \u{2192} bottom-right ("));
            out.push(Command::Number(path_count));
            out.push(Command::Text(" steps)\n"));
            out.push(Command::ResetColor);
        },
        None => {},
    }
    out.push(Command::Flush);
    assert(out@ =~= static_plan(m, sol, ascii));
    out
}

// ---------------------------------------------------------------------------
// The animation

/// The corner at column `c` of wall line `r`, and the wall to its right, in
/// the fully walled grid that the animation starts from.
pub open spec fn full_grid_corner(width: int, r: int, c: int, color: Tone) -> Seq<Command> {
    seq![
        Command::MoveTo((c * 4) as usize, (r * 2 + 1) as usize),
        Command::SetColor(color),
        Command::Char('\u{253c}'),
    ] + if c < width {
        seq![Command::Text("\u{2500}\u{2500}\u{2500}")]
    } else {
        Seq::empty()
    }
}

/// The wall left of column `c` in cell line `r`, and the blank cell there.
pub open spec fn full_grid_side(width: int, r: int, c: int, color: Tone) -> Seq<Command> {
    seq![
        Command::MoveTo((c * 4) as usize, (r * 2 + 2) as usize),
        Command::SetColor(color),
        Command::Char('\u{2502}'),
    ] + if c < width {
        seq![Command::ResetColor, Command::Text("   ")]
    } else {
        Seq::empty()
    }
}

pub open spec fn full_grid_corners(width: int, r: int, color: Tone, k: int) -> Seq<Command>
    decreases k,
{
    if k <= 0 {
        Seq::empty()
    } else {
        full_grid_corners(width, r, color, k - 1) + full_grid_corner(width, r, k - 1, color)
    }
}

pub open spec fn full_grid_sides(width: int, r: int, color: Tone, k: int) -> Seq<Command>
    decreases k,
{
    if k <= 0 {
        Seq::empty()
    } else {
        full_grid_sides(width, r, color, k - 1) + full_grid_side(width, r, k - 1, color)
    }
}

pub open spec fn full_grid_row(width: int, height: int, r: int, color: Tone) -> Seq<Command> {
    full_grid_corners(width, r, color, width + 1) + if r < height {
        full_grid_sides(width, r, color, width + 1)
    } else {
        Seq::empty()
    }
}

pub open spec fn full_grid_rows(width: int, height: int, color: Tone, k: int) -> Seq<Command>
    decreases k,
{
    if k <= 0 {
        Seq::empty()
    } else {
        full_grid_rows(width, height, color, k - 1) + full_grid_row(width, height, k - 1, color)
    }
}

/// The commands that draw a fully walled grid of `width` x `height` cells
/// below the title line.
pub open spec fn full_grid_plan(width: int, height: int, color: Tone) -> Seq<Command> {
    full_grid_rows(width, height, color, height + 1) + seq![Command::Flush]
}

/// Draws a fully walled grid of `width` x `height` cells, starting at
/// terminal row 1 (row 0 is the title).
pub fn draw_full_grid(width: usize, height: usize, color: Tone) -> (plan: Vec<Command>)
    requires
        width * 4 + 4 <= usize::MAX,
        height * 2 + 3 <= usize::MAX,
    ensures
        plan@ == full_grid_plan(width as int, height as int, color),
{
    let mut out: Vec<Command> = Vec::new();
    let mut row: usize = 0;
    while row <= height
        invariant
            width * 4 + 4 <= usize::MAX,
            height * 2 + 3 <= usize::MAX,
            row <= height + 1,
            out@ == full_grid_rows(width as int, height as int, color, row as int),
        decreases height + 1 - row,
    {
        let ghost before = out@;
        let tr = row * 2 + 1;
        let mut col: usize = 0;
        while col <= width
            invariant
                width * 4 + 4 <= usize::MAX,
                height * 2 + 3 <= usize::MAX,
                row <= height,
                tr == row * 2 + 1,
                col <= width + 1,
                out@ == before + full_grid_corners(width as int, row as int, color, col as int),
            decreases width + 1 - col,
        {
            out.push(Command::MoveTo(col * 4, tr));
            out.push(Command::SetColor(color));
            out.push(Command::Char('\u{253c}'));
            if col < width {
                out.push(Command::Text("\u{2500}\u{2500}\u{2500}"));
            }
            assert(out@ =~= before + full_grid_corners(width as int, row as int, color, col + 1));
            col = col + 1;
        }
        if row < height {
            let ghost mid = out@;
            let tr2 = row * 2 + 2;
            let mut col: usize = 0;
            while col <= width
                invariant
                    width * 4 + 4 <= usize::MAX,
                    height * 2 + 3 <= usize::MAX,
                    row < height,
                    tr2 == row * 2 + 2,
                    col <= width + 1,
                    out@ == mid + full_grid_sides(width as int, row as int, color, col as int),
                decreases width + 1 - col,
            {
                out.push(Command::MoveTo(col * 4, tr2));
                out.push(Command::SetColor(color));
                out.push(Command::Char('\u{2502}'));
                if col < width {
                    out.push(Command::ResetColor);
                    out.push(Command::Text("   "));
                }
                assert(out@ =~= mid + full_grid_sides(width as int, row as int, color, col + 1));
                col = col + 1;
            }
        }
        assert(out@ =~= full_grid_rows(width as int, height as int, color, row + 1));
        row = row + 1;
    }
    out.push(Command::Flush);
    out
}

/// The commands that redraw wall corner `(col, row)` as character `ch`.
pub open spec fn corner_redraw(col: int, row: int, ch: char, color: Tone) -> Seq<Command> {
    seq![
        Command::MoveTo((col * 4) as usize, (row * 2 + 1) as usize),
        Command::SetColor(color),
        Command::Char(ch),
    ]
}

/// Redraws wall corner `(col, row)` of `maze` with its box-drawing character.
pub fn redraw_intersection(maze: &Maze, col: usize, row: usize, color: Tone) -> (plan: Vec<Command>)
    requires
        maze.wf(),
        col <= maze.w(),
        row <= maze.h(),
        col * 4 <= usize::MAX,
        row * 2 + 1 <= usize::MAX,
    ensures
        plan@ == corner_redraw(col as int, row as int, maze.corner_char(col as int, row as int, false), color),
{
    let tc = col * 4;
    let tr = row * 2 + 1;
    let ch = maze.intersection_char(col, row, false);
    let mut out: Vec<Command> = Vec::new();
    out.push(Command::MoveTo(tc, tr));
    out.push(Command::SetColor(color));
    out.push(Command::Char(ch));
    assert(out@ =~= corner_redraw(col as int, row as int, ch, color));
    out
}

/// The corner character at `(col, row)` of a `w` x `h` grid, fully walled
/// at first, once `done` have taken their walls down.
pub open spec fn carved_corner(w: int, h: int, done: Seq<CarvingStep>, col: int, row: int) -> char {
    corner_glyph(
        row > 0 && !opened_v(done, col, row - 1),
        row < h && !opened_v(done, col, row),
        col > 0 && !opened_h(done, col - 1, row),
        col < w && !opened_h(done, col, row),
    )
}

/// The pause between two carving steps, by grid size.
pub open spec fn carve_delay(w: int, h: int) -> u64 {
    if w * h > 200 {
        8
    } else if w * h > 100 {
        15
    } else {
        25
    }
}

/// Showing step `k`: mark its cell, clear the wall it opens and redraw the
/// two corners at the ends of that wall, pause, unmark the cell.
pub open spec fn carve_step_plan(w: int, h: int, steps: Seq<CarvingStep>, k: int, delay: u64) -> Seq<Command> {
    let s = steps[k];
    let done = steps.take(k + 1);
    let tc = (s.cell.0 * 4 + 1) as usize;
    let tr = (s.cell.1 * 2 + 2) as usize;
    let wx = s.wall_pos.0 as int;
    let wy = s.wall_pos.1 as int;
    seq![
        Command::MoveTo(tc, tr),
        Command::SetColor(Tone::Yellow),
        Command::Bold,
        Command::Text(" \u{25c6} "),
        Command::ResetAttributes,
    ] + match s.wall_kind {
        WallKind::H => seq![
            Command::MoveTo((wx * 4 + 1) as usize, (wy * 2 + 1) as usize),
            Command::SetColor(Tone::Cyan),
            Command::Text("   "),
        ] + corner_redraw(wx, wy, carved_corner(w, h, done, wx, wy), Tone::Cyan) + corner_redraw(
            wx + 1,
            wy,
            carved_corner(w, h, done, wx + 1, wy),
            Tone::Cyan,
        ),
        WallKind::V => seq![
            Command::MoveTo((wx * 4) as usize, (wy * 2 + 2) as usize),
            Command::SetColor(Tone::Cyan),
            Command::Char(' '),
        ] + corner_redraw(wx, wy, carved_corner(w, h, done, wx, wy), Tone::Cyan) + corner_redraw(
            wx,
            wy + 1,
            carved_corner(w, h, done, wx, wy + 1),
            Tone::Cyan,
        ),
    } + seq![
        Command::Flush,
        Command::Sleep(delay),
        Command::MoveTo(tc, tr),
        Command::ResetColor,
        Command::Text("   "),
    ]
}

pub open spec fn carve_plan(w: int, h: int, steps: Seq<CarvingStep>, delay: u64, k: int) -> Seq<Command>
    decreases k,
{
    if k <= 0 {
        Seq::empty()
    } else {
        carve_plan(w, h, steps, delay, k - 1) + carve_step_plan(w, h, steps, k - 1, delay)
    }
}

/// A step whose cell and wall the animation can draw on a `w` x `h` grid.
pub open spec fn drawable_step(w: int, h: int, s: CarvingStep) -> bool {
    &&& s.cell.0 * 4 + 1 <= usize::MAX
    &&& s.cell.1 * 2 + 2 <= usize::MAX
    &&& match s.wall_kind {
        WallKind::H => s.wall_pos.0 < w && s.wall_pos.1 <= h,
        WallKind::V => s.wall_pos.0 <= w && s.wall_pos.1 < h,
    }
}

/// The pause between two explored cells, by how many there are.
pub open spec fn explore_delay(n: int) -> u64 {
    if n > 200 {
        5
    } else {
        15
    }
}

/// Showing explored cell `e`, unless it lies on the solution.
pub open spec fn explore_piece(w: int, sol: Seq<bool>, e: (usize, usize), delay: u64) -> Seq<Command> {
    if !sol[e.1 * w + e.0] {
        seq![
            Command::MoveTo((e.0 * 4 + 1) as usize, (e.1 * 2 + 2) as usize),
            Command::SetColor(Tone::DarkBlue),
            Command::Text(" \u{b7} "),
            Command::Flush,
            Command::Sleep(delay),
        ]
    } else {
        Seq::empty()
    }
}

pub open spec fn explore_plan(w: int, sol: Seq<bool>, es: Seq<(usize, usize)>, delay: u64, k: int) -> Seq<Command>
    decreases k,
{
    if k <= 0 {
        Seq::empty()
    } else {
        explore_plan(w, sol, es, delay, k - 1) + explore_piece(w, sol, es[k - 1], delay)
    }
}

/// Marking cell `(c, r)` if it lies on the solution: `S`, `E` or a dot.
pub open spec fn path_piece(w: int, h: int, sol: Seq<bool>, r: int, c: int) -> Seq<Command> {
    let at = Command::MoveTo((c * 4 + 1) as usize, (r * 2 + 2) as usize);
    if sol[idx(w, c, r)] {
        if c == 0 && r == 0 {
            seq![at, Command::SetColor(Tone::Green), Command::Bold, Command::Text(" S "), Command::ResetAttributes]
        } else if c == w - 1 && r == h - 1 {
            seq![at, Command::SetColor(Tone::Red), Command::Bold, Command::Text(" E "), Command::ResetAttributes]
        } else {
            seq![at, Command::SetColor(Tone::Green), Command::Bold, Command::Text(" \u{25cf} "), Command::ResetAttributes]
        }
    } else {
        Seq::empty()
    }
}

pub open spec fn path_pieces(w: int, h: int, sol: Seq<bool>, r: int, k: int) -> Seq<Command>
    decreases k,
{
    if k <= 0 {
        Seq::empty()
    } else {
        path_pieces(w, h, sol, r, k - 1) + path_piece(w, h, sol, r, k - 1)
    }
}

pub open spec fn path_rows(w: int, h: int, sol: Seq<bool>, k: int) -> Seq<Command>
    decreases k,
{
    if k <= 0 {
        Seq::empty()
    } else {
        path_rows(w, h, sol, k - 1) + path_pieces(w, h, sol, k - 1, w)
    }
}

/// The title line of the animation, in `color`, with `tail` after the size.
pub open spec fn anim_title(w: int, h: int, color: Tone, tail: &'static str) -> Seq<Command> {
    seq![
        Command::MoveTo(0, 0),
        Command::SetColor(color),
        Command::Bold,
        Command::Text(" fledge maze \u{2014} "),
        Command::Number(w as usize),
        Command::Text("\u{d7}"),
        Command::Number(h as usize),
        Command::Text(tail),
        Command::ResetAttributes,
        Command::ResetColor,
    ]
}

/// The end of the animation: the final title, the exit hint, the wait for a
/// key, leaving the alternate screen and a summary line.
pub open spec fn anim_finish(w: int, h: int, count: nat) -> Seq<Command> {
    seq![
        Command::MoveTo(0, 0),
        Command::SetColor(Tone::Green),
        Command::Bold,
        Command::Text(" fledge maze \u{2014} "),
        Command::Number(w as usize),
        Command::Text("\u{d7}"),
        Command::Number(h as usize),
        Command::Text(" \u{2014} solved! ("),
        Command::Number(count as usize),
        Command::Text(" steps)   "),
        Command::ResetAttributes,
        Command::ResetColor,
        Command::MoveTo(0, (h * 2 + 3) as usize),
        Command::SetColor(Tone::DarkGrey),
        Command::Text("Press any key to exit..."),
        Command::ResetColor,
        Command::Flush,
        Command::WaitForKey,
        Command::DisableRawMode,
        Command::ShowCursor,
        Command::LeaveAlternateScreen,
        Command::Text("Maze "),
        Command::Number(w as usize),
        Command::Text("\u{d7}"),
        Command::Number(h as usize),
        Command::Text(" \u{2014} solved in "),
        Command::Number(count as usize),
        Command::Text(" steps\n"),
        Command::Flush,
    ]
}

/// The whole animation.
pub open spec fn animated_plan(
    w: int,
    h: int,
    steps: Seq<CarvingStep>,
    sol: Seq<bool>,
    es: Seq<(usize, usize)>,
) -> Seq<Command> {
    seq![
        Command::EnterAlternateScreen,
        Command::HideCursor,
        Command::ClearAll,
        Command::EnableRawMode,
    ] + full_grid_plan(w, h, Tone::DarkGrey) + anim_title(w, h, Tone::DarkCyan, " \u{2014} generating...")
        + seq![Command::Flush, Command::Sleep(500)] + carve_plan(
        w,
        h,
        steps,
        carve_delay(w, h),
        steps.len() as int,
    ) + anim_title(w, h, Tone::DarkCyan, " \u{2014} solving...       ") + seq![
        Command::Flush,
        Command::Sleep(300),
    ] + explore_plan(w, sol, es, explore_delay(es.len() as int), es.len() as int) + seq![
        Command::Sleep(200),
    ] + path_rows(w, h, sol, h) + anim_finish(w, h, count_true(sol))
}

/// In a maze carved from a fully walled one, the corner characters are those
/// that the opened walls leave.
pub(crate) proof fn lemma_carved_corner(m0: Maze, m: Maze, done: Seq<CarvingStep>, col: int, row: int)
    requires
        forall|c: int, r: int| 0 <= c < m0.w() && 0 <= r <= m0.h() ==> #[trigger] m0.hw(c, r),
        forall|c: int, r: int| 0 <= c <= m0.w() && 0 <= r < m0.h() ==> #[trigger] m0.vw(c, r),
        carved_from(m0, m, done),
        0 <= col <= m.w(),
        0 <= row <= m.h(),
    ensures
        m.corner_char(col, row, false) == carved_corner(m.w(), m.h(), done, col, row),
{
    if row > 0 {
        assert(m.vw(col, row - 1) == (m0.vw(col, row - 1) && !opened_v(done, col, row - 1)));
    }
    if row < m.h() {
        assert(m.vw(col, row) == (m0.vw(col, row) && !opened_v(done, col, row)));
    }
    if col > 0 {
        assert(m.hw(col - 1, row) == (m0.hw(col - 1, row) && !opened_h(done, col - 1, row)));
    }
    if col < m.w() {
        assert(m.hw(col, row) == (m0.hw(col, row) && !opened_h(done, col, row)));
    }
}

/// Shows step `k`, taking its wall down in `anim` as well.
fn carve_step_cmds(
    anim: &mut Maze,
    Ghost(fresh): Ghost<Maze>,
    Ghost(steps): Ghost<Seq<CarvingStep>>,
    k: usize,
    step: CarvingStep,
    delay: u64,
) -> (plan: Vec<Command>)
    requires
        old(anim).wf(),
        old(anim).w() * 4 + 4 <= usize::MAX,
        old(anim).h() * 2 + 3 <= usize::MAX,
        0 <= k < steps.len(),
        steps[k as int] == step,
        drawable_step(old(anim).w(), old(anim).h(), step),
        fresh.w() == old(anim).w(),
        fresh.h() == old(anim).h(),
        forall|c: int, r: int| 0 <= c < fresh.w() && 0 <= r <= fresh.h() ==> #[trigger] fresh.hw(c, r),
        forall|c: int, r: int| 0 <= c <= fresh.w() && 0 <= r < fresh.h() ==> #[trigger] fresh.vw(c, r),
        carved_from(fresh, *old(anim), steps.take(k as int)),
    ensures
        final(anim).wf(),
        final(anim).w() == old(anim).w(),
        final(anim).h() == old(anim).h(),
        carved_from(fresh, *final(anim), steps.take(k + 1)),
        plan@ == carve_step_plan(old(anim).w(), old(anim).h(), steps, k as int, delay),
{
    let ghost m1 = *anim;
    let ghost w = anim.w();
    let ghost h = anim.h();
    let ghost done = steps.take(k + 1);
    assert(steps.take(k as int).push(step) =~= done);
    let mut out: Vec<Command> = Vec::new();
    let (cx, cy) = step.cell;
    let term_col = cx * 4 + 1;
    let term_row = cy * 2 + 2;
    out.push(Command::MoveTo(term_col, term_row));
    out.push(Command::SetColor(Tone::Yellow));
    out.push(Command::Bold);
    out.push(Command::Text(" \u{25c6} "));
    out.push(Command::ResetAttributes);
    let (wx, wy) = step.wall_pos;
    match step.wall_kind {
        WallKind::H => {
            anim.set_h_wall(wx, wy, false);
            proof {
                lemma_carved_push_h(fresh, m1, *anim, steps.take(k as int), step);
                lemma_carved_corner(fresh, *anim, done, wx as int, wy as int);
                lemma_carved_corner(fresh, *anim, done, wx + 1, wy as int);
            }
            out.push(Command::MoveTo(wx * 4 + 1, wy * 2 + 1));
            out.push(Command::SetColor(Tone::Cyan));
            out.push(Command::Text("   "));
            let mut a = redraw_intersection(anim, wx, wy, Tone::Cyan);
            out.append(&mut a);
            let mut b = redraw_intersection(anim, wx + 1, wy, Tone::Cyan);
            out.append(&mut b);
        },
        WallKind::V => {
            anim.set_v_wall(wx, wy, false);
            proof {
                lemma_carved_push_v(fresh, m1, *anim, steps.take(k as int), step);
                lemma_carved_corner(fresh, *anim, done, wx as int, wy as int);
                lemma_carved_corner(fresh, *anim, done, wx as int, wy + 1);
            }
            out.push(Command::MoveTo(wx * 4, wy * 2 + 2));
            out.push(Command::SetColor(Tone::Cyan));
            out.push(Command::Char(' '));
            let mut a = redraw_intersection(anim, wx, wy, Tone::Cyan);
            out.append(&mut a);
            let mut b = redraw_intersection(anim, wx, wy + 1, Tone::Cyan);
            out.append(&mut b);
        },
    }
    out.push(Command::Flush);
    out.push(Command::Sleep(delay));
    out.push(Command::MoveTo(term_col, term_row));
    out.push(Command::ResetColor);
    out.push(Command::Text("   "));
    assert(out@ =~= carve_step_plan(w, h, steps, k as int, delay));
    out
}

/// The commands that show the carving steps one by one.
fn carve_cmds(width: usize, height: usize, steps: &[CarvingStep], delay: u64) -> (plan: Vec<Command>)
    requires
        width * 4 + 4 <= usize::MAX,
        height * 2 + 3 <= usize::MAX,
        width * (height + 1) <= usize::MAX,
        (width + 1) * height <= usize::MAX,
        forall|i: int| 0 <= i < steps@.len() ==> drawable_step(width as int, height as int, #[trigger] steps@[i]),
    ensures
        plan@ == carve_plan(width as int, height as int, steps@, delay, steps@.len() as int),
{
    let mut anim = Maze::new(width, height);
    let ghost fresh = anim;
    let ghost w = width as int;
    let ghost h = height as int;
    let mut out: Vec<Command> = Vec::new();
    let mut k: usize = 0;
    assert(steps@.take(0) =~= Seq::<CarvingStep>::empty());
    assert(carved_from(fresh, anim, steps@.take(0)));
    while k < steps.len()
        invariant
            width * 4 + 4 <= usize::MAX,
            height * 2 + 3 <= usize::MAX,
            forall|i: int| 0 <= i < steps@.len() ==> drawable_step(w, h, #[trigger] steps@[i]),
            w == width,
            h == height,
            k <= steps@.len(),
            anim.wf(),
            fresh.w() == w,
            fresh.h() == h,
            forall|c: int, r: int| 0 <= c < fresh.w() && 0 <= r <= fresh.h() ==> #[trigger] fresh.hw(c, r),
            forall|c: int, r: int| 0 <= c <= fresh.w() && 0 <= r < fresh.h() ==> #[trigger] fresh.vw(c, r),
            carved_from(fresh, anim, steps@.take(k as int)),
            out@ == carve_plan(w, h, steps@, delay, k as int),
        decreases steps@.len() - k,
    {
        let step = steps[k];
        assert(drawable_step(w, h, steps@[k as int]));
        let ghost before = out@;
        let mut piece = carve_step_cmds(&mut anim, Ghost(fresh), Ghost(steps@), k, step, delay);
        out.append(&mut piece);
        assert(out@ =~= before + carve_step_plan(w, h, steps@, k as int, delay));
        k = k + 1;
    }
    out
}

/// The commands that show the cells in the order the search explored them,
/// leaving out those on the solution.
fn explore_cmds(width: usize, solution: &[bool], explore_order: &[(usize, usize)], delay: u64) -> (plan: Vec<Command>)
    requires
        forall|i: int| 0 <= i < explore_order@.len() ==> {
            &&& (#[trigger] explore_order@[i]).1 * width + explore_order@[i].0 < solution@.len()
            &&& explore_order@[i].0 * 4 + 1 <= usize::MAX
            &&& explore_order@[i].1 * 2 + 2 <= usize::MAX
        },
    ensures
        plan@ == explore_plan(width as int, solution@, explore_order@, delay, explore_order@.len() as int),
{
    let mut out: Vec<Command> = Vec::new();
    let mut k: usize = 0;
    while k < explore_order.len()
        invariant
            forall|i: int| 0 <= i < explore_order@.len() ==> {
                &&& (#[trigger] explore_order@[i]).1 * width + explore_order@[i].0 < solution@.len()
                &&& explore_order@[i].0 * 4 + 1 <= usize::MAX
                &&& explore_order@[i].1 * 2 + 2 <= usize::MAX
            },
            k <= explore_order@.len(),
            out@ == explore_plan(width as int, solution@, explore_order@, delay, k as int),
        decreases explore_order@.len() - k,
    {
        let (ex, ey) = explore_order[k];
        assert(explore_order@[k as int] == (ex, ey));
        let ghost before = out@;
        let n = solution.len();
        assert(ey * width <= ey * width + ex < n) by (nonlinear_arith)
            requires
                ey * width + ex < n,
                ex >= 0,
        ;
        let cidx = ey * width + ex;
        if !solution[cidx] {
            out.push(Command::MoveTo(ex * 4 + 1, ey * 2 + 2));
            out.push(Command::SetColor(Tone::DarkBlue));
            out.push(Command::Text(" \u{b7} "));
            out.push(Command::Flush);
            out.push(Command::Sleep(delay));
        }
        assert(out@ =~= before + explore_piece(width as int, solution@, explore_order@[k as int], delay));
        k = k + 1;
    }
    out
}

/// The commands that mark the cells of the solution.
fn path_cmds(width: usize, height: usize, solution: &[bool]) -> (plan: Vec<Command>)
    requires
        width * 4 + 4 <= usize::MAX,
        height * 2 + 3 <= usize::MAX,
        solution@.len() >= width * height,
    ensures
        plan@ == path_rows(width as int, height as int, solution@, height as int),
{
    let mut out: Vec<Command> = Vec::new();
    let mut row: usize = 0;
    while row < height
        invariant
            width * 4 + 4 <= usize::MAX,
            height * 2 + 3 <= usize::MAX,
            solution@.len() >= width * height,
            row <= height,
            out@ == path_rows(width as int, height as int, solution@, row as int),
        decreases height - row,
    {
        let ghost before = out@;
        let mut col: usize = 0;
        while col < width
            invariant
                width * 4 + 4 <= usize::MAX,
                height * 2 + 3 <= usize::MAX,
                solution@.len() >= width * height,
                row < height,
                col <= width,
                out@ == before + path_pieces(width as int, height as int, solution@, row as int, col as int),
            decreases width - col,
        {
            let ghost mid = out@;
            let n = solution.len();
            proof {
                lemma_idx_bounds(width as int, height as int, col as int, row as int);
            }
            let cidx = row * width + col;
            if solution[cidx] {
                let tc = col * 4 + 1;
                let tr = row * 2 + 2;
                let is_start = col == 0 && row == 0;
                let is_end = col == width - 1 && row == height - 1;
                out.push(Command::MoveTo(tc, tr));
                if is_start {
                    out.push(Command::SetColor(Tone::Green));
                    out.push(Command::Bold);
                    out.push(Command::Text(" S "));
                } else if is_end {
                    out.push(Command::SetColor(Tone::Red));
                    out.push(Command::Bold);
                    out.push(Command::Text(" E "));
                } else {
                    out.push(Command::SetColor(Tone::Green));
                    out.push(Command::Bold);
                    out.push(Command::Text(" \u{25cf} "));
                }
                out.push(Command::ResetAttributes);
            }
            assert(out@ =~= mid + path_piece(width as int, height as int, solution@, row as int, col as int));
            assert(out@ =~= before + path_pieces(width as int, height as int, solution@, row as int, col + 1));
            col = col + 1;
        }
        assert(out@ =~= path_rows(width as int, height as int, solution@, row + 1));
        row = row + 1;
    }
    out
}

fn anim_title_cmds(w: usize, h: usize, color: Tone, tail: &'static str) -> (v: Vec<Command>)
    ensures
        v@ == anim_title(w as int, h as int, color, tail),
{
    let mut out: Vec<Command> = Vec::new();
    out.push(Command::MoveTo(0, 0));
    out.push(Command::SetColor(color));
    out.push(Command::Bold);
    out.push(Command::Text(" fledge maze \u{2014} "));
    out.push(Command::Number(w));
    out.push(Command::Text("\u{d7}"));
    out.push(Command::Number(h));
    out.push(Command::Text(tail));
    out.push(Command::ResetAttributes);
    out.push(Command::ResetColor);
    assert(out@ =~= anim_title(w as int, h as int, color, tail));
    out
}

fn pause_cmds(ms: u64) -> (v: Vec<Command>)
    ensures
        v@ == seq![Command::Flush, Command::Sleep(ms)],
{
    let mut out: Vec<Command> = Vec::new();
    out.push(Command::Flush);
    out.push(Command::Sleep(ms));
    assert(out@ =~= seq![Command::Flush, Command::Sleep(ms)]);
    out
}

fn anim_finish_cmds(mw: usize, mh: usize, path_count: usize) -> (v: Vec<Command>)
    requires
        mh * 2 + 3 <= usize::MAX,
    ensures
        v@ == anim_finish(mw as int, mh as int, path_count as nat),
{
    let mut out: Vec<Command> = Vec::new();
    out.push(Command::MoveTo(0, 0));
    out.push(Command::SetColor(Tone::Green));
    out.push(Command::Bold);
    out.push(Command::Text(" fledge maze \u{2014} "));
    out.push(Command::Number(mw));
    out.push(Command::Text("\u{d7}"));
    out.push(Command::Number(mh));
    out.push(Command::Text(" \u{2014} solved! ("));
    out.push(Command::Number(path_count));
    out.push(Command::Text(" steps)   "));
    out.push(Command::ResetAttributes);
    out.push(Command::ResetColor);
    out.push(Command::MoveTo(0, mh * 2 + 3));
    out.push(Command::SetColor(Tone::DarkGrey));
    out.push(Command::Text("Press any key to exit..."));
    out.push(Command::ResetColor);
    out.push(Command::Flush);
    out.push(Command::WaitForKey);
    out.push(Command::DisableRawMode);
    out.push(Command::ShowCursor);
    out.push(Command::LeaveAlternateScreen);
    out.push(Command::Text("Maze "));
    out.push(Command::Number(mw));
    out.push(Command::Text("\u{d7}"));
    out.push(Command::Number(mh));
    out.push(Command::Text(" \u{2014} solved in "));
    out.push(Command::Number(path_count));
    out.push(Command::Text(" steps\n"));
    out.push(Command::Flush);
    assert(out@ =~= anim_finish(mw as int, mh as int, path_count as nat));
    out
}

/// The terminal commands of the animation: the fully walled grid, then the
/// carving steps one by one with the walls they open, then the cells in the
/// order the search explored them, then the solution, a final title, the
/// wait for a key, and a summary line on the normal screen.
pub fn render_animated(
    maze: &Maze,
    steps: &[CarvingStep],
    solution: &[bool],
    explore_order: &[(usize, usize)],
) -> (plan: Vec<Command>)
    requires
        maze.wf(),
        maze.w() * 4 + 4 <= usize::MAX,
        maze.h() * 2 + 3 <= usize::MAX,
        solution@.len() >= maze.w() * maze.h(),
        forall|i: int| 0 <= i < steps@.len() ==> drawable_step(maze.w(), maze.h(), #[trigger] steps@[i]),
        forall|i: int| 0 <= i < explore_order@.len() ==> {
            &&& (#[trigger] explore_order@[i]).1 * maze.w() + explore_order@[i].0 < solution@.len()
            &&& explore_order@[i].0 * 4 + 1 <= usize::MAX
            &&& explore_order@[i].1 * 2 + 2 <= usize::MAX
        },
    ensures
        plan@ == animated_plan(maze.w(), maze.h(), steps@, solution@, explore_order@),
{
    proof {
        maze.lemma_dims();
    }
    let mw = maze.width();
    let mh = maze.height();
    let ghost w = mw as int;
    let ghost h = mh as int;
    let mut out: Vec<Command> = Vec::new();
    out.push(Command::EnterAlternateScreen);
    out.push(Command::HideCursor);
    out.push(Command::ClearAll);
    out.push(Command::EnableRawMode);
    assert(out@ =~= seq![Command::EnterAlternateScreen, Command::HideCursor, Command::ClearAll, Command::EnableRawMode]);
    let mut grid = draw_full_grid(mw, mh, Tone::DarkGrey);
    out.append(&mut grid);
    let mut title = anim_title_cmds(mw, mh, Tone::DarkCyan, " \u{2014} generating...");
    out.append(&mut title);
    let mut pause = pause_cmds(500);
    out.append(&mut pause);
    let delay: u64 = if mw * mh > 200 {
        8
    } else if mw * mh > 100 {
        15
    } else {
        25
    };
    let mut carving = carve_cmds(mw, mh, steps, delay);
    out.append(&mut carving);
    let mut title = anim_title_cmds(mw, mh, Tone::DarkCyan, " \u{2014} solving...       ");
    out.append(&mut title);
    let mut pause = pause_cmds(300);
    out.append(&mut pause);
    let explore_delay: u64 = if explore_order.len() > 200 { 5 } else { 15 };
    let mut exploring = explore_cmds(mw, solution, explore_order, explore_delay);
    out.append(&mut exploring);
    out.push(Command::Sleep(200));
    let mut path = path_cmds(mw, mh, solution);
    out.append(&mut path);
    let path_count = count_marked(solution);
    let mut finish = anim_finish_cmds(mw, mh, path_count);
    out.append(&mut finish);
    assert(out@ =~= animated_plan(w, h, steps@, solution@, explore_order@));
    out
}

/// What came of one wait for input at the end of the animation.
#[derive(Clone, Copy, Debug, PartialEq, Eq)]
pub enum WaitEvent {
    /// Nothing arrived within the wait, or polling failed.
    Quiet,
    /// A key was pressed.
    Key,
    /// Some other input arrived, or reading it failed.
    Other,
}

/// Whether the wait for a key at the end of the animation is over after
/// `event`: a key press or a quiet spell ends it, other input does not.
pub fn wait_is_over(event: WaitEvent) -> (over: bool)
    ensures
        over == !(event is Other),
{
    match event {
        WaitEvent::Quiet => true,
        WaitEvent::Key => true,
        WaitEvent::Other => false,
    }
}

} // verus!
