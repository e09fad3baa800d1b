use fledge_plugin_maze::maze::Maze;
use fledge_plugin_maze::render::{
    count_marked, draw_full_grid, redraw_intersection, render_animated, render_static, wait_is_over,
    Command, Tone, WaitEvent,
};
use rand::rngs::StdRng;
use rand::SeedableRng;

fn text(plan: &[Command]) -> String {
    let mut s = String::new();
    for c in plan {
        match *c {
            Command::Text(t) => s.push_str(t),
            Command::Char(ch) => s.push(ch),
            Command::Number(n) => s.push_str(&n.to_string()),
            _ => {}
        }
    }
    s
}

#[test]
fn still_picture_of_walled_maze() {
    let maze = Maze::new(2, 1);
    let plan = render_static(&maze, None, false);
    assert_eq!(
        text(&plan),
        "fledge maze \u{2014} 2\u{d7}1\n\n\
         \u{250c}\u{2500}\u{2500}\u{2500}\u{252c}\u{2500}\u{2500}\u{2500}\u{2510}\n\
         \u{2502} S \u{2502} E \u{2502}\n\
         \u{2514}\u{2500}\u{2500}\u{2500}\u{2534}\u{2500}\u{2500}\u{2500}\u{2518}\n"
    );
    assert_eq!(plan[0], Command::SetColor(Tone::DarkCyan));
    assert_eq!(*plan.last().unwrap(), Command::Flush);
}

#[test]
fn still_picture_ascii_with_solution() {
    let mut maze = Maze::new(3, 1);
    maze.set_v_wall(1, 0, false);
    maze.set_v_wall(2, 0, false);
    let (on_path, _) = maze.solve();
    let plan = render_static(&maze, Some(&on_path), true);
    assert_eq!(
        text(&plan),
        "fledge maze \u{2014} 3\u{d7}1\n\n\
         +---+---+---+\n\
         | S   \u{b7}   E |\n\
         +---+---+---+\n\
         \nPath: top-left \u{2192} bottom-right (3 steps)\n"
    );
    assert!(plan.contains(&Command::SetColor(Tone::White)));
    assert!(!plan.contains(&Command::SetColor(Tone::Cyan)));
}

#[test]
fn full_grid_of_one_cell() {
    let plan = draw_full_grid(1, 1, Tone::DarkGrey);
    assert_eq!(
        plan,
        vec![
            Command::MoveTo(0, 1),
            Command::SetColor(Tone::DarkGrey),
            Command::Char('\u{253c}'),
            Command::Text("\u{2500}\u{2500}\u{2500}"),
            Command::MoveTo(4, 1),
            Command::SetColor(Tone::DarkGrey),
            Command::Char('\u{253c}'),
            Command::MoveTo(0, 2),
            Command::SetColor(Tone::DarkGrey),
            Command::Char('\u{2502}'),
            Command::ResetColor,
            Command::Text("   "),
            Command::MoveTo(4, 2),
            Command::SetColor(Tone::DarkGrey),
            Command::Char('\u{2502}'),
            Command::MoveTo(0, 3),
            Command::SetColor(Tone::DarkGrey),
            Command::Char('\u{253c}'),
            Command::Text("\u{2500}\u{2500}\u{2500}"),
            Command::MoveTo(4, 3),
            Command::SetColor(Tone::DarkGrey),
            Command::Char('\u{253c}'),
            Command::Flush,
        ]
    );
}

#[test]
fn redrawing_a_corner() {
    let maze = Maze::new(3, 3);
    assert_eq!(
        redraw_intersection(&maze, 2, 1, Tone::Cyan),
        vec![Command::MoveTo(8, 3), Command::SetColor(Tone::Cyan), Command::Char('\u{253c}')]
    );
}

#[test]
fn animation_outline() {
    let mut maze = Maze::new(4, 3);
    let mut rng = StdRng::seed_from_u64(1);
    let steps = maze.generate(&mut rng);
    let (solution, explore) = maze.solve();
    let plan = render_animated(&maze, &steps, &solution, &explore);
    assert_eq!(
        &plan[..4],
        &[Command::EnterAlternateScreen, Command::HideCursor, Command::ClearAll, Command::EnableRawMode]
    );
    assert_eq!(plan.iter().filter(|c| **c == Command::WaitForKey).count(), 1);
    assert_eq!(plan.iter().filter(|c| **c == Command::Sleep(25)).count(), steps.len());
    let off_path = explore.iter().filter(|&&(x, y)| !solution[y * 4 + x]).count();
    assert_eq!(plan.iter().filter(|c| **c == Command::Sleep(15)).count(), off_path);
    let count = solution.iter().filter(|&&b| b).count();
    assert!(text(&plan).ends_with(&format!("Maze 4\u{d7}3 \u{2014} solved in {} steps\n", count)));
    assert_eq!(*plan.last().unwrap(), Command::Flush);
}

#[test]
fn animation_delays_by_size() {
    for (w, h, d) in [(10usize, 10usize, 25u64), (11, 10, 15), (20, 10, 15), (21, 10, 8)] {
        let mut maze = Maze::new(w, h);
        let mut rng = StdRng::seed_from_u64(3);
        let steps = maze.generate(&mut rng);
        let (solution, explore) = maze.solve();
        let plan = render_animated(&maze, &steps, &solution, &explore);
        assert!(plan.contains(&Command::Sleep(d)));
    }
}

#[test]
fn counting_marks() {
    assert_eq!(count_marked(&[]), 0);
    assert_eq!(count_marked(&[true, false, true, true]), 3);
}

#[test]
fn waiting_for_a_key() {
    assert!(wait_is_over(WaitEvent::Key));
    assert!(wait_is_over(WaitEvent::Quiet));
    assert!(!wait_is_over(WaitEvent::Other));
}

/// The characters on the screen when the plan first waits for a key.
fn screen_at_wait(plan: &[Command]) -> std::collections::HashMap<(usize, usize), char> {
    let mut chars = std::collections::HashMap::new();
    let (mut col, mut row) = (0usize, 0usize);
    for c in plan {
        let mut put = |ch: char, col: &mut usize, row: &mut usize| {
            if ch == '\n' {
                *col = 0;
                *row += 1;
            } else {
                chars.insert((*col, *row), ch);
                *col += 1;
            }
        };
        match *c {
            Command::WaitForKey => break,
            Command::MoveTo(x, y) => {
                col = x;
                row = y;
            }
            Command::Text(t) => t.chars().for_each(|ch| put(ch, &mut col, &mut row)),
            Command::Char(ch) => put(ch, &mut col, &mut row),
            Command::Number(n) => n.to_string().chars().for_each(|ch| put(ch, &mut col, &mut row)),
            Command::ClearAll | Command::EnterAlternateScreen => chars.clear(),
            _ => {}
        }
    }
    chars
}

#[test]
fn animation_ends_showing_the_carved_maze() {
    let mut maze = Maze::new(6, 4);
    let mut rng = StdRng::seed_from_u64(11);
    let steps = maze.generate(&mut rng);
    let (solution, explore) = maze.solve();
    let plan = render_animated(&maze, &steps, &solution, &explore);
    let screen = screen_at_wait(&plan);
    for r in 0..=4 {
        for c in 0..6 {
            let want = if maze.h_wall(c, r) { '\u{2500}' } else { ' ' };
            for j in 1..=3 {
                assert_eq!(screen[&(4 * c + j, 2 * r + 1)], want);
            }
        }
    }
    for r in 0..4 {
        for c in 0..=6 {
            let want = if maze.v_wall(c, r) { '\u{2502}' } else { ' ' };
            assert_eq!(screen[&(4 * c, 2 * r + 2)], want);
        }
    }
    for r in 0..=4 {
        for c in 0..=6 {
            let open = (c > 0 && !maze.h_wall(c - 1, r))
                || (c < 6 && !maze.h_wall(c, r))
                || (r > 0 && !maze.v_wall(c, r - 1))
                || (r < 4 && !maze.v_wall(c, r));
            let want = if open { maze.intersection_char(c, r, false) } else { '\u{253c}' };
            assert_eq!(screen[&(4 * c, 2 * r + 1)], want);
        }
    }
    // the outer corners keep the cross of the first picture
    assert_eq!(screen[&(0, 1)], '\u{253c}');
    assert_eq!(screen[&(24, 9)], '\u{253c}');
}
