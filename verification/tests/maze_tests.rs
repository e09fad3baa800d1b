use fledge_plugin_maze::generate::{open_candidates, CarvingStep, WallKind};
use fledge_plugin_maze::maze::Maze;
use rand::rngs::StdRng;
use rand::SeedableRng;

fn generated(width: usize, height: usize, seed: u64) -> (Maze, Vec<CarvingStep>) {
    let mut maze = Maze::new(width, height);
    let mut rng = StdRng::seed_from_u64(seed);
    let steps = maze.generate(&mut rng);
    (maze, steps)
}

fn open_walls(maze: &Maze) -> usize {
    let mut n = 0;
    for row in 0..=maze.height() {
        for col in 0..maze.width() {
            if !maze.h_wall(col, row) {
                n += 1;
            }
        }
    }
    for row in 0..maze.height() {
        for col in 0..=maze.width() {
            if !maze.v_wall(col, row) {
                n += 1;
            }
        }
    }
    n
}

#[test]
fn new_maze_has_every_wall() {
    let maze = Maze::new(3, 2);
    assert_eq!(maze.width(), 3);
    assert_eq!(maze.height(), 2);
    for row in 0..=2 {
        for col in 0..3 {
            assert!(maze.h_wall(col, row));
        }
    }
    for row in 0..2 {
        for col in 0..=3 {
            assert!(maze.v_wall(col, row));
        }
    }
}

#[test]
fn setting_one_wall_leaves_the_others() {
    let mut maze = Maze::new(3, 3);
    maze.set_h_wall(1, 2, false);
    maze.set_v_wall(2, 1, false);
    assert!(!maze.h_wall(1, 2));
    assert!(!maze.v_wall(2, 1));
    assert!(maze.h_wall(1, 1));
    assert!(maze.h_wall(2, 2));
    assert!(maze.v_wall(1, 1));
    assert!(maze.v_wall(2, 2));
    maze.set_h_wall(1, 2, true);
    assert!(maze.h_wall(1, 2));
}

#[test]
fn generated_maze_is_a_spanning_tree() {
    for seed in 0..20u64 {
        let (maze, steps) = generated(7, 5, seed);
        assert_eq!(steps.len(), 7 * 5 - 1);
        assert_eq!(open_walls(&maze), 7 * 5 - 1);
        let mut seen = vec![false; 35];
        seen[0] = true;
        for s in &steps {
            let (x, y) = s.cell;
            assert!(!seen[y * 7 + x], "a cell is entered twice");
            seen[y * 7 + x] = true;
            match s.wall_kind {
                WallKind::H => assert!(!maze.h_wall(s.wall_pos.0, s.wall_pos.1)),
                WallKind::V => assert!(!maze.v_wall(s.wall_pos.0, s.wall_pos.1)),
            }
        }
        assert!(seen.iter().all(|&b| b));
    }
}

#[test]
fn generated_maze_keeps_its_border() {
    let (maze, _) = generated(6, 4, 11);
    for col in 0..6 {
        assert!(maze.h_wall(col, 0));
        assert!(maze.h_wall(col, 4));
    }
    for row in 0..4 {
        assert!(maze.v_wall(0, row));
        assert!(maze.v_wall(6, row));
    }
}

#[test]
fn same_seed_gives_same_maze() {
    let (a, sa) = generated(20, 10, 42);
    let (b, sb) = generated(20, 10, 42);
    assert_eq!(sa, sb);
    for row in 0..=10 {
        for col in 0..20 {
            assert_eq!(a.h_wall(col, row), b.h_wall(col, row));
        }
    }
    for row in 0..10 {
        for col in 0..=20 {
            assert_eq!(a.v_wall(col, row), b.v_wall(col, row));
        }
    }
}

#[test]
fn first_step_leaves_the_top_left_cell() {
    let (_, steps) = generated(5, 5, 3);
    let first = steps[0];
    assert!(first.cell == (1, 0) || first.cell == (0, 1));
    if first.cell == (1, 0) {
        assert_eq!(first.wall_kind, WallKind::V);
        assert_eq!(first.wall_pos, (1, 0));
    } else {
        assert_eq!(first.wall_kind, WallKind::H);
        assert_eq!(first.wall_pos, (0, 1));
    }
}

#[test]
fn one_cell_maze_needs_no_step() {
    let (maze, steps) = generated(1, 1, 9);
    assert!(steps.is_empty());
    assert!(maze.h_wall(0, 0) && maze.h_wall(0, 1));
    assert!(maze.v_wall(0, 0) && maze.v_wall(1, 0));
}

#[test]
fn corner_characters_follow_the_walls() {
    let maze = Maze::new(2, 2);
    assert_eq!(maze.intersection_char(0, 0, false), '\u{250c}');
    assert_eq!(maze.intersection_char(1, 0, false), '\u{252c}');
    assert_eq!(maze.intersection_char(2, 0, false), '\u{2510}');
    assert_eq!(maze.intersection_char(0, 1, false), '\u{251c}');
    assert_eq!(maze.intersection_char(1, 1, false), '\u{253c}');
    assert_eq!(maze.intersection_char(2, 1, false), '\u{2524}');
    assert_eq!(maze.intersection_char(0, 2, false), '\u{2514}');
    assert_eq!(maze.intersection_char(1, 2, false), '\u{2534}');
    assert_eq!(maze.intersection_char(2, 2, false), '\u{2518}');
    assert_eq!(maze.intersection_char(1, 1, true), '+');
}

#[test]
fn corner_characters_after_opening_walls() {
    let mut maze = Maze::new(2, 2);
    // open the wall between (0,0) and (1,0) and the one between (0,0) and (0,1)
    maze.set_v_wall(1, 0, false);
    maze.set_h_wall(0, 1, false);
    assert_eq!(maze.intersection_char(1, 0, false), '\u{2500}');
    assert_eq!(maze.intersection_char(0, 1, false), '\u{2502}');
    assert_eq!(maze.intersection_char(1, 1, false), '\u{250c}');
    maze.set_h_wall(1, 1, false);
    maze.set_v_wall(1, 1, false);
    assert_eq!(maze.intersection_char(1, 1, false), ' ');
}

#[test]
fn carving_backtracks_depth_first() {
    let (w, h) = (8usize, 6usize);
    for seed in 0..10u64 {
        let (_, steps) = generated(w, h, seed);
        let mut found: Vec<(usize, usize)> = vec![(0, 0)];
        let mut entered = vec![false; w * h];
        entered[0] = true;
        for s in &steps {
            let (wx, wy) = s.wall_pos;
            let (a, b) = match s.wall_kind {
                WallKind::H => ((wx, wy - 1), (wx, wy)),
                WallKind::V => ((wx - 1, wy), (wx, wy)),
            };
            let parent = if s.cell == a { b } else { a };
            assert!(s.cell == a || s.cell == b);
            let fresh = |c: (usize, usize), entered: &Vec<bool>| {
                let (x, y) = c;
                (y > 0 && !entered[(y - 1) * w + x])
                    || (y + 1 < h && !entered[(y + 1) * w + x])
                    || (x > 0 && !entered[y * w + x - 1])
                    || (x + 1 < w && !entered[y * w + x + 1])
            };
            // the step leaves from the latest found cell that still has an unentered neighbour
            let latest = *found.iter().rev().find(|&&c| fresh(c, &entered)).unwrap();
            assert_eq!(parent, latest);
            entered[s.cell.1 * w + s.cell.0] = true;
            found.push(s.cell);
        }
    }
}

fn step(cell: (usize, usize), wall_kind: WallKind, wall_pos: (usize, usize)) -> CarvingStep {
    CarvingStep { cell, wall_kind, wall_pos }
}

#[test]
fn candidates_come_up_down_left_right() {
    let visited = vec![false; 9];
    let got = open_candidates(&visited, 3, 3, 1, 1);
    assert_eq!(
        got,
        vec![
            step((1, 0), WallKind::H, (1, 1)),
            step((1, 2), WallKind::H, (1, 2)),
            step((0, 1), WallKind::V, (1, 1)),
            step((2, 1), WallKind::V, (2, 1)),
        ]
    );
}

#[test]
fn candidates_skip_marked_and_off_grid_cells() {
    // 3 by 2; (0, 0), (1, 0) and (0, 1) are marked
    let visited = vec![true, true, false, true, false, false];
    let got = open_candidates(&visited, 3, 2, 0, 0);
    assert!(got.is_empty());
    let got = open_candidates(&visited, 3, 2, 1, 1);
    assert_eq!(got, vec![step((2, 1), WallKind::V, (2, 1))]);
    let got = open_candidates(&visited, 3, 2, 2, 0);
    assert_eq!(got, vec![step((2, 1), WallKind::H, (2, 1))]);
}

#[test]
fn ascii_corners_are_plus_anywhere() {
    let maze = Maze::new(2, 2);
    assert_eq!(maze.intersection_char(0, 0, true), '+');
    assert_eq!(maze.intersection_char(7, 9, true), '+');
}

#[test]
fn carve_choice_takes_the_chosen_candidate() {
    let mut maze = Maze::new(3, 3);
    let mut visited = vec![false; 9];
    visited[4] = true;
    let mut stack = vec![(1usize, 1usize)];
    let mut steps: Vec<CarvingStep> = Vec::new();
    let candidates = open_candidates(&visited, 3, 3, 1, 1);
    let s = maze.carve_choice(&mut visited, &mut stack, &mut steps, &candidates, 2);
    assert_eq!(s, step((0, 1), WallKind::V, (1, 1)));
    assert!(!maze.v_wall(1, 1));
    assert!(maze.h_wall(1, 1) && maze.h_wall(1, 2) && maze.v_wall(2, 1));
    assert!(visited[3]);
    assert_eq!(visited.iter().filter(|&&b| b).count(), 2);
    assert_eq!(stack, vec![(1, 1), (0, 1)]);
    assert_eq!(steps, vec![s]);

    // from (0, 1) only up and down are left
    let candidates = open_candidates(&visited, 3, 3, 0, 1);
    assert_eq!(candidates.len(), 2);
    let s = maze.carve_choice(&mut visited, &mut stack, &mut steps, &candidates, 1);
    assert_eq!(s, step((0, 2), WallKind::H, (0, 2)));
    assert!(!maze.h_wall(0, 2));
    assert!(visited[6]);
    assert_eq!(stack, vec![(1, 1), (0, 1), (0, 2)]);
}
