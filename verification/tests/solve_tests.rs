use fledge_plugin_maze::maze::Maze;
use rand::rngs::StdRng;
use rand::SeedableRng;

fn generated(width: usize, height: usize, seed: u64) -> Maze {
    let mut maze = Maze::new(width, height);
    let mut rng = StdRng::seed_from_u64(seed);
    maze.generate(&mut rng);
    maze
}

fn open_maze(width: usize, height: usize) -> Maze {
    let mut maze = Maze::new(width, height);
    for row in 1..height {
        for col in 0..width {
            maze.set_h_wall(col, row, false);
        }
    }
    for row in 0..height {
        for col in 1..width {
            maze.set_v_wall(col, row, false);
        }
    }
    maze
}

#[test]
fn walled_maze_has_no_route() {
    let maze = Maze::new(3, 3);
    let (on_path, explore) = maze.solve();
    assert_eq!(explore, vec![(0, 0)]);
    let marked: Vec<usize> = (0..9).filter(|&i| on_path[i]).collect();
    assert_eq!(marked, vec![8]);
}

#[test]
fn open_maze_route_is_shortest() {
    let maze = open_maze(4, 3);
    let (on_path, explore) = maze.solve();
    // a shortest route from (0,0) to (3,2) takes 5 moves, so it has 6 cells
    assert_eq!(on_path.iter().filter(|&&b| b).count(), 6);
    assert!(on_path[0] && on_path[11]);
    assert_eq!(explore[0], (0, 0));
    assert_eq!(*explore.last().unwrap(), (3, 2));
    // breadth first: cells come in order of distance
    let dist = |c: &(usize, usize)| c.0 + c.1;
    for pair in explore.windows(2) {
        assert!(dist(&pair[0]) <= dist(&pair[1]));
    }
    // every cell nearer than the goal was explored
    for y in 0..3 {
        for x in 0..4 {
            if x + y < 5 {
                assert!(explore.contains(&(x, y)));
            }
        }
    }
}

#[test]
fn open_maze_search_order() {
    let maze = open_maze(2, 2);
    let (on_path, explore) = maze.solve();
    // up, down, left, right from each cell
    assert_eq!(explore, vec![(0, 0), (0, 1), (1, 0), (1, 1)]);
    // the goal's parent is (0, 1), found first
    assert_eq!(on_path, vec![true, false, true, true]);
}

#[test]
fn corridor_route() {
    // a single corridor: right along the top row, down the last column
    let mut maze = Maze::new(3, 2);
    maze.set_v_wall(1, 0, false);
    maze.set_v_wall(2, 0, false);
    maze.set_h_wall(2, 1, false);
    let (on_path, explore) = maze.solve();
    assert_eq!(on_path, vec![true, true, true, false, false, true]);
    assert_eq!(explore, vec![(0, 0), (1, 0), (2, 0), (2, 1)]);
}

#[test]
fn generated_maze_is_always_solved() {
    for seed in 0..20u64 {
        let maze = generated(9, 6, seed);
        let (on_path, explore) = maze.solve();
        assert!(on_path[0] && on_path[9 * 6 - 1]);
        assert_eq!(explore[0], (0, 0));
        assert_eq!(*explore.last().unwrap(), (8, 5));
        // the marked cells form a route: each but the ends has exactly two marked open neighbours
        let count = on_path.iter().filter(|&&b| b).count();
        assert!(count >= 9 + 6 - 1);
        for y in 0..6usize {
            for x in 0..9usize {
                if !on_path[y * 9 + x] {
                    continue;
                }
                let mut n = 0;
                if y > 0 && !maze.h_wall(x, y) && on_path[(y - 1) * 9 + x] {
                    n += 1;
                }
                if y + 1 < 6 && !maze.h_wall(x, y + 1) && on_path[(y + 1) * 9 + x] {
                    n += 1;
                }
                if x > 0 && !maze.v_wall(x, y) && on_path[y * 9 + x - 1] {
                    n += 1;
                }
                if x + 1 < 9 && !maze.v_wall(x + 1, y) && on_path[y * 9 + x + 1] {
                    n += 1;
                }
                let end = (x, y) == (0, 0) || (x, y) == (8, 5);
                assert_eq!(n, if end { 1 } else { 2 });
            }
        }
    }
}

#[test]
fn explored_cells_are_distinct() {
    let maze = generated(12, 8, 5);
    let (_, explore) = maze.solve();
    let mut seen = vec![false; 96];
    for &(x, y) in &explore {
        assert!(!seen[y * 12 + x]);
        seen[y * 12 + x] = true;
    }
}

#[test]
fn open_maze_search_looks_down_before_right() {
    let maze = open_maze(3, 2);
    let (on_path, explore) = maze.solve();
    assert_eq!(explore, vec![(0, 0), (0, 1), (1, 0), (1, 1), (2, 0), (2, 1)]);
    // the route goes down first, then right along the bottom row
    assert_eq!(on_path, vec![true, false, false, true, true, true]);
}
