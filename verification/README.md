# fledge-plugin-maze

A terminal maze generator and solver, verified with Verus.

- `src/` is the verified library.
  - `maze.rs`: the maze (cells, horizontal and vertical walls), passages,
    routes, and the box-drawing character of each wall corner.
  - `generate.rs`: the randomized depth-first carver (recursive backtracker),
    the list of moves it chooses among at each step, and the proofs that what it carves is a perfect maze: connected, without
    cycles, border closed, one open wall per cell but the first.
  - `solve.rs`: breadth-first search from the top-left to the bottom-right
    cell, proved to return a shortest route, to explore cells in order of
    distance, and to follow the exact breadth-first queue order (neighbours
    looked at up, down, left, right).
  - `args.rs`: the command line, including the decimal reading of numbers.
  - `render.rs`: the drawing plans (sequences of terminal commands) for the
    still picture and for the animation.
  - `screen.rs`: a model of the characters a drawing plan leaves on the
    terminal, and the proof that the animation's last picture shows the
    carved maze.
  - `grid.rs`: row-major cell numbering and counting facts.
- `app/main.rs` reads the command line, seeds the random generator and
  carries the drawing plans out on the terminal with `crossterm`.
- `tests/` runs the library on concrete mazes and command lines.

Usage: `fledge maze [--width n] [--height n] [--seed n] [--solve] [--animate] [--ascii]`.
