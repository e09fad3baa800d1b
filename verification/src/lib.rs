//! A maze generator and solver: a randomized depth-first carver that yields a
//! perfect maze, a breadth-first solver that finds a shortest route from the
//! top-left to the bottom-right cell, and the terminal drawing plans for both.

pub mod grid;
pub mod maze;
pub mod generate;
pub mod solve;
pub mod args;
pub mod render;
pub mod screen;
