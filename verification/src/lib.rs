//! Solvers for the puzzles of a December, with what they share: text
//! handling, positions and directions on a grid, pairs of items, and
//! membership of a point in a polygon.
//!
//! Every function states what it returns. Where a text is malformed or a
//! number does not fit the machine, a solver answers with an error or `None`;
//! none of them stops the program.
pub mod compress;
pub mod day01;
pub mod day02;
pub mod day03;
pub mod day04;
pub mod day05;
pub mod day06;
pub mod day07;
pub mod day08;
pub mod day09;
pub mod day10;
pub mod day11;
pub mod day_template;
pub mod direction;
pub mod grid;
pub mod pairs;
pub mod polygon;
pub mod position;
pub mod text;

pub use direction::Direction;
pub use grid::{Grid, GridError};
pub use pairs::create_pairs;
pub use position::{Position, PositionError};
