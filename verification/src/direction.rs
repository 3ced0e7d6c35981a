//! The eight compass directions on a grid whose y axis points south.
use vstd::prelude::*;

verus! {

#[derive(Debug, PartialEq, Eq, Structural, Hash, Clone, Copy)]
pub enum Direction {
    North,
    NorthEast,
    East,
    SouthEast,
    South,
    SouthWest,
    West,
    NorthWest,
}

impl Direction {
    /// The step `(dx, dy)` that one move in this direction makes.
    pub open spec fn spec_delta(&self) -> (i32, i32) {
        match self {
            Direction::North => (0i32, -1i32),
            Direction::NorthEast => (1i32, -1i32),
            Direction::East => (1i32, 0i32),
            Direction::SouthEast => (1i32, 1i32),
            Direction::South => (0i32, 1i32),
            Direction::SouthWest => (-1i32, 1i32),
            Direction::West => (-1i32, 0i32),
            Direction::NorthWest => (-1i32, -1i32),
        }
    }

    /// All eight directions, clockwise from north.
    pub open spec fn spec_all() -> Seq<Direction> {
        seq![
            Direction::North,
            Direction::NorthEast,
            Direction::East,
            Direction::SouthEast,
            Direction::South,
            Direction::SouthWest,
            Direction::West,
            Direction::NorthWest,
        ]
    }

    #[verifier::when_used_as_spec(spec_delta)]
    pub fn delta(&self) -> (d: (i32, i32))
        ensures
            d == self.spec_delta(),
    {
        match self {
            Direction::North => (0, -1),
            Direction::NorthEast => (1, -1),
            Direction::East => (1, 0),
            Direction::SouthEast => (1, 1),
            Direction::South => (0, 1),
            Direction::SouthWest => (-1, 1),
            Direction::West => (-1, 0),
            Direction::NorthWest => (-1, -1),
        }
    }

    /// All eight directions, clockwise from north.
    pub fn all() -> (r: Vec<Direction>)
        ensures
            r@ == Direction::spec_all(),
    {
        vec![
            Direction::North,
            Direction::NorthEast,
            Direction::East,
            Direction::SouthEast,
            Direction::South,
            Direction::SouthWest,
            Direction::West,
            Direction::NorthWest,
        ]
    }

    /// The four cardinal directions: north, east, south, west.
    pub fn cardinals() -> (r: Vec<Direction>)
        ensures
            r@ == seq![Direction::North, Direction::East, Direction::South, Direction::West],
    {
        vec![Direction::North, Direction::East, Direction::South, Direction::West]
    }

    /// The four diagonal directions, clockwise from north-east.
    pub fn diagonals() -> (r: Vec<Direction>)
        ensures
            r@ == seq![
                Direction::NorthEast,
                Direction::SouthEast,
                Direction::SouthWest,
                Direction::NorthWest,
            ],
    {
        vec![
            Direction::NorthEast,
            Direction::SouthEast,
            Direction::SouthWest,
            Direction::NorthWest,
        ]
    }
}

} // verus!
