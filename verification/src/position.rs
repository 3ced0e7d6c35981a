//! A point with integer coordinates, and its textual form `x,y`.
use crate::direction::Direction;
use crate::text::{
    chars_of, parse_i32, pieces_view, spec_parse_i32, spec_split, spec_trim, split, trim,
};
use vstd::prelude::*;

verus! {

#[derive(Debug, PartialEq, Eq, Structural, Hash, Clone, Copy)]
pub struct Position {
    pub x: i32,
    pub y: i32,
}

/// Why a text is not a position.
#[derive(Debug, PartialEq, Eq, Structural, Clone, Copy)]
pub enum PositionError {
    /// The text does not consist of exactly two comma-separated fields.
    FieldCount,
    /// A field is not a decimal `i32`.
    Coordinate,
}

/// The position that `s` denotes: two decimal integers separated by a comma,
/// each possibly surrounded by whitespace.
pub open spec fn spec_parse_position(s: Seq<char>) -> Result<Position, PositionError> {
    let parts = spec_split(s, ',');
    if parts.len() != 2 {
        Err(PositionError::FieldCount)
    } else {
        match (spec_parse_i32(spec_trim(parts[0])), spec_parse_i32(spec_trim(parts[1]))) {
            (Some(x), Some(y)) => Ok(Position { x, y }),
            _ => Err(PositionError::Coordinate),
        }
    }
}

impl Position {
    pub fn new(x: i32, y: i32) -> (p: Position)
        ensures
            p == (Position { x, y }),
    {
        Position { x, y }
    }

    /// The position one step away in `direction`.
    pub open spec fn spec_adjacent(&self, direction: &Direction) -> Position {
        Position {
            x: (self.x + direction.spec_delta().0) as i32,
            y: (self.y + direction.spec_delta().1) as i32,
        }
    }

    /// Whether the step in `direction` stays within the coordinate range.
    pub open spec fn can_step(&self, direction: &Direction) -> bool {
        &&& i32::MIN <= self.x + direction.spec_delta().0 <= i32::MAX
        &&& i32::MIN <= self.y + direction.spec_delta().1 <= i32::MAX
    }

    pub fn get_adjacent(&self, direction: &Direction) -> (p: Position)
        requires
            self.can_step(direction),
        ensures
            p == self.spec_adjacent(direction),
            p.x == self.x + direction.spec_delta().0,
            p.y == self.y + direction.spec_delta().1,
    {
        let (dx, dy) = direction.delta();
        Position { x: self.x + dx, y: self.y + dy }
    }

    /// Reads a position from the characters of its textual form.
    pub fn from_chars(s: &Vec<char>) -> (r: Result<Position, PositionError>)
        ensures
            r == spec_parse_position(s@),
    {
        let parts = split(s, ',');
        assert(pieces_view(parts@).len() == parts.len());
        if parts.len() != 2 {
            return Err(PositionError::FieldCount);
        }
        assert(pieces_view(parts@)[0] == parts[0]@);
        assert(pieces_view(parts@)[1] == parts[1]@);
        let x = parse_i32(&trim(&parts[0]));
        let y = parse_i32(&trim(&parts[1]));
        match (x, y) {
            (Some(x), Some(y)) => Ok(Position { x, y }),
            _ => Err(PositionError::Coordinate),
        }
    }

    /// Reads a position from its textual form `x,y`.
    pub fn from_str(s: &str) -> (r: Result<Position, PositionError>)
        ensures
            r == spec_parse_position(s@),
    {
        Position::from_chars(&chars_of(s))
    }
}

} // verus!
