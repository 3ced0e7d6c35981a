//! A rectangular grid of characters stored row by row.
use crate::direction::Direction;
use crate::position::Position;
use crate::text::{chars_of, lines, pieces_view, spec_lines};
use vstd::prelude::*;
use vstd::string::StringSliceAdditionalSpecFns;

verus! {

/// A grid of `rows` rows and `cols` columns. The cell in column `x` of row `y`
/// stands at `y * cols + x` in `data`.
pub struct Grid {
    pub data: Vec<char>,
    pub rows: usize,
    pub cols: usize,
}

/// Why a text is not a grid.
#[derive(Debug, PartialEq, Eq, Structural, Clone, Copy)]
pub enum GridError {
    /// The text has no line.
    Empty,
}

/// All the pieces, one after the other.
pub open spec fn concat(pieces: Seq<Seq<char>>) -> Seq<char>
    decreases pieces.len(),
{
    if pieces.len() == 0 {
        Seq::empty()
    } else {
        concat(pieces.drop_last()) + pieces.last()
    }
}

/// The number of bytes of the first line of a text in UTF-8: up to the first
/// line feed, without the carriage return that may precede it.
pub open spec fn first_line_len(bytes: Seq<u8>) -> int {
    let end = first_line_feed(bytes, 0);
    if 0 < end < bytes.len() && bytes[end - 1] == 13u8 {
        end - 1
    } else {
        end
    }
}

/// The index of the first line feed at or after `from`, or the length.
pub open spec fn first_line_feed(bytes: Seq<u8>, from: int) -> int
    decreases bytes.len() - from,
{
    if from < 0 || from >= bytes.len() {
        bytes.len() as int
    } else if bytes[from] == 10u8 {
        from
    } else {
        first_line_feed(bytes, from + 1)
    }
}

/// A grid as a mathematical value.
pub struct GridView {
    pub data: Seq<char>,
    pub rows: nat,
    pub cols: nat,
}

/// The grid that a text denotes: one row per line. The number of columns is
/// the length in bytes of the first line; `data` holds the characters of all
/// lines.
pub open spec fn spec_parse_grid(s: &str) -> GridView {
    GridView {
        data: concat(spec_lines(s@)),
        rows: spec_lines(s@).len(),
        cols: first_line_len(s.spec_bytes()) as nat,
    }
}

impl View for Grid {
    type V = GridView;

    open spec fn view(&self) -> GridView {
        GridView { data: self.data@, rows: self.rows as nat, cols: self.cols as nat }
    }
}

impl GridView {
    /// Whether `pos` names a cell of the grid.
    pub open spec fn is_pos_valid(&self, pos: Position) -> bool {
        pos.x >= 0 && pos.y >= 0 && pos.x < self.cols && pos.y < self.rows
    }

    /// Where the cell at `pos` stands in `data`.
    pub open spec fn index(&self, pos: Position) -> int {
        pos.y * self.cols + pos.x
    }

    /// Whether every cell has an index that fits the machine.
    pub open spec fn indexable(&self) -> bool {
        self.rows * self.cols <= usize::MAX
    }

    /// Whether `pos` is outside the grid or names a cell that `data` holds.
    pub open spec fn covers(&self, pos: Position) -> bool {
        self.is_pos_valid(pos) ==> self.index(pos) < self.data.len()
    }

    /// The character at `pos`, or `None` outside the grid.
    pub open spec fn get(&self, pos: Position) -> Option<char> {
        if self.is_pos_valid(pos) {
            Some(self.data[self.index(pos)])
        } else {
            None
        }
    }

    /// The characters around `pos` in the first `k` directions, those outside
    /// the grid left out.
    pub open spec fn neighbours_upto(&self, pos: Position, k: int) -> Seq<char>
        decreases k,
    {
        if k <= 0 {
            Seq::empty()
        } else {
            let rest = self.neighbours_upto(pos, k - 1);
            match self.get(pos.spec_adjacent(&Direction::spec_all()[k - 1])) {
                Some(c) => rest.push(c),
                None => rest,
            }
        }
    }

    /// The characters in the up to eight cells around `pos`, clockwise from
    /// north.
    pub open spec fn neighbours(&self, pos: Position) -> Seq<char> {
        self.neighbours_upto(pos, 8)
    }

    /// Whether the cells around `pos` can all be looked up: `pos` is not at
    /// the edge of the coordinate range, and `data` holds every neighbour that
    /// is in the grid.
    pub open spec fn surroundings_covered(&self, pos: Position) -> bool {
        &&& i32::MIN < pos.x < i32::MAX
        &&& i32::MIN < pos.y < i32::MAX
        &&& forall|k: int|
            0 <= k < 8 ==> self.covers(pos.spec_adjacent(&#[trigger] Direction::spec_all()[k]))
    }

    /// The position of the cell that stands at `index` in `data`.
    pub open spec fn position_of(&self, index: int) -> Position {
        Position { x: (index % self.cols as int) as i32, y: (index / self.cols as int) as i32 }
    }

    /// The grid with `value` in the cell at `pos`; unchanged when `pos` is
    /// outside the grid.
    pub open spec fn set(&self, pos: Position, value: char) -> GridView {
        if self.is_pos_valid(pos) {
            GridView { data: self.data.update(self.index(pos), value), ..*self }
        } else {
            *self
        }
    }
}

impl Grid {
    pub fn is_pos_valid(&self, pos: &Position) -> (r: bool)
        ensures
            r == self@.is_pos_valid(*pos),
    {
        pos.x >= 0 && pos.y >= 0 && (pos.x as usize) < self.cols && (pos.y as usize) < self.rows
    }

    /// The index in `data` of the cell at `pos`, or `None` outside the grid.
    pub fn get_index(&self, pos: &Position) -> (r: Option<usize>)
        requires
            self@.indexable(),
        ensures
            r is Some <==> self@.is_pos_valid(*pos),
            r is Some ==> r->Some_0 == self@.index(*pos) && r->Some_0 < self.rows * self.cols,
    {
        if !self.is_pos_valid(pos) {
            return None;
        }
        proof {
            let y = pos.y as int;
            let x = pos.x as int;
            let rows = self.rows as int;
            let cols = self.cols as int;
            assert(0 <= y * cols + x < rows * cols) by (nonlinear_arith)
                requires
                    0 <= y < rows,
                    0 <= x < cols,
            ;
        }
        let index = (pos.y as usize) * self.cols + (pos.x as usize);
        Some(index)
    }

    /// The character at `pos`, or `None` outside the grid.
    pub fn get(&self, pos: &Position) -> (r: Option<char>)
        requires
            self@.indexable(),
            self@.covers(*pos),
        ensures
            r == self@.get(*pos),
    {
        match self.get_index(pos) {
            Some(index) => Some(self.data[index]),
            None => None,
        }
    }

    /// The position of the cell that stands at `index` in `data`.
    pub fn get_position_index(&self, index: usize) -> (p: Position)
        requires
            self.cols > 0,
            index % self.cols <= i32::MAX,
            index / self.cols <= i32::MAX,
        ensures
            p == self@.position_of(index as int),
            p.x == index % self.cols,
            p.y == index / self.cols,
    {
        let x = (index % self.cols) as i32;
        let y = (index / self.cols) as i32;
        Position { x, y }
    }

    /// Writes `value` into the cell at `pos`; outside the grid nothing changes.
    pub fn set(&mut self, pos: &Position, value: char)
        requires
            old(self)@.indexable(),
            old(self)@.covers(*pos),
        ensures
            final(self)@ == old(self)@.set(*pos, value),
    {
        if let Some(index) = self.get_index(pos) {
            self.data.set(index, value);
        }
    }

    /// The character in the cell next to `pos` in direction `dir`, or `None`
    /// when that is outside the grid.
    pub fn check_position(&self, pos: &Position, dir: &Direction) -> (r: Option<char>)
        requires
            self@.indexable(),
            pos.can_step(dir),
            self@.covers(pos.spec_adjacent(dir)),
        ensures
            r == self@.get(pos.spec_adjacent(dir)),
    {
        let new_pos = pos.get_adjacent(dir);
        self.get(&new_pos)
    }

    /// The characters in the up to eight cells around `pos`, clockwise from
    /// north.
    pub fn check_all_directions(&self, pos: &Position) -> (r: Vec<char>)
        requires
            self@.indexable(),
            self@.surroundings_covered(*pos),
        ensures
            r@ == self@.neighbours(*pos),
            r.len() <= 8,
    {
        let dirs = Direction::all();
        let mut out: Vec<char> = Vec::new();
        let mut k: usize = 0;
        while k < 8
            invariant
                0 <= k <= 8,
                dirs@ == Direction::spec_all(),
                self@.indexable(),
                self@.surroundings_covered(*pos),
                out@ == self@.neighbours_upto(*pos, k as int),
                out.len() <= k,
            decreases 8 - k,
        {
            let dir = dirs[k];
            assert(dir == Direction::spec_all()[k as int]);
            if let Some(c) = self.check_position(pos, &dir) {
                out.push(c);
            }
            k += 1;
        }
        out
    }

    /// Whether `surroundings_covered` holds of `pos`.
    pub fn are_surroundings_covered(&self, pos: &Position) -> (r: bool)
        requires
            self@.indexable(),
        ensures
            r == self@.surroundings_covered(*pos),
    {
        if !(i32::MIN < pos.x && pos.x < i32::MAX && i32::MIN < pos.y && pos.y < i32::MAX) {
            return false;
        }
        let dirs = Direction::all();
        let mut k: usize = 0;
        while k < 8
            invariant
                0 <= k <= 8,
                dirs@ == Direction::spec_all(),
                self@.indexable(),
                i32::MIN < pos.x < i32::MAX,
                i32::MIN < pos.y < i32::MAX,
                forall|t: int|
                    0 <= t < k ==> self@.covers(
                        pos.spec_adjacent(&#[trigger] Direction::spec_all()[t]),
                    ),
            decreases 8 - k,
        {
            let dir = dirs[k];
            assert(dir == Direction::spec_all()[k as int]);
            let next = pos.get_adjacent(&dir);
            if let Some(index) = self.get_index(&next) {
                if index >= self.data.len() {
                    return false;
                }
            }
            k += 1;
        }
        true
    }

    /// The grid that a text denotes: one row per line. The number of columns
    /// is the length in bytes of the first line; `data` holds the characters of
    /// all lines.
    pub fn from_str(s: &str) -> (r: Result<Grid, GridError>)
        ensures
            spec_lines(s@).len() == 0 ==> r == Err::<Grid, GridError>(GridError::Empty),
            spec_lines(s@).len() > 0 ==> {
                &&& r is Ok
                &&& r->Ok_0@ == spec_parse_grid(s)
            },
    {
        let bytes = s.as_bytes();
        let mut end: usize = 0;
        while end < bytes.len() && bytes[end] != 10u8
            invariant
                0 <= end <= bytes.len(),
                first_line_feed(bytes@, 0) == first_line_feed(bytes@, end as int),
            decreases bytes.len() - end,
        {
            end += 1;
        }
        let cols = if 0 < end && end < bytes.len() && bytes[end - 1] == 13u8 {
            end - 1
        } else {
            end
        };
        let chars = chars_of(s);
        let ls = lines(&chars);
        let rows = ls.len();
        assert(pieces_view(ls@).len() == ls.len());
        if rows == 0 {
            return Err(GridError::Empty);
        }
        let ghost all = spec_lines(s@);
        let mut data: Vec<char> = Vec::new();
        let mut i: usize = 0;
        assert(all.take(0) == Seq::<Seq<char>>::empty());
        while i < ls.len()
            invariant
                0 <= i <= ls.len(),
                pieces_view(ls@) == all,
                data@ == concat(all.take(i as int)),
            decreases ls.len() - i,
        {
            let line = &ls[i];
            let ghost before = data@;
            let mut k: usize = 0;
            while k < line.len()
                invariant
                    0 <= k <= line.len(),
                    data@ == before + line@.take(k as int),
                decreases line.len() - k,
            {
                data.push(line[k]);
                proof {
                    assert(line@.take(k + 1) == line@.take(k as int).push(line[k as int]));
                }
                k += 1;
            }
            proof {
                assert(line@.take(k as int) == line@);
                assert(all[i as int] == ls[i as int]@);
                assert(all.take(i + 1).drop_last() == all.take(i as int));
                assert(all.take(i + 1).last() == line@);
            }
            i += 1;
        }
        assert(all.take(i as int) == all);
        Ok(Grid { data, rows, cols })
    }
}

} // verus!
