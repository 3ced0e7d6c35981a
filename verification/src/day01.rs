//! A dial with the positions 0 to 99, starting at 50, is turned left and right;
//! counted are the times it points at 0.
use crate::text::{
    chars_of, copy_range, lines, parse_bounded, parse_unsigned_max, pieces_view, spec_lines,
};
use vstd::prelude::*;

verus! {

#[derive(Debug, PartialEq, Eq, Structural, Clone, Copy)]
pub enum Rotation {
    Left,
    Right,
}

/// One turn of the dial: `steps` clicks in one direction.
#[derive(Debug, PartialEq, Eq, Structural, Clone, Copy)]
pub struct Move {
    pub rotation: Rotation,
    pub steps: u32,
}

/// Why a text is not a move.
#[derive(Debug, PartialEq, Eq, Structural, Clone, Copy)]
pub enum MoveError {
    /// The text is empty.
    Empty,
    /// The first character is neither `L` nor `R`.
    InvalidRotation,
    /// What follows the first character is not a decimal `u32`.
    InvalidSteps,
}

/// The move that `s` denotes: `L` or `R`, then the number of steps.
pub open spec fn spec_parse_move(s: Seq<char>) -> Result<Move, MoveError> {
    if s.len() == 0 {
        Err(MoveError::Empty)
    } else if s[0] != 'L' && s[0] != 'R' {
        Err(MoveError::InvalidRotation)
    } else {
        match parse_bounded(s.drop_first(), u32::MAX as nat) {
            None => Err(MoveError::InvalidSteps),
            Some(v) => Ok(
                Move {
                    rotation: if s[0] == 'L' {
                        Rotation::Left
                    } else {
                        Rotation::Right
                    },
                    steps: v as u32,
                },
            ),
        }
    }
}

/// The moves that the lines denote, or the error of the first line that
/// denotes none.
pub open spec fn parse_moves(lines: Seq<Seq<char>>) -> Result<Seq<Move>, MoveError>
    decreases lines.len(),
{
    if lines.len() == 0 {
        Ok(Seq::empty())
    } else {
        match parse_moves(lines.drop_last()) {
            Err(e) => Err(e),
            Ok(ms) => match spec_parse_move(lines.last()) {
                Err(e) => Err(e),
                Ok(m) => Ok(ms.push(m)),
            },
        }
    }
}

impl Move {
    /// The signed number of steps: negative to the left.
    pub open spec fn spec_offset(&self) -> int {
        match self.rotation {
            Rotation::Left => -(self.steps as int),
            Rotation::Right => self.steps as int,
        }
    }

    pub fn get_offset(&self) -> (r: i64)
        ensures
            r == self.spec_offset(),
    {
        match self.rotation {
            Rotation::Left => -(self.steps as i64),
            Rotation::Right => self.steps as i64,
        }
    }

    /// Reads a move from the characters of its textual form.
    pub fn from_chars(s: &Vec<char>) -> (r: Result<Move, MoveError>)
        ensures
            r == spec_parse_move(s@),
    {
        if s.len() == 0 {
            return Err(MoveError::Empty);
        }
        let rotation = if s[0] == 'L' {
            Rotation::Left
        } else if s[0] == 'R' {
            Rotation::Right
        } else {
            return Err(MoveError::InvalidRotation);
        };
        let rest = copy_range(s, 1, s.len());
        assert(rest@ == s@.drop_first());
        match parse_unsigned_max(&rest, 0xffff_ffff) {
            Some(v) => Ok(Move { rotation, steps: v as u32 }),
            None => Err(MoveError::InvalidSteps),
        }
    }

    /// Reads a move from its textual form, such as `L68`.
    pub fn from_str(s: &str) -> (r: Result<Move, MoveError>)
        ensures
            r == spec_parse_move(s@),
    {
        Move::from_chars(&chars_of(s))
    }
}

/// Where the dial points after the first `k` moves.
pub open spec fn dial(moves: Seq<Move>, k: int) -> int
    decreases k,
{
    if k <= 0 {
        50
    } else {
        (dial(moves, k - 1) + moves[k - 1].spec_offset()) % 100
    }
}

/// How many of the first `k` moves leave the dial pointing at 0.
pub open spec fn stops_at_zero(moves: Seq<Move>, k: int) -> nat
    decreases k,
{
    if k <= 0 {
        0
    } else {
        stops_at_zero(moves, k - 1) + if dial(moves, k) == 0 {
            1nat
        } else {
            0nat
        }
    }
}

/// Where the dial points after `steps` clicks from `from` in the direction
/// `rotation`.
pub open spec fn after_clicks(from: int, rotation: Rotation, steps: nat) -> int {
    match rotation {
        Rotation::Left => (from - steps) % 100,
        Rotation::Right => (from + steps) % 100,
    }
}

/// How many of the first `steps` clicks in the direction `rotation`, starting
/// from `from`, bring the dial to 0.
pub open spec fn clicks_at_zero(from: int, rotation: Rotation, steps: nat) -> nat
    decreases steps,
{
    if steps == 0 {
        0
    } else {
        clicks_at_zero(from, rotation, (steps - 1) as nat) + if after_clicks(
            from,
            rotation,
            steps,
        ) == 0 {
            1nat
        } else {
            0nat
        }
    }
}

/// How many clicks during the first `k` moves bring the dial to 0.
pub open spec fn passes_of_zero(moves: Seq<Move>, k: int) -> nat
    decreases k,
{
    if k <= 0 {
        0
    } else {
        passes_of_zero(moves, k - 1) + clicks_at_zero(
            dial(moves, k - 1),
            moves[k - 1].rotation,
            moves[k - 1].steps as nat,
        )
    }
}

/// Reads the moves, one per line. The first malformed line decides the error.
pub fn read_moves(input: &str) -> (r: Result<Vec<Move>, MoveError>)
    ensures
        match parse_moves(spec_lines(input@)) {
            Ok(ms) => r is Ok && r->Ok_0@ == ms,
            Err(e) => r == Err::<Vec<Move>, MoveError>(e),
        },
{
    let chars = chars_of(input);
    let ls = lines(&chars);
    let ghost all = spec_lines(input@);
    let mut out: Vec<Move> = Vec::new();
    let mut i: usize = 0;
    assert(all.take(0) == Seq::<Seq<char>>::empty());
    while i < ls.len()
        invariant
            0 <= i <= ls.len(),
            pieces_view(ls@) == all,
            all == spec_lines(input@),
            parse_moves(all.take(i as int)) == Ok::<Seq<Move>, MoveError>(out@),
        decreases ls.len() - i,
    {
        proof {
            assert(all.take(i + 1).drop_last() == all.take(i as int));
            assert(all[i as int] == ls[i as int]@);
            assert(all.take(i + 1).last() == ls[i as int]@);
        }
        match Move::from_chars(&ls[i]) {
            Ok(m) => {
                out.push(m);
            },
            Err(e) => {
                proof {
                    assert(parse_moves(all.take(i + 1)) == Err::<Seq<Move>, MoveError>(e));
                    lemma_parse_moves_error_stays(all, i + 1);
                }
                return Err(e);
            },
        }
        i += 1;
    }
    assert(all.take(i as int) == all);
    Ok(out)
}

/// Once a prefix of the lines fails to parse, the whole fails with the same
/// error.
pub proof fn lemma_parse_moves_error_stays(lines: Seq<Seq<char>>, k: int)
    requires
        0 <= k <= lines.len(),
        parse_moves(lines.take(k)) is Err,
    ensures
        parse_moves(lines) == parse_moves(lines.take(k)),
    decreases lines.len() - k,
{
    if k < lines.len() {
        assert(lines.take(k + 1).drop_last() == lines.take(k));
        lemma_parse_moves_error_stays(lines, k + 1);
    } else {
        assert(lines.take(k) == lines);
    }
}

/// The number of moves after which the dial points at 0.
pub fn count_stops_at_zero(moves: &Vec<Move>) -> (r: usize)
    ensures
        r == stops_at_zero(moves@, moves.len() as int),
{
    let mut password: usize = 0;
    let mut position: u32 = 50;
    let mut i: usize = 0;
    while i < moves.len()
        invariant
            0 <= i <= moves.len(),
            0 <= position < 100,
            position == dial(moves@, i as int),
            password == stops_at_zero(moves@, i as int),
            password <= i,
        decreases moves.len() - i,
    {
        let mv = moves[i];
        let turn: u32 = mv.steps % 100;
        position = match mv.rotation {
            Rotation::Left => (position + 100 - turn) % 100,
            Rotation::Right => (position + turn) % 100,
        };
        if position == 0 {
            password += 1;
        }
        i += 1;
    }
    password
}

/// Turns the dial click by click: where it points afterwards, and how many
/// clicks brought it to 0.
pub fn turn(from: u32, rotation: Rotation, steps: u32) -> (r: (u32, u32))
    requires
        from < 100,
    ensures
        r.0 == after_clicks(from as int, rotation, steps as nat),
        r.0 < 100,
        r.1 == clicks_at_zero(from as int, rotation, steps as nat),
{
    let mut position: u32 = from;
    let mut click_zero: u32 = 0;
    let mut done: u32 = 0;
    while done < steps
        invariant
            0 <= done <= steps,
            0 <= position < 100,
            0 <= from < 100,
            position == after_clicks(from as int, rotation, done as nat),
            click_zero == clicks_at_zero(from as int, rotation, done as nat),
            click_zero <= done,
        decreases steps - done,
    {
        position = match rotation {
            Rotation::Left => if position == 0 {
                99
            } else {
                position - 1
            },
            Rotation::Right => if position == 99 {
                0
            } else {
                position + 1
            },
        };
        done += 1;
        if position == 0 {
            click_zero += 1;
        }
    }
    (position, click_zero)
}

/// The number of clicks, over all moves, that bring the dial to 0.
pub fn count_passes_of_zero(moves: &Vec<Move>) -> (r: u128)
    ensures
        r == passes_of_zero(moves@, moves.len() as int),
{
    let mut password: u128 = 0;
    let mut position: u32 = 50;
    let mut i: usize = 0;
    while i < moves.len()
        invariant
            0 <= i <= moves.len(),
            0 <= position < 100,
            position == dial(moves@, i as int),
            password == passes_of_zero(moves@, i as int),
            password <= i * 0x1_0000_0000,
        decreases moves.len() - i,
    {
        let mv = moves[i];
        let (next, click_zero) = turn(position, mv.rotation, mv.steps);
        proof {
            assert(mv.spec_offset() == match mv.rotation {
                Rotation::Left => -(mv.steps as int),
                Rotation::Right => mv.steps as int,
            });
            assert(next == dial(moves@, i + 1));
            assert(passes_of_zero(moves@, i + 1) == password + click_zero);
        }
        position = next;
        password += click_zero as u128;
        i += 1;
    }
    password
}

/// How many hundreds away from the hundred of the dial, 0 to 99, a move of
/// `offset` from `from` ends on a scale without end.
pub open spec fn hundreds_passed(from: int, offset: int) -> nat {
    let h = (from + offset) / 100;
    if h >= 0 {
        h as nat
    } else {
        (-h) as nat
    }
}

/// The sum of `hundreds_passed` over the first `k` moves.
pub open spec fn hundreds_total(moves: Seq<Move>, k: int) -> nat
    decreases k,
{
    if k <= 0 {
        0
    } else {
        hundreds_total(moves, k - 1) + hundreds_passed(
            dial(moves, k - 1),
            moves[k - 1].spec_offset(),
        )
    }
}

/// The sum over all moves of `hundreds_passed`.
pub fn count_hundreds_passed(moves: &Vec<Move>) -> (r: u128)
    ensures
        r == hundreds_total(moves@, moves.len() as int),
{
    let mut password: u128 = 0;
    let mut position: u64 = 50;
    let mut i: usize = 0;
    while i < moves.len()
        invariant
            0 <= i <= moves.len(),
            0 <= position < 100,
            position == dial(moves@, i as int),
            password == hundreds_total(moves@, i as int),
            password <= i * 0x1_0000_0000,
        decreases moves.len() - i,
    {
        let mv = moves[i];
        let steps = mv.steps as u64;
        let (zero_crossing, next): (u64, u64) = match mv.rotation {
            Rotation::Right => ((position + steps) / 100, (position + steps) % 100),
            Rotation::Left => if steps <= position {
                (0, position - steps)
            } else {
                ((steps - position + 99) / 100, (100 - (steps - position) % 100) % 100)
            },
        };
        proof {
            assert(zero_crossing == hundreds_passed(position as int, mv.spec_offset()));
            assert(next == dial(moves@, i + 1));
        }
        password += zero_crossing as u128;
        position = next;
        i += 1;
    }
    password
}

/// An earlier count for the second part, kept for comparison: for each move
/// the number of hundreds that it leaves the dial by on a scale without end.
/// That is not the number of clicks on 0: a move that starts at 0 and goes left
/// leaves the hundred without a click, and a move to the left that stops at 0
/// clicks without leaving it.
pub fn part2_old(input: &str) -> (r: Result<u128, MoveError>)
    ensures
        match parse_moves(spec_lines(input@)) {
            Err(e) => r == Err::<u128, MoveError>(e),
            Ok(ms) => r is Ok && r->Ok_0 == hundreds_total(ms, ms.len() as int),
        },
{
    match read_moves(input) {
        Err(e) => Err(e),
        Ok(moves) => Ok(count_hundreds_passed(&moves)),
    }
}

/// The number of moves after which the dial points at 0, for the moves that
/// the text lists, one per line.
pub fn part1(input: &str) -> (r: Result<usize, MoveError>)
    ensures
        match parse_moves(spec_lines(input@)) {
            Err(e) => r == Err::<usize, MoveError>(e),
            Ok(ms) => r is Ok && r->Ok_0 == stops_at_zero(ms, ms.len() as int),
        },
{
    match read_moves(input) {
        Err(e) => Err(e),
        Ok(moves) => Ok(count_stops_at_zero(&moves)),
    }
}

/// The number of clicks that bring the dial to 0, for the moves that the text
/// lists, one per line.
pub fn part2(input: &str) -> (r: Result<u128, MoveError>)
    ensures
        match parse_moves(spec_lines(input@)) {
            Err(e) => r == Err::<u128, MoveError>(e),
            Ok(ms) => r is Ok && r->Ok_0 == passes_of_zero(ms, ms.len() as int),
        },
{
    match read_moves(input) {
        Err(e) => Err(e),
        Ok(moves) => Ok(count_passes_of_zero(&moves)),
    }
}

} // verus!
