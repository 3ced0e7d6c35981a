//! A beam enters a manifold at `S` and falls row by row; a splitter `^` below
//! a beam ends it and starts one beam to its left and one to its right.
//! Counted are the splits, and the paths that a particle can take.
use crate::text::{chars_of, lines, nat_of, next_sep, pieces_view, spec_lines};
use vstd::prelude::*;

verus! {

/// Whether the manifold has a splitter in column `x` of row `y`.
pub open spec fn splitter(rows: Seq<Seq<char>>, x: int, y: int) -> bool {
    0 <= y < rows.len() && 0 <= x < rows[y].len() && rows[y][x] == '^'
}

/// The column in which the beam starts: the index of the first `S` in the
/// text, or `None` without an `S`.
pub open spec fn start_column(input: Seq<char>) -> Option<int> {
    let i = next_sep(input, 'S', 0);
    if i < input.len() {
        Some(i)
    } else {
        None
    }
}

/// The length of the longest of the first `k` rows.
pub open spec fn widest(rows: Seq<Seq<char>>, k: int) -> nat
    decreases k,
{
    if k <= 0 {
        0
    } else {
        let w = widest(rows, k - 1);
        if rows[k - 1].len() > w {
            rows[k - 1].len()
        } else {
            w
        }
    }
}

/// The number of paths that lead from the start to column `x` of row `k`.
/// A path goes straight down unless the cell below holds a splitter; then it
/// goes on one column to the left or to the right of it.
pub open spec fn paths(rows: Seq<Seq<char>>, start: int, k: int, x: int) -> nat
    decreases k,
{
    if k <= 0 {
        if x == start {
            1
        } else {
            0
        }
    } else {
        let straight = if splitter(rows, x, k) {
            0
        } else {
            paths(rows, start, k - 1, x)
        };
        let from_left = if splitter(rows, x - 1, k) {
            paths(rows, start, k - 1, x - 1)
        } else {
            0
        };
        let from_right = if splitter(rows, x + 1, k) {
            paths(rows, start, k - 1, x + 1)
        } else {
            0
        };
        straight + from_left + from_right
    }
}

/// Whether a beam reaches column `x` of row `k`.
pub open spec fn reached(rows: Seq<Seq<char>>, start: int, k: int, x: int) -> bool {
    paths(rows, start, k, x) > 0
}

/// The number of beams in the columns before `n` of row `k` that have a
/// splitter below them.
pub open spec fn splits_in_row(rows: Seq<Seq<char>>, start: int, k: int, n: int) -> nat
    decreases n,
{
    if n <= 0 {
        0
    } else {
        splits_in_row(rows, start, k, n - 1) + if reached(rows, start, k, n - 1) && splitter(
            rows,
            n - 1,
            k + 1,
        ) {
            1nat
        } else {
            0nat
        }
    }
}

/// The number of splits in the rows before `k`.
pub open spec fn splits(rows: Seq<Seq<char>>, start: int, k: int) -> nat
    decreases k,
{
    if k <= 0 {
        0
    } else {
        splits(rows, start, k - 1) + splits_in_row(
            rows,
            start,
            k - 1,
            widest(rows, rows.len() as int) as int,
        )
    }
}

/// The number of paths that end in row `k` in one of the columns from -1 up to
/// but not including `n`.
pub open spec fn paths_in_row(rows: Seq<Seq<char>>, start: int, k: int, n: int) -> nat
    decreases n + 1,
{
    if n <= -1 {
        0
    } else {
        paths_in_row(rows, start, k, n - 1) + paths(rows, start, k, n - 1)
    }
}

/// The greater of the width of the manifold and the start column: no beam
/// gets beyond this column.
pub open spec fn last_column(rows: Seq<Seq<char>>, start: int) -> int {
    let w = widest(rows, rows.len() as int) as int;
    if start > w {
        start
    } else {
        w
    }
}

/// No beam leaves the columns from -1 to `last_column`.
pub proof fn lemma_paths_confined(rows: Seq<Seq<char>>, start: int, k: int, x: int)
    requires
        0 <= start,
        x < -1 || x > last_column(rows, start),
    ensures
        paths(rows, start, k, x) == 0,
    decreases k,
{
    if k > 0 {
        lemma_paths_confined(rows, start, k - 1, x);
        if splitter(rows, x - 1, k) {
            lemma_widest_bounds(rows, rows.len() as int, k);
        }
        if splitter(rows, x + 1, k) {
            lemma_widest_bounds(rows, rows.len() as int, k);
        }
    }
}

/// No row among the first `k` is longer than the widest.
pub proof fn lemma_widest_bounds(rows: Seq<Seq<char>>, k: int, y: int)
    requires
        0 <= y < k <= rows.len(),
    ensures
        rows[y].len() <= widest(rows, k),
    decreases k,
{
    if y < k - 1 {
        lemma_widest_bounds(rows, k - 1, y);
    }
}

/// The number of splits, or zero without an `S`.
pub open spec fn spec_part1(input: Seq<char>) -> nat {
    let rows = spec_lines(input);
    match start_column(input) {
        None => 0,
        Some(start) => splits(rows, start, rows.len() as int),
    }
}

/// Whether every count that the tally of paths passes through fits `usize`.
pub open spec fn paths_fit(rows: Seq<Seq<char>>, start: int) -> bool {
    &&& last_column(rows, start) + 2 <= usize::MAX
    &&& forall|k: int, x: int|
        0 <= k <= rows.len() && -1 <= x <= last_column(rows, start) ==> #[trigger] paths(
            rows,
            start,
            k,
            x,
        ) <= usize::MAX
    &&& paths_in_row(rows, start, rows.len() as int, last_column(rows, start) + 1) <= usize::MAX
}

/// The number of paths to the row below the last, or zero without an `S`;
/// `None` when a count exceeds `usize`.
pub open spec fn spec_part2(input: Seq<char>) -> Option<nat> {
    let rows = spec_lines(input);
    match start_column(input) {
        None => Some(0),
        Some(start) => if paths_fit(rows, start) {
            Some(paths_in_row(rows, start, rows.len() as int, last_column(rows, start) + 1))
        } else {
            None
        },
    }
}

/// The index of the first `S`, if there is one.
pub fn find_start(chars: &Vec<char>) -> (r: Option<usize>)
    ensures
        start_column(chars@) == match r {
            Some(i) => Some(i as int),
            None => None,
        },
        r is Some ==> r->Some_0 < chars.len(),
{
    let mut i: usize = 0;
    while i < chars.len() && chars[i] != 'S'
        invariant
            0 <= i <= chars.len(),
            next_sep(chars@, 'S', 0) == next_sep(chars@, 'S', i as int),
        decreases chars.len() - i,
    {
        i += 1;
    }
    if i < chars.len() {
        Some(i)
    } else {
        None
    }
}

/// The length of the longest row.
pub fn widest_row(rows: &Vec<Vec<char>>) -> (w: usize)
    ensures
        w == widest(pieces_view(rows@), rows.len() as int),
{
    let mut w: usize = 0;
    let mut k: usize = 0;
    while k < rows.len()
        invariant
            0 <= k <= rows.len(),
            w == widest(pieces_view(rows@), k as int),
        decreases rows.len() - k,
    {
        assert(pieces_view(rows@)[k as int] == rows[k as int]@);
        if rows[k].len() > w {
            w = rows[k].len();
        }
        k += 1;
    }
    w
}

/// Whether the cell with window index `j`, which stands for column `j - 1`,
/// holds a splitter in row `y`.
pub fn is_splitter(rows: &Vec<Vec<char>>, j: usize, y: usize) -> (r: bool)
    ensures
        r == splitter(pieces_view(rows@), j - 1, y as int),
{
    if y < rows.len() {
        assert(pieces_view(rows@)[y as int] == rows[y as int]@);
    }
    j >= 1 && y < rows.len() && j - 1 < rows[y].len() && rows[y][j - 1] == '^'
}

/// Whether a beam stands in column `c` of the row below row `step`, when
/// `beams` tells for each column whether a beam stands there in row `step`.
pub open spec fn beam_below(rows: Seq<Seq<char>>, beams: Seq<bool>, step: int, c: int) -> bool {
    ||| (beams[c] && !splitter(rows, c, step + 1))
    ||| (c >= 1 && beams[c - 1] && splitter(rows, c - 1, step + 1))
    ||| (c + 1 < beams.len() && beams[c + 1] && splitter(rows, c + 1, step + 1))
}

/// The beams of the row below row `step`.
pub open spec fn beams_below(rows: Seq<Seq<char>>, beams: Seq<bool>, step: int) -> Seq<bool> {
    Seq::new(beams.len(), |c: int| beam_below(rows, beams, step, c))
}

/// The number of beams in the columns before `n` of row `step` that have a
/// splitter below them.
pub open spec fn beams_split(rows: Seq<Seq<char>>, beams: Seq<bool>, step: int, n: int) -> nat
    decreases n,
{
    if n <= 0 {
        0
    } else {
        beams_split(rows, beams, step, n - 1) + if beams[n - 1] && splitter(rows, n - 1, step + 1) {
            1nat
        } else {
            0nat
        }
    }
}

/// The beams of the first row: one in the start column, if it is among the
/// `width` columns.
pub fn start_beams(width: usize, start: usize) -> (beams: Vec<bool>)
    ensures
        beams.len() == width,
        forall|c: int| 0 <= c < width ==> beams[c] == (c == start),
{
    let mut beams: Vec<bool> = Vec::new();
    let mut x: usize = 0;
    while x < width
        invariant
            0 <= x <= width,
            beams.len() == x,
            forall|c: int| 0 <= c < x ==> beams[c] == (c == start),
        decreases width - x,
    {
        beams.push(x == start);
        x += 1;
    }
    beams
}

/// One step of the fall: from the beams of row `step`, the beams of the row
/// below and the number of splits on the way.
pub fn advance(rows: &Vec<Vec<char>>, beams: &Vec<bool>, step: usize) -> (r: (Vec<bool>, usize))
    requires
        step < usize::MAX,
    ensures
        r.0@ == beams_below(pieces_view(rows@), beams@, step as int),
        r.1 == beams_split(pieces_view(rows@), beams@, step as int, beams.len() as int),
        r.1 <= beams.len(),
{
    let ghost view = pieces_view(rows@);
    let w = beams.len();
    let mut next: Vec<bool> = Vec::new();
    let mut row_splits: usize = 0;
    let mut c: usize = 0;
    while c < w
        invariant
            0 <= c <= w,
            w == beams.len(),
            step < usize::MAX,
            view == pieces_view(rows@),
            next.len() == c,
            forall|d: int| 0 <= d < c ==> next[d] == beam_below(view, beams@, step as int, d),
            row_splits == beams_split(view, beams@, step as int, c as int),
            row_splits <= c,
        decreases w - c,
    {
        let below = is_splitter(rows, c + 1, step + 1);
        if beams[c] && below {
            row_splits += 1;
        }
        let straight = beams[c] && !below;
        let from_left = c >= 1 && beams[c - 1] && is_splitter(rows, c, step + 1);
        let from_right = c + 1 < w && beams[c + 1] && is_splitter(rows, c + 2, step + 1);
        next.push(straight || from_left || from_right);
        c += 1;
    }
    assert(next@ =~= beams_below(view, beams@, step as int));
    (next, row_splits)
}

/// Counting the splits of a row by its beams agrees with counting them by the
/// columns that are reached.
pub proof fn lemma_beams_split(
    rows: Seq<Seq<char>>,
    start: int,
    beams: Seq<bool>,
    step: int,
    n: int,
)
    requires
        0 <= n <= beams.len(),
        forall|c: int| 0 <= c < beams.len() ==> beams[c] == reached(rows, start, step, c),
    ensures
        beams_split(rows, beams, step, n) == splits_in_row(rows, start, step, n),
    decreases n,
{
    if n > 0 {
        lemma_beams_split(rows, start, beams, step, n - 1);
    }
}

/// The number of splits when the beam falls through the manifold.
pub fn part1(input: &str) -> (r: u128)
    ensures
        r == spec_part1(input@),
{
    let chars = chars_of(input);
    let rows = lines(&chars);
    let start = match find_start(&chars) {
        Some(i) => i,
        None => {
            return 0;
        },
    };
    let ghost view = pieces_view(rows@);
    let ghost s = start as int;
    let height = rows.len();
    assert(view.len() == rows.len());
    let w = widest_row(&rows);
    // Beams that can still split stand in the columns before `w`.
    let mut beams = start_beams(w, start);
    let mut nb_split: u128 = 0;
    let mut step: usize = 0;
    while step < height
        invariant
            0 <= step <= height,
            height == rows.len(),
            view == pieces_view(rows@),
            view == spec_lines(input@),
            w == widest(view, view.len() as int),
            beams.len() == w,
            forall|c: int| 0 <= c < w ==> beams[c] == reached(view, s, step as int, c),
            nb_split == splits(view, s, step as int),
            nb_split <= step * 0x1_0000_0000_0000_0000,
        decreases height - step,
    {
        let (next, row_splits) = advance(&rows, &beams, step);
        proof {
            lemma_beams_split(view, s, beams@, step as int, w as int);
            assert forall|c: int| 0 <= c < w implies next[c] == reached(view, s, step + 1, c) by {
                assert(next[c] == beam_below(view, beams@, step as int, c));
                if c == 0 && splitter(view, c - 1, step + 1) {
                    assert(false);
                }
                if c + 1 >= w && splitter(view, c + 1, step + 1) {
                    lemma_widest_bounds(view, view.len() as int, step + 1);
                    assert(false);
                }
            }
        }
        beams = next;
        nb_split += row_splits as u128;
        step += 1;
    }
    nb_split
}

/// The sum of two counts; `None` when it exceeds `usize`.
fn add_counts(a: usize, b: usize) -> (r: Option<usize>)
    ensures
        r == if a + b <= usize::MAX {
            Some((a + b) as usize)
        } else {
            None
        },
{
    a.checked_add(b)
}

/// The number of paths that a particle can take through the manifold.
pub fn part2(input: &str) -> (r: Option<usize>)
    ensures
        nat_of(r) == spec_part2(input@),
{
    let chars = chars_of(input);
    let rows = lines(&chars);
    let start = match find_start(&chars) {
        Some(i) => i,
        None => {
            return Some(0);
        },
    };
    let ghost view = pieces_view(rows@);
    let ghost s = start as int;
    let height = rows.len();
    assert(view.len() == rows.len());
    let w = widest_row(&rows);
    let last = if start > w {
        start
    } else {
        w
    };
    if last > usize::MAX - 2 {
        return None;
    }
    // The window index `j` stands for column `j - 1`.
    let n = last + 2;
    let mut counts: Vec<usize> = Vec::new();
    let mut j: usize = 0;
    while j < n
        invariant
            0 <= j <= n,
            s == start,
            counts.len() == j,
            forall|d: int| 0 <= d < j ==> counts[d] == paths(view, s, 0, d - 1),
        decreases n - j,
    {
        counts.push(if j >= 1 && j - 1 == start {
            1
        } else {
            0
        });
        j += 1;
    }
    let mut step: usize = 0;
    while step < height
        invariant
            0 <= step <= height,
            height == rows.len(),
            view == pieces_view(rows@),
            view == spec_lines(input@),
            start_column(input@) == Some(s),
            last == last_column(view, s),
            n == last + 2,
            counts.len() == n,
            forall|d: int| 0 <= d < n ==> counts[d] == paths(view, s, step as int, d - 1),
            forall|k: int, x: int|
                0 <= k <= step && -1 <= x <= last ==> #[trigger] paths(view, s, k, x) <= usize::MAX,
        decreases height - step,
    {
        let mut next: Vec<usize> = Vec::new();
        let mut j: usize = 0;
        while j < n
            invariant
                0 <= j <= n,
                step < height,
                height == rows.len(),
                view == pieces_view(rows@),
                view == spec_lines(input@),
                start_column(input@) == Some(s),
                last == last_column(view, s),
                n == last + 2,
                counts.len() == n,
                next.len() == j,
                forall|d: int| 0 <= d < n ==> counts[d] == paths(view, s, step as int, d - 1),
                forall|d: int| 0 <= d < j ==> next[d] == paths(view, s, step + 1, d - 1),
            decreases n - j,
        {
            let straight = if is_splitter(&rows, j, step + 1) {
                0
            } else {
                counts[j]
            };
            let from_left = if j >= 1 && is_splitter(&rows, j - 1, step + 1) {
                counts[j - 1]
            } else {
                0
            };
            let from_right = if j + 1 < n && is_splitter(&rows, j + 1, step + 1) {
                counts[j + 1]
            } else {
                0
            };
            proof {
                if j == 0 && splitter(view, j - 2, step + 1) {
                    assert(false);
                }
                if j + 1 >= n && splitter(view, j as int, step + 1) {
                    lemma_widest_bounds(view, view.len() as int, step + 1);
                    assert(false);
                }
                assert(paths(view, s, step + 1, j - 1) == straight + from_left + from_right);
            }
            let sum = match add_counts(straight, from_left) {
                Some(t) => add_counts(t, from_right),
                None => None,
            };
            match sum {
                Some(v) => {
                    next.push(v);
                },
                None => {
                    assert(paths(view, s, step + 1, j - 1) > usize::MAX);
                    return None;
                },
            }
            j += 1;
        }
        proof {
            assert forall|k: int, x: int|
                0 <= k <= step + 1 && -1 <= x <= last implies #[trigger] paths(view, s, k, x)
                <= usize::MAX by {
                if k == step + 1 {
                    assert(next[x + 1] == paths(view, s, step + 1, x));
                }
            }
        }
        counts = next;
        step += 1;
    }
    let mut total: usize = 0;
    let mut j: usize = 0;
    while j < n
        invariant
            0 <= j <= n,
            height == rows.len(),
            view == pieces_view(rows@),
            view == spec_lines(input@),
            start_column(input@) == Some(s),
            last == last_column(view, s),
            n == last + 2,
            counts.len() == n,
            forall|d: int| 0 <= d < n ==> counts[d] == paths(view, s, height as int, d - 1),
            forall|k: int, x: int|
                0 <= k <= height && -1 <= x <= last ==> #[trigger] paths(view, s, k, x)
                    <= usize::MAX,
            total == paths_in_row(view, s, height as int, j - 1),
        decreases n - j,
    {
        total = match add_counts(total, counts[j]) {
            Some(t) => t,
            None => {
                proof {
                    assert(paths_in_row(view, s, height as int, j as int) > usize::MAX);
                    lemma_paths_in_row_grows(view, s, height as int, j as int, n - 1);
                }
                return None;
            },
        };
        j += 1;
    }
    Some(total)
}

/// Counting more columns never gives less.
pub proof fn lemma_paths_in_row_grows(rows: Seq<Seq<char>>, start: int, k: int, m: int, n: int)
    requires
        -1 <= m <= n,
    ensures
        paths_in_row(rows, start, k, m) <= paths_in_row(rows, start, k, n),
    decreases n - m,
{
    if m < n {
        lemma_paths_in_row_grows(rows, start, k, m, n - 1);
    }
}

} // verus!
