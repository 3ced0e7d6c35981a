//! Rolls of paper on a grid: a roll can be taken away when fewer than four of
//! the eight cells around it hold a roll.
use crate::grid::{Grid, GridView, spec_parse_grid};
use crate::text::spec_lines;
use crate::text::{nat_of};
use vstd::prelude::*;

verus! {

/// The character that marks a roll.
pub const ROLL_CHAR: char = '@';

/// The number of rolls among the characters.
pub open spec fn count_rolls(s: Seq<char>) -> nat
    decreases s.len(),
{
    if s.len() == 0 {
        0
    } else {
        count_rolls(s.drop_last()) + if s.last() == '@' {
            1nat
        } else {
            0nat
        }
    }
}

/// Whether the cell at index `i` can be judged: its position fits the
/// coordinate range with room for a step in every direction, and `data` holds
/// every cell around it that is in the grid.
pub open spec fn judgeable(g: GridView, i: int) -> bool {
    &&& g.cols > 0
    &&& i % g.cols as int <= i32::MAX
    &&& i / g.cols as int <= i32::MAX
    &&& g.surroundings_covered(g.position_of(i))
}

/// Whether every roll among the first `k` cells can be judged.
pub open spec fn all_judgeable(g: GridView, k: int) -> bool {
    forall|i: int| 0 <= i < k && g.data[i] == '@' ==> #[trigger] judgeable(g, i)
}

/// Whether the cell at index `i` holds a roll that can be taken away: fewer
/// than four of the cells around it hold a roll.
pub open spec fn accessible(g: GridView, i: int) -> bool {
    g.data[i] == '@' && count_rolls(g.neighbours(g.position_of(i))) < 4
}

/// The number of rolls among the first `k` cells that can be taken away.
pub open spec fn accessible_count(g: GridView, k: int) -> nat
    decreases k,
{
    if k <= 0 {
        0
    } else {
        accessible_count(g, k - 1) + if accessible(g, k - 1) {
            1nat
        } else {
            0nat
        }
    }
}

/// Whether `i` is among the listed indices.
pub open spec fn lists_index(v: Seq<usize>, i: int) -> bool {
    exists|t: int| 0 <= t < v.len() && #[trigger] v[t] == i
}

/// The number of rolls that can be taken away, or `None` when the text has no
/// line, when the grid is too large to index, or when some roll cannot be
/// judged.
pub open spec fn spec_part1(input: &str) -> Option<nat> {
    let g = spec_parse_grid(input);
    if spec_lines(input@).len() == 0 || !g.indexable() || !all_judgeable(g, g.data.len() as int) {
        None
    } else {
        Some(accessible_count(g, g.data.len() as int))
    }
}

/// The grid after all rolls that can be taken away have been replaced by `.`.
pub open spec fn after_round(g: GridView) -> GridView {
    GridView {
        data: Seq::new(
            g.data.len(),
            |i: int|
                if accessible(g, i) {
                    '.'
                } else {
                    g.data[i]
                },
        ),
        ..g
    }
}

/// Whether a round of taking away can be carried out: every roll can be
/// judged, and every roll to take away stands in a cell of the grid.
pub open spec fn round_possible(g: GridView) -> bool {
    &&& g.indexable()
    &&& all_judgeable(g, g.data.len() as int)
    &&& forall|i: int|
        0 <= i < g.data.len() && #[trigger] accessible(g, i) ==> g.is_pos_valid(g.position_of(i))
}

/// The number of rolls taken away over all rounds, until a round takes none;
/// `None` when some round cannot be carried out.
pub open spec fn total_removed(g: GridView) -> Option<nat>
    decreases count_rolls(g.data),
{
    if !round_possible(g) {
        None
    } else {
        let k = accessible_count(g, g.data.len() as int);
        if k == 0 {
            Some(0)
        } else {
            proof {
                lemma_round_removes(g, g.data.len() as int);
                assert(g.data.take(g.data.len() as int) == g.data);
                assert(after_round(g).data.take(g.data.len() as int) == after_round(g).data);
            }
            match total_removed(after_round(g)) {
                Some(t) => Some(k + t),
                None => None,
            }
        }
    }
}

/// The number of rolls taken away over all rounds, or `None` when the text has
/// no line or some round cannot be carried out.
pub open spec fn spec_part2(input: &str) -> Option<nat> {
    if spec_lines(input@).len() == 0 {
        None
    } else {
        total_removed(spec_parse_grid(input))
    }
}

/// A round takes away as many rolls as can be taken away.
pub proof fn lemma_round_removes(g: GridView, k: int)
    requires
        0 <= k <= g.data.len(),
    ensures
        count_rolls(after_round(g).data.take(k)) + accessible_count(g, k) == count_rolls(
            g.data.take(k),
        ),
    decreases k,
{
    if k > 0 {
        lemma_round_removes(g, k - 1);
        assert(g.data.take(k).drop_last() == g.data.take(k - 1));
        assert(after_round(g).data.take(k).drop_last() == after_round(g).data.take(k - 1));
    }
}

/// There are no more rolls than characters.
pub proof fn lemma_count_rolls_bound(s: Seq<char>)
    ensures
        count_rolls(s) <= s.len(),
    decreases s.len(),
{
    if s.len() > 0 {
        lemma_count_rolls_bound(s.drop_last());
    }
}

/// The number of rolls among the characters.
pub fn count_roll_chars(s: &Vec<char>) -> (r: usize)
    ensures
        r == count_rolls(s@),
{
    let mut n: usize = 0;
    let mut i: usize = 0;
    while i < s.len()
        invariant
            0 <= i <= s.len(),
            n == count_rolls(s@.take(i as int)),
            n <= i,
        decreases s.len() - i,
    {
        proof {
            assert(s@.take(i + 1).drop_last() == s@.take(i as int));
        }
        if s[i] == ROLL_CHAR {
            n += 1;
        }
        i += 1;
    }
    assert(s@.take(i as int) == s@);
    n
}

/// Judges the cell at index `i`: whether it holds a roll that can be taken
/// away; `None` for a roll that cannot be judged.
pub fn is_accessible(grid: &Grid, i: usize) -> (r: Option<bool>)
    requires
        grid@.indexable(),
        i < grid.data.len(),
    ensures
        r == if grid.data[i as int] != '@' {
            Some(false)
        } else if !judgeable(grid@, i as int) {
            None
        } else {
            Some(accessible(grid@, i as int))
        },
{
    if grid.data[i] != ROLL_CHAR {
        return Some(false);
    }
    if grid.cols == 0 {
        return None;
    }
    if i % grid.cols > i32::MAX as usize || i / grid.cols > i32::MAX as usize {
        return None;
    }
    let pos = grid.get_position_index(i);
    if !grid.are_surroundings_covered(&pos) {
        return None;
    }
    let neighbors = grid.check_all_directions(&pos);
    Some(count_roll_chars(&neighbors) < 4)
}

/// The indices of the rolls that can be taken away, in increasing order;
/// `None` when some roll cannot be judged.
pub fn accessible_indices(grid: &Grid) -> (r: Option<Vec<usize>>)
    requires
        grid@.indexable(),
    ensures
        r is Some <==> all_judgeable(grid@, grid.data.len() as int),
        r is Some ==> r->Some_0.len() == accessible_count(grid@, grid.data.len() as int),
        r is Some ==> forall|t: int|
            0 <= t < r->Some_0.len() ==> r->Some_0[t] < grid.data.len() && accessible(
                grid@,
                #[trigger] r->Some_0[t] as int,
            ),
        r is Some ==> forall|i: int|
            #![trigger accessible(grid@, i)]
            0 <= i < grid.data.len() && accessible(grid@, i) ==> lists_index(r->Some_0@, i),
{
    let mut out: Vec<usize> = Vec::new();
    let mut i: usize = 0;
    while i < grid.data.len()
        invariant
            0 <= i <= grid.data.len(),
            grid@.indexable(),
            all_judgeable(grid@, i as int),
            out.len() == accessible_count(grid@, i as int),
            out.len() <= i,
            forall|t: int| 0 <= t < out.len() ==> out[t] < i && accessible(grid@, #[trigger] out[t] as int),
            forall|k: int|
                #![trigger accessible(grid@, k)]
                0 <= k < i && accessible(grid@, k) ==> lists_index(out@, k),
        decreases grid.data.len() - i,
    {
        match is_accessible(grid, i) {
            None => {
                assert(!judgeable(grid@, i as int));
                return None;
            },
            Some(true) => {
                let ghost before = out@;
                out.push(i);
                assert forall|k: int|
                    #![trigger accessible(grid@, k)]
                    0 <= k < i + 1 && accessible(grid@, k) implies lists_index(out@, k) by {
                    if k < i {
                        assert(lists_index(before, k));
                        let t = choose|t: int| 0 <= t < before.len() && #[trigger] before[t] == k;
                        assert(out[t] == k);
                    } else {
                        assert(out[before.len() as int] == k);
                    }
                }
            },
            Some(false) => {},
        }
        i += 1;
    }
    Some(out)
}

/// The number of rolls that can be taken away from the grid that the text
/// shows.
pub fn part1(input: &str) -> (r: Option<usize>)
    ensures
        nat_of(r) == spec_part1(input),
{
    let grid = match Grid::from_str(input) {
        Ok(g) => g,
        Err(_) => {
            return None;
        },
    };
    if !is_indexable(&grid) {
        return None;
    }
    match accessible_indices(&grid) {
        Some(v) => Some(v.len()),
        None => None,
    }
}

/// Whether every cell of the grid has an index that fits the machine.
pub fn is_indexable(grid: &Grid) -> (r: bool)
    ensures
        r == grid@.indexable(),
{
    match grid.rows.checked_mul(grid.cols) {
        Some(_) => true,
        None => false,
    }
}

/// Whether every one of the given rolls stands in a cell of the grid.
fn all_in_grid(grid: &Grid, indices: &Vec<usize>) -> (r: bool)
    requires
        grid@.indexable(),
        all_judgeable(grid@, grid.data.len() as int),
        forall|u: int|
            0 <= u < indices.len() ==> indices[u] < grid.data.len() && accessible(
                grid@,
                #[trigger] indices[u] as int,
            ),
    ensures
        r == forall|u: int|
            0 <= u < indices.len() ==> grid@.is_pos_valid(
                grid@.position_of(#[trigger] indices[u] as int),
            ),
{
    let mut t: usize = 0;
    while t < indices.len()
        invariant
            0 <= t <= indices.len(),
            grid@.indexable(),
            all_judgeable(grid@, grid.data.len() as int),
            forall|u: int|
                0 <= u < indices.len() ==> indices[u] < grid.data.len() && accessible(
                    grid@,
                    #[trigger] indices[u] as int,
                ),
            forall|u: int|
                0 <= u < t ==> grid@.is_pos_valid(grid@.position_of(#[trigger] indices[u] as int)),
        decreases indices.len() - t,
    {
        let i = indices[t];
        assert(accessible(grid@, i as int));
        assert(judgeable(grid@, i as int));
        let pos = grid.get_position_index(i);
        if !grid.is_pos_valid(&pos) {
            return false;
        }
        t += 1;
    }
    true
}

/// Takes away the rolls at the given indices.
fn remove_rolls(grid: &mut Grid, indices: &Vec<usize>)
    requires
        round_possible(old(grid)@),
        forall|t: int|
            0 <= t < indices.len() ==> indices[t] < old(grid).data.len() && accessible(
                old(grid)@,
                #[trigger] indices[t] as int,
            ),
        forall|i: int|
            #![trigger accessible(old(grid)@, i)]
            0 <= i < old(grid).data.len() && accessible(old(grid)@, i) ==> lists_index(indices@, i),
    ensures
        final(grid)@ == after_round(old(grid)@),
{
    let ghost start = grid@;
    let mut k: usize = 0;
    while k < indices.len()
        invariant
            0 <= k <= indices.len(),
            round_possible(start),
            grid@.rows == start.rows,
            grid@.cols == start.cols,
            grid@.data.len() == start.data.len(),
            forall|t: int|
                0 <= t < indices.len() ==> indices[t] < start.data.len() && accessible(
                    start,
                    #[trigger] indices[t] as int,
                ),
            forall|i: int|
                0 <= i < start.data.len() ==> #[trigger] grid@.data[i] == if exists|t: int|
                    0 <= t < k && #[trigger] indices[t] == i {
                    '.'
                } else {
                    start.data[i]
                },
        decreases indices.len() - k,
    {
        let i = indices[k];
        assert(accessible(start, i as int));
        assert(judgeable(start, i as int));
        let pos = grid.get_position_index(i);
        proof {
            assert(pos == start.position_of(i as int));
            assert(start.is_pos_valid(pos));
            let cols = grid@.cols as int;
            assert(i as int == cols * (i as int / cols) + i as int % cols) by {
                vstd::arithmetic::div_mod::lemma_fundamental_div_mod(i as int, cols);
            }
            assert(grid@.index(pos) == i) by (nonlinear_arith)
                requires
                    grid@.index(pos) == pos.y * cols + pos.x,
                    pos.y == i as int / cols,
                    pos.x == i as int % cols,
                    i as int == cols * (i as int / cols) + i as int % cols,
            ;
        }
        let ghost before = grid@;
        grid.set(&pos, '.');
        assert forall|j: int| 0 <= j < start.data.len() implies #[trigger] grid@.data[j] == if exists|
            t: int,
        |
            0 <= t < k + 1 && #[trigger] indices[t] == j {
            '.'
        } else {
            start.data[j]
        } by {
            if j == i {
                assert(indices[k as int] == j);
            } else {
                if exists|t: int| 0 <= t < k + 1 && #[trigger] indices[t] == j {
                    let t = choose|t: int| 0 <= t < k + 1 && #[trigger] indices[t] == j;
                    assert(t < k);
                }
            }
        }
        k += 1;
    }
    assert(grid@.data =~= after_round(start).data) by {
        assert forall|j: int| 0 <= j < start.data.len() implies grid@.data[j] == after_round(
            start,
        ).data[j] by {
            if accessible(start, j) {
                let t = choose|t: int| 0 <= t < indices.len() && #[trigger] indices[t] == j;
            } else {
                if exists|t: int| 0 <= t < indices.len() && #[trigger] indices[t] == j {
                    let t = choose|t: int| 0 <= t < indices.len() && #[trigger] indices[t] == j;
                    assert(accessible(start, indices[t] as int));
                }
            }
        }
    }
}

/// The number of rolls taken away from the grid that the text shows when
/// rounds of taking away are repeated until a round takes none.
pub fn part2(input: &str) -> (r: Option<usize>)
    ensures
        nat_of(r) == spec_part2(input),
{
    let mut grid = match Grid::from_str(input) {
        Ok(g) => g,
        Err(_) => {
            return None;
        },
    };
    let ghost start = grid@;
    let mut sum: usize = 0;
    proof {
        lemma_count_rolls_bound(grid@.data);
    }
    loop
        invariant
            start == spec_parse_grid(input),
            spec_lines(input@).len() > 0,
            grid@.data.len() == start.data.len(),
            sum + count_rolls(grid@.data) <= start.data.len(),
            match total_removed(grid@) {
                Some(t) => total_removed(start) == Some((sum + t) as nat),
                None => total_removed(start) is None,
            },
        ensures
            total_removed(start) == Some(sum as nat),
        decreases count_rolls(grid@.data),
    {
        if !is_indexable(&grid) {
            return None;
        }
        let indices_to_remove = match accessible_indices(&grid) {
            Some(v) => v,
            None => {
                return None;
            },
        };
        let removed_count = indices_to_remove.len();
        if removed_count == 0 {
            break;
        }
        if !all_in_grid(&grid, &indices_to_remove) {
            return None;
        }
        proof {
            assert forall|i: int|
                0 <= i < grid@.data.len() && #[trigger] accessible(
                    grid@,
                    i,
                ) implies grid@.is_pos_valid(grid@.position_of(i)) by {
                let u = choose|u: int|
                    0 <= u < indices_to_remove.len() && #[trigger] indices_to_remove[u] == i;
            }
            assert(round_possible(grid@));
            lemma_round_removes(grid@, grid@.data.len() as int);
            assert(grid@.data.take(grid@.data.len() as int) == grid@.data);
            assert(after_round(grid@).data.take(grid@.data.len() as int) == after_round(
                grid@,
            ).data);
        }
        remove_rolls(&mut grid, &indices_to_remove);
        sum += removed_count;
    }
    Some(sum)
}

} // verus!
