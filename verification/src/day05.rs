//! Ranges of fresh ingredient numbers: how many of the listed numbers lie in
//! some range, and how many numbers the ranges cover after merging.
use crate::text::{
    chars_of, copy_range, lines, nat_of, nat_of_u128, parse_bounded, parse_unsigned_max,
    pieces_view, spec_lines, spec_split, split,
};
use vstd::prelude::*;

verus! {

/// The numbers from `start` to `end`, both included.
#[derive(Debug, PartialEq, Eq, Structural, Clone, Copy)]
pub struct Range {
    pub start: usize,
    pub end: usize,
}

impl Range {
    pub open spec fn spec_contains(&self, nb: usize) -> bool {
        nb >= self.start && nb <= self.end
    }

    pub open spec fn spec_is_overlapping(&self, other: &Range) -> bool {
        self.start <= other.end && other.start <= self.end
    }

    /// Whether the two ranges overlap or follow one another without a gap.
    pub open spec fn spec_is_adjacent_or_overlapping(&self, other: &Range) -> bool {
        self.end + 1 >= other.start && other.end + 1 >= self.start
    }

    /// The range from the lesser start to the greater end.
    pub open spec fn spec_merge(&self, other: &Range) -> Range {
        Range {
            start: if self.start <= other.start {
                self.start
            } else {
                other.start
            },
            end: if self.end >= other.end {
                self.end
            } else {
                other.end
            },
        }
    }

    /// The number of numbers in the range.
    pub open spec fn spec_size(&self) -> int {
        self.end - self.start + 1
    }

    /// Whether the range comes no later than `other` in the order by start,
    /// then by end.
    pub open spec fn key_le(&self, other: &Range) -> bool {
        self.start < other.start || (self.start == other.start && self.end <= other.end)
    }

    #[verifier::when_used_as_spec(spec_contains)]
    pub fn contains(&self, nb: usize) -> (r: bool)
        ensures
            r == self.spec_contains(nb),
    {
        nb >= self.start && nb <= self.end
    }

    #[verifier::when_used_as_spec(spec_is_overlapping)]
    pub fn is_overlapping(&self, other: &Range) -> (r: bool)
        ensures
            r == self.spec_is_overlapping(other),
    {
        self.start <= other.end && other.start <= self.end
    }

    #[verifier::when_used_as_spec(spec_is_adjacent_or_overlapping)]
    pub fn is_adjacent_or_overlapping(&self, other: &Range) -> (r: bool)
        ensures
            r == self.spec_is_adjacent_or_overlapping(other),
    {
        self.end as u128 + 1 >= other.start as u128 && other.end as u128 + 1 >= self.start as u128
    }

    #[verifier::when_used_as_spec(spec_merge)]
    pub fn merge(&self, other: &Range) -> (r: Range)
        ensures
            r == self.spec_merge(other),
    {
        Range {
            start: if self.start <= other.start {
                self.start
            } else {
                other.start
            },
            end: if self.end >= other.end {
                self.end
            } else {
                other.end
            },
        }
    }

    pub fn size(&self) -> (r: u128)
        requires
            self.start <= self.end,
        ensures
            r == self.spec_size(),
    {
        (self.end - self.start) as u128 + 1
    }
}

/// The range that `s` denotes: two decimal numbers separated by `-`. What
/// follows a second `-` is not looked at.
pub open spec fn spec_parse_range(s: Seq<char>) -> Option<Range> {
    let parts = spec_split(s, '-');
    if parts.len() < 2 {
        None
    } else {
        match (
            parse_bounded(parts[0], usize::MAX as nat),
            parse_bounded(parts[1], usize::MAX as nat),
        ) {
            (Some(a), Some(b)) => Some(Range { start: a as usize, end: b as usize }),
            _ => None,
        }
    }
}

/// Reads a range such as `3-5`.
pub fn parse_range(range: &Vec<char>) -> (r: Option<Range>)
    ensures
        r == spec_parse_range(range@),
{
    let parts = split(range, '-');
    assert(pieces_view(parts@).len() == parts.len());
    if parts.len() < 2 {
        return None;
    }
    assert(pieces_view(parts@)[0] == parts[0]@);
    assert(pieces_view(parts@)[1] == parts[1]@);
    let start = parse_unsigned_max(&parts[0], usize::MAX as u64);
    let end = parse_unsigned_max(&parts[1], usize::MAX as u64);
    match (start, end) {
        (Some(a), Some(b)) => Some(Range { start: a as usize, end: b as usize }),
        _ => None,
    }
}

/// The ranges that the first `k` lines denote, or `None` when one of them
/// denotes none.
pub open spec fn parse_ranges(lines: Seq<Seq<char>>, k: int) -> Option<Seq<Range>>
    decreases k,
{
    if k <= 0 {
        Some(Seq::empty())
    } else {
        match (parse_ranges(lines, k - 1), spec_parse_range(lines[k - 1])) {
            (Some(rs), Some(r)) => Some(rs.push(r)),
            _ => None,
        }
    }
}

/// The numbers that the first `k` lines denote, or `None` when one of them
/// denotes none.
pub open spec fn parse_numbers(lines: Seq<Seq<char>>, k: int) -> Option<Seq<usize>>
    decreases k,
{
    if k <= 0 {
        Some(Seq::empty())
    } else {
        match (parse_numbers(lines, k - 1), parse_bounded(lines[k - 1], usize::MAX as nat)) {
            (Some(ns), Some(n)) => Some(ns.push(n as usize)),
            _ => None,
        }
    }
}

/// Once a line fails to parse, so does the whole.
pub proof fn lemma_parse_ranges_none_stays(lines: Seq<Seq<char>>, k: int, n: int)
    requires
        0 <= k <= n,
        parse_ranges(lines, k) is None,
    ensures
        parse_ranges(lines, n) is None,
    decreases n - k,
{
    if k < n {
        lemma_parse_ranges_none_stays(lines, k, n - 1);
    }
}

/// Once a line fails to parse, so does the whole.
pub proof fn lemma_parse_numbers_none_stays(lines: Seq<Seq<char>>, k: int, n: int)
    requires
        0 <= k <= n,
        parse_numbers(lines, k) is None,
    ensures
        parse_numbers(lines, n) is None,
    decreases n - k,
{
    if k < n {
        lemma_parse_numbers_none_stays(lines, k, n - 1);
    }
}

/// The index of the first blank line break at or after `from`: two line feeds
/// in a row. The length of `s` when there is none.
pub open spec fn next_blank(s: Seq<char>, from: int) -> int
    decreases s.len() - from,
{
    if from < 0 || from + 1 >= s.len() {
        s.len() as int
    } else if s[from] == '\n' && s[from + 1] == '\n' {
        from
    } else {
        next_blank(s, from + 1)
    }
}

/// The text before the first blank line break.
pub open spec fn first_block(s: Seq<char>) -> Seq<char> {
    s.subrange(0, next_blank(s, 0))
}

/// The text between the first blank line break and the second, or the end;
/// `None` when there is no blank line break.
pub open spec fn second_block(s: Seq<char>) -> Option<Seq<char>> {
    let e = next_blank(s, 0);
    if e >= s.len() {
        None
    } else {
        Some(s.subrange(e + 2, next_blank(s, e + 2)))
    }
}

/// The ranges of the first block of the text, one per line.
pub open spec fn spec_ranges(input: Seq<char>) -> Option<Seq<Range>> {
    let ls = spec_lines(first_block(input));
    parse_ranges(ls, ls.len() as int)
}

/// The numbers of the second block of the text, one per line.
pub open spec fn spec_numbers(input: Seq<char>) -> Option<Seq<usize>> {
    match second_block(input) {
        None => None,
        Some(block) => {
            let ls = spec_lines(block);
            parse_numbers(ls, ls.len() as int)
        },
    }
}

/// Whether some range contains `nb`.
pub open spec fn in_any(ranges: Seq<Range>, nb: usize) -> bool {
    exists|i: int| 0 <= i < ranges.len() && (#[trigger] ranges[i]).spec_contains(nb)
}

/// How many of the first `k` numbers lie in some range.
pub open spec fn count_in_ranges(ranges: Seq<Range>, numbers: Seq<usize>, k: int) -> nat
    decreases k,
{
    if k <= 0 {
        0
    } else {
        count_in_ranges(ranges, numbers, k - 1) + if in_any(ranges, numbers[k - 1]) {
            1nat
        } else {
            0nat
        }
    }
}

/// How many of the numbers of the second block lie in some range of the first
/// block; `None` when a block is missing or a line is malformed.
pub open spec fn spec_part1(input: Seq<char>) -> Option<nat> {
    match (spec_ranges(input), spec_numbers(input)) {
        (Some(ranges), Some(numbers)) => Some(
            count_in_ranges(ranges, numbers, numbers.len() as int),
        ),
        _ => None,
    }
}

/// `sorted` with `r` put behind the last range that comes no later than `r`.
pub open spec fn insert(sorted: Seq<Range>, r: Range) -> Seq<Range>
    decreases sorted.len(),
{
    if sorted.len() == 0 || sorted.last().key_le(&r) {
        sorted.push(r)
    } else {
        insert(sorted.drop_last(), r).push(sorted.last())
    }
}

/// The ranges in the order by start, then by end.
pub open spec fn sorted(ranges: Seq<Range>) -> Seq<Range>
    decreases ranges.len(),
{
    if ranges.len() == 0 {
        Seq::empty()
    } else {
        insert(sorted(ranges.drop_last()), ranges.last())
    }
}

/// The first `k` ranges merged from the left: a range that overlaps the last
/// merged range, or follows it without a gap, is merged into it.
pub open spec fn merged(ranges: Seq<Range>, k: int) -> Seq<Range>
    decreases k,
{
    if k <= 0 {
        Seq::empty()
    } else {
        let acc = merged(ranges, k - 1);
        let r = ranges[k - 1];
        if acc.len() > 0 && acc.last().spec_is_adjacent_or_overlapping(&r) {
            acc.drop_last().push(acc.last().spec_merge(&r))
        } else {
            acc.push(r)
        }
    }
}

/// The sum of the sizes of the first `k` ranges; `None` when one of them ends
/// before it starts.
pub open spec fn total_size(ranges: Seq<Range>, k: int) -> Option<nat>
    decreases k,
{
    if k <= 0 {
        Some(0)
    } else {
        match total_size(ranges, k - 1) {
            Some(t) if ranges[k - 1].start <= ranges[k - 1].end => Some(
                (t + ranges[k - 1].spec_size()) as nat,
            ),
            _ => None,
        }
    }
}

/// The number of numbers in the ranges of the first block after sorting and
/// merging; `None` when a line is malformed or a merged range ends before it
/// starts.
pub open spec fn spec_part2(input: Seq<char>) -> Option<nat> {
    match spec_ranges(input) {
        None => None,
        Some(ranges) => {
            let m = merged(sorted(ranges), ranges.len() as int);
            total_size(m, m.len() as int)
        },
    }
}

/// Sorting keeps the number of ranges.
pub proof fn lemma_sorted_len(ranges: Seq<Range>)
    ensures
        sorted(ranges).len() == ranges.len(),
    decreases ranges.len(),
{
    if ranges.len() > 0 {
        lemma_sorted_len(ranges.drop_last());
        lemma_insert_len(sorted(ranges.drop_last()), ranges.last());
    }
}

/// Inserting adds one range.
pub proof fn lemma_insert_len(s: Seq<Range>, r: Range)
    ensures
        insert(s, r).len() == s.len() + 1,
    decreases s.len(),
{
    if !(s.len() == 0 || s.last().key_le(&r)) {
        lemma_insert_len(s.drop_last(), r);
    }
}

/// Where `r` comes to stand: behind a range that comes no later, before
/// ranges that all come later.
pub proof fn lemma_insert_at(s: Seq<Range>, r: Range, j: int)
    requires
        0 <= j <= s.len(),
        j == 0 || s[j - 1].key_le(&r),
        forall|k: int| j <= k < s.len() ==> !(#[trigger] s[k]).key_le(&r),
    ensures
        insert(s, r) == s.insert(j, r),
    decreases s.len() - j,
{
    if j == s.len() {
        assert(s.insert(j, r) =~= s.push(r));
    } else {
        let t = s.drop_last();
        assert(!s[s.len() - 1].key_le(&r));
        assert forall|k: int| j <= k < t.len() implies !(#[trigger] t[k]).key_le(&r) by {
            assert(t[k] == s[k]);
        }
        lemma_insert_at(t, r, j);
        assert(t.insert(j, r).push(s.last()) =~= s.insert(j, r));
    }
}

/// Whether each range comes no later than those behind it, in the order by
/// start, then by end.
pub open spec fn is_sorted(s: Seq<Range>) -> bool {
    forall|i: int, j: int| #![trigger s[i], s[j]] 0 <= i < j < s.len() ==> s[i].key_le(&s[j])
}

/// Inserting into sorted ranges leaves them sorted, with the same ranges and
/// the new one.
pub proof fn lemma_insert_sorted(s: Seq<Range>, r: Range)
    requires
        is_sorted(s),
    ensures
        is_sorted(insert(s, r)),
        insert(s, r).to_multiset() == s.to_multiset().insert(r),
        insert(s, r).len() == s.len() + 1,
        forall|x: Range| insert(s, r).contains(x) ==> x == r || s.contains(x),
    decreases s.len(),
{
    broadcast use vstd::seq_lib::to_multiset_build;

    let out = insert(s, r);
    if s.len() == 0 || s.last().key_le(&r) {
        assert forall|i: int, j: int|
            #![trigger out[i], out[j]]
            0 <= i < j < out.len() implies out[i].key_le(&out[j]) by {
            if j == s.len() {
                assert(out[i] == s[i]);
                if i < s.len() - 1 {
                    assert(s[i].key_le(&s[s.len() - 1]));
                }
            } else {
                assert(out[i] == s[i] && out[j] == s[j]);
            }
        }
        assert forall|x: Range| out.contains(x) implies x == r || s.contains(x) by {
            let k = choose|k: int| 0 <= k < out.len() && out[k] == x;
            if k < s.len() {
                assert(s[k] == x);
            }
        }
    } else {
        let front = s.drop_last();
        let last = s.last();
        assert(is_sorted(front)) by {
            assert forall|i: int, j: int|
                #![trigger front[i], front[j]]
                0 <= i < j < front.len() implies front[i].key_le(&front[j]) by {
                assert(front[i] == s[i] && front[j] == s[j]);
            }
        }
        lemma_insert_sorted(front, r);
        let mid = insert(front, r);
        assert(out == mid.push(last));
        assert(s == front.push(last));
        assert(out.to_multiset() =~= s.to_multiset().insert(r));
        assert forall|x: Range| mid.contains(x) implies x.key_le(&last) by {
            if x != r {
                assert(front.contains(x));
                let k = choose|k: int| 0 <= k < front.len() && front[k] == x;
                assert(s[k] == x);
                assert(s[k].key_le(&s[s.len() - 1]));
            }
        }
        assert forall|i: int, j: int|
            #![trigger out[i], out[j]]
            0 <= i < j < out.len() implies out[i].key_le(&out[j]) by {
            if j == mid.len() {
                assert(out[i] == mid[i]);
                assert(mid.contains(mid[i]));
            } else {
                assert(out[i] == mid[i] && out[j] == mid[j]);
            }
        }
        assert forall|x: Range| out.contains(x) implies x == r || s.contains(x) by {
            let k = choose|k: int| 0 <= k < out.len() && out[k] == x;
            if k < mid.len() {
                assert(mid[k] == x);
                assert(mid.contains(x));
                if x != r {
                    assert(front.contains(x));
                    let t = choose|t: int| 0 <= t < front.len() && front[t] == x;
                    assert(s[t] == x);
                }
            } else {
                assert(s[s.len() - 1] == x);
            }
        }
    }
}

/// `sorted` puts the ranges in order and keeps each as often as it occurs.
pub proof fn lemma_sorted_is_sorted(ranges: Seq<Range>)
    ensures
        is_sorted(sorted(ranges)),
        sorted(ranges).to_multiset() == ranges.to_multiset(),
    decreases ranges.len(),
{
    broadcast use vstd::seq_lib::to_multiset_build;

    if ranges.len() > 0 {
        lemma_sorted_is_sorted(ranges.drop_last());
        lemma_insert_sorted(sorted(ranges.drop_last()), ranges.last());
        assert(ranges == ranges.drop_last().push(ranges.last()));
    } else {
        assert(ranges =~= sorted(ranges));
    }
}

/// Whether one of the first `k` ranges holds `x`.
pub open spec fn covered(ranges: Seq<Range>, k: int, x: int) -> bool {
    exists|i: int| 0 <= i < k && (#[trigger] ranges[i]).start <= x <= ranges[i].end
}

/// Merging neither adds a number nor loses one: the merged ranges hold
/// exactly the numbers that the ranges held.
pub proof fn lemma_merged_covers_same(ranges: Seq<Range>, k: int, x: int)
    requires
        0 <= k <= ranges.len(),
    ensures
        covered(merged(ranges, k), merged(ranges, k).len() as int, x) == covered(ranges, k, x),
    decreases k,
{
    if k > 0 {
        lemma_merged_covers_same(ranges, k - 1, x);
        let acc = merged(ranges, k - 1);
        let r = ranges[k - 1];
        let out = merged(ranges, k);
        let in_r = r.start <= x <= r.end;
        if covered(ranges, k, x) {
            let i = choose|i: int| 0 <= i < k && (#[trigger] ranges[i]).start <= x <= ranges[i].end;
            if i < k - 1 {
                assert(covered(ranges, k - 1, x));
            }
        }
        if covered(ranges, k - 1, x) {
            let i = choose|i: int|
                0 <= i < k - 1 && (#[trigger] ranges[i]).start <= x <= ranges[i].end;
            assert(ranges[i].start <= x <= ranges[i].end);
        }
        if in_r {
            assert(ranges[k - 1].start <= x <= ranges[k - 1].end);
        }
        assert(covered(ranges, k, x) == (covered(ranges, k - 1, x) || in_r));
        if acc.len() > 0 && acc.last().spec_is_adjacent_or_overlapping(&r) {
            let last = acc.last();
            let m = last.spec_merge(&r);
            assert(out == acc.drop_last().push(m));
            assert((m.start <= x <= m.end) == (last.start <= x <= last.end || in_r));
            if covered(out, out.len() as int, x) {
                let i = choose|i: int|
                    0 <= i < out.len() && (#[trigger] out[i]).start <= x <= out[i].end;
                if i < out.len() - 1 {
                    assert(acc[i] == out[i]);
                    assert(acc[i].start <= x <= acc[i].end);
                } else if last.start <= x <= last.end {
                    assert(acc[acc.len() - 1].start <= x <= acc[acc.len() - 1].end);
                }
            }
            if covered(acc, acc.len() as int, x) {
                let i = choose|i: int|
                    0 <= i < acc.len() && (#[trigger] acc[i]).start <= x <= acc[i].end;
                if i < acc.len() - 1 {
                    assert(out[i] == acc[i]);
                    assert(out[i].start <= x <= out[i].end);
                } else {
                    assert(out[out.len() - 1].start <= x <= out[out.len() - 1].end);
                }
            }
            if in_r {
                assert(out[out.len() - 1].start <= x <= out[out.len() - 1].end);
            }
        } else {
            assert(out == acc.push(r));
            if covered(out, out.len() as int, x) {
                let i = choose|i: int|
                    0 <= i < out.len() && (#[trigger] out[i]).start <= x <= out[i].end;
                if i < acc.len() {
                    assert(acc[i] == out[i]);
                    assert(acc[i].start <= x <= acc[i].end);
                }
            }
            if covered(acc, acc.len() as int, x) {
                let i = choose|i: int|
                    0 <= i < acc.len() && (#[trigger] acc[i]).start <= x <= acc[i].end;
                assert(out[i] == acc[i]);
                assert(out[i].start <= x <= out[i].end);
            }
            if in_r {
                assert(out[out.len() - 1].start <= x <= out[out.len() - 1].end);
            }
        }
    }
}

/// The text before the first blank line break, and what follows that break if
/// there is one.
pub fn split_blocks(s: &Vec<char>) -> (r: (Vec<char>, Option<Vec<char>>))
    ensures
        r.0@ == first_block(s@),
        match second_block(s@) {
            Some(b) => r.1 is Some && r.1->Some_0@ == b,
            None => r.1 is None,
        },
{
    let e = find_blank(s, 0);
    let first = copy_range(s, 0, e);
    if e >= s.len() {
        return (first, None);
    }
    let f = find_blank(s, e + 2);
    let second = copy_range(s, e + 2, f);
    (first, Some(second))
}

/// The index of the first blank line break at or after `from`.
pub fn find_blank(s: &Vec<char>, from: usize) -> (r: usize)
    requires
        from <= s.len(),
    ensures
        r == next_blank(s@, from as int),
        from <= r <= s.len(),
        r < s.len() ==> r + 2 <= s.len(),
{
    let mut i: usize = from;
    while i < s.len() && i + 1 < s.len() && !(s[i] == '\n' && s[i + 1] == '\n')
        invariant
            from <= i <= s.len(),
            next_blank(s@, from as int) == next_blank(s@, i as int),
        decreases s.len() - i,
    {
        i += 1;
    }
    if i >= s.len() || i + 1 >= s.len() {
        s.len()
    } else {
        i
    }
}

/// Reads the ranges of a block, one per line.
pub fn read_ranges(block: &Vec<char>) -> (r: Option<Vec<Range>>)
    ensures
        match parse_ranges(spec_lines(block@), spec_lines(block@).len() as int) {
            Some(rs) => r is Some && r->Some_0@ == rs,
            None => r is None,
        },
{
    let ls = lines(block);
    let ghost all = spec_lines(block@);
    let mut out: Vec<Range> = Vec::new();
    let mut i: usize = 0;
    while i < ls.len()
        invariant
            0 <= i <= ls.len(),
            pieces_view(ls@) == all,
            all == spec_lines(block@),
            parse_ranges(all, i as int) == Some(out@),
        decreases ls.len() - i,
    {
        assert(all[i as int] == ls[i as int]@);
        match parse_range(&ls[i]) {
            Some(r) => {
                out.push(r);
            },
            None => {
                proof {
                    assert(parse_ranges(all, i + 1) is None);
                    lemma_parse_ranges_none_stays(all, i + 1, all.len() as int);
                }
                return None;
            },
        }
        i += 1;
    }
    Some(out)
}

/// Reads the numbers of a block, one per line.
pub fn read_numbers(block: &Vec<char>) -> (r: Option<Vec<usize>>)
    ensures
        match parse_numbers(spec_lines(block@), spec_lines(block@).len() as int) {
            Some(ns) => r is Some && r->Some_0@ == ns,
            None => r is None,
        },
{
    let ls = lines(block);
    let ghost all = spec_lines(block@);
    let mut out: Vec<usize> = Vec::new();
    let mut i: usize = 0;
    while i < ls.len()
        invariant
            0 <= i <= ls.len(),
            pieces_view(ls@) == all,
            all == spec_lines(block@),
            parse_numbers(all, i as int) == Some(out@),
        decreases ls.len() - i,
    {
        assert(all[i as int] == ls[i as int]@);
        match parse_unsigned_max(&ls[i], usize::MAX as u64) {
            Some(n) => {
                out.push(n as usize);
            },
            None => {
                proof {
                    assert(parse_numbers(all, i + 1) is None);
                    lemma_parse_numbers_none_stays(all, i + 1, all.len() as int);
                }
                return None;
            },
        }
        i += 1;
    }
    Some(out)
}

/// Whether some range contains the number.
pub fn is_in_any(ranges: &Vec<Range>, nb: usize) -> (r: bool)
    ensures
        r == in_any(ranges@, nb),
{
    let mut i: usize = 0;
    while i < ranges.len()
        invariant
            0 <= i <= ranges.len(),
            forall|k: int| 0 <= k < i ==> !(#[trigger] ranges[k]).spec_contains(nb),
        decreases ranges.len() - i,
    {
        if ranges[i].contains(nb) {
            return true;
        }
        i += 1;
    }
    false
}

/// How many of the numbers lie in some range.
pub fn count_fresh(ranges: &Vec<Range>, numbers: &Vec<usize>) -> (r: usize)
    ensures
        r == count_in_ranges(ranges@, numbers@, numbers.len() as int),
{
    let mut count: usize = 0;
    let mut i: usize = 0;
    while i < numbers.len()
        invariant
            0 <= i <= numbers.len(),
            count == count_in_ranges(ranges@, numbers@, i as int),
            count <= i,
        decreases numbers.len() - i,
    {
        if is_in_any(ranges, numbers[i]) {
            count += 1;
        }
        i += 1;
    }
    count
}

/// The ranges in the order by start, then by end.
pub fn sort_ranges(ranges: &Vec<Range>) -> (r: Vec<Range>)
    ensures
        r@ == sorted(ranges@),
{
    let mut out: Vec<Range> = Vec::new();
    let mut i: usize = 0;
    assert(ranges@.take(0) == Seq::<Range>::empty());
    while i < ranges.len()
        invariant
            0 <= i <= ranges.len(),
            out@ == sorted(ranges@.take(i as int)),
        decreases ranges.len() - i,
    {
        let r = ranges[i];
        let mut j: usize = out.len();
        while j > 0 && !(out[j - 1].start < r.start || (out[j - 1].start == r.start && out[j
            - 1].end <= r.end))
            invariant
                0 <= j <= out.len(),
                forall|k: int| j <= k < out.len() ==> !(#[trigger] out[k]).key_le(&r),
            decreases j,
        {
            j -= 1;
        }
        proof {
            lemma_insert_at(out@, r, j as int);
            assert(ranges@.take(i + 1).drop_last() == ranges@.take(i as int));
        }
        out.insert(j, r);
        i += 1;
    }
    assert(ranges@.take(i as int) == ranges@);
    out
}

/// Merges sorted ranges from the left.
pub fn merge_ranges(ranges: &Vec<Range>) -> (r: Vec<Range>)
    ensures
        r@ == merged(ranges@, ranges.len() as int),
{
    let mut acc: Vec<Range> = Vec::new();
    let mut i: usize = 0;
    while i < ranges.len()
        invariant
            0 <= i <= ranges.len(),
            acc@ == merged(ranges@, i as int),
        decreases ranges.len() - i,
    {
        let r = ranges[i];
        let n = acc.len();
        if n > 0 && acc[n - 1].is_adjacent_or_overlapping(&r) {
            let m = acc[n - 1].merge(&r);
            let ghost before = acc@;
            acc.set(n - 1, m);
            assert(acc@ =~= before.drop_last().push(m));
        } else {
            acc.push(r);
        }
        i += 1;
    }
    acc
}

/// The sum of the sizes of the ranges, or `None` when one of them ends before
/// it starts.
pub fn sum_sizes(ranges: &Vec<Range>) -> (r: Option<u128>)
    ensures
        nat_of_u128(r) == total_size(ranges@, ranges.len() as int),
{
    let mut total: u128 = 0;
    let mut i: usize = 0;
    while i < ranges.len()
        invariant
            0 <= i <= ranges.len(),
            total_size(ranges@, i as int) == Some(total as nat),
            total <= i * 0x1_0000_0000_0000_0000,
        decreases ranges.len() - i,
    {
        let r = ranges[i];
        if r.start > r.end {
            proof {
                assert(total_size(ranges@, i + 1) is None);
                lemma_total_size_none_stays(ranges@, i + 1, ranges.len() as int);
            }
            return None;
        }
        total += r.size();
        i += 1;
    }
    Some(total)
}

/// Once a range ends before it starts, there is no total.
pub proof fn lemma_total_size_none_stays(ranges: Seq<Range>, k: int, n: int)
    requires
        0 <= k <= n,
        total_size(ranges, k) is None,
    ensures
        total_size(ranges, n) is None,
    decreases n - k,
{
    if k < n {
        lemma_total_size_none_stays(ranges, k, n - 1);
    }
}

/// How many of the numbers of the second block lie in some range of the first
/// block.
pub fn part1(input: &str) -> (r: Option<usize>)
    ensures
        nat_of(r) == spec_part1(input@),
{
    let chars = chars_of(input);
    let (first, second) = split_blocks(&chars);
    let ranges = match read_ranges(&first) {
        Some(rs) => rs,
        None => {
            return None;
        },
    };
    let second = match second {
        Some(b) => b,
        None => {
            return None;
        },
    };
    let numbers = match read_numbers(&second) {
        Some(ns) => ns,
        None => {
            return None;
        },
    };
    Some(count_fresh(&ranges, &numbers))
}

/// How many numbers the ranges of the first block cover.
pub fn part2(input: &str) -> (r: Option<u128>)
    ensures
        nat_of_u128(r) == spec_part2(input@),
{
    let chars = chars_of(input);
    let (first, _) = split_blocks(&chars);
    let ranges = match read_ranges(&first) {
        Some(rs) => rs,
        None => {
            return None;
        },
    };
    let sorted_ranges = sort_ranges(&ranges);
    proof {
        lemma_sorted_len(ranges@);
    }
    let merged_ranges = merge_ranges(&sorted_ranges);
    sum_sizes(&merged_ranges)
}

} // verus!
