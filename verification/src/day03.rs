//! From each row of digits, the greatest number that a fixed count of its
//! digits forms when they are taken in their order; the answer is the sum over
//! the rows.
use crate::text::{
    chars_of, lines, nat_of, nat_of_u128, parse_bounded, parse_unsigned_max, pieces_view,
    spec_lines,
};
use vstd::prelude::*;

verus! {

/// The index of the first greatest character of `s` between `lo` and `hi`,
/// both included.
pub open spec fn first_max_index(s: Seq<char>, lo: int, hi: int) -> int
    decreases hi - lo,
{
    if hi <= lo {
        lo
    } else {
        let m = first_max_index(s, lo, hi - 1);
        if s[hi] > s[m] {
            hi
        } else {
            m
        }
    }
}

/// `size` characters of `s` from `start` on, in their order: each time the
/// first greatest character that leaves enough characters for the rest.
pub open spec fn pick(s: Seq<char>, start: int, size: nat) -> Seq<char>
    decreases size,
{
    if size == 0 {
        Seq::empty()
    } else {
        let j = first_max_index(s, start, s.len() - size);
        seq![s[j]] + pick(s, j + 1, (size - 1) as nat)
    }
}

/// The number that the picked characters denote: `None` when `size` is zero,
/// when the row is shorter than `size`, or when the picked characters are not a
/// decimal number that fits `usize`.
pub open spec fn spec_biggest(s: Seq<char>, size: nat) -> Option<nat> {
    if size == 0 || s.len() < size {
        None
    } else {
        parse_bounded(pick(s, 0, size), usize::MAX as nat)
    }
}

/// The first greatest character lies within the bounds and none before it is
/// as great, none after it greater.
pub proof fn lemma_first_max_index(s: Seq<char>, lo: int, hi: int)
    requires
        0 <= lo <= hi < s.len(),
    ensures
        lo <= first_max_index(s, lo, hi) <= hi,
        forall|k: int| lo <= k <= hi ==> #[trigger] s[k] <= s[first_max_index(s, lo, hi)],
        forall|k: int|
            lo <= k < first_max_index(s, lo, hi) ==> #[trigger] s[k] < s[first_max_index(
                s,
                lo,
                hi,
            )],
    decreases hi - lo,
{
    if lo < hi {
        lemma_first_max_index(s, lo, hi - 1);
    }
}

/// Whether `idx` picks characters of `s` from `start` on in their order:
/// indices within `s`, none before `start`, each greater than the one before.
pub open spec fn is_choice(s: Seq<char>, start: int, idx: Seq<int>) -> bool {
    forall|k: int|
        0 <= k < idx.len() ==> start <= #[trigger] idx[k] < s.len() && (k > 0 ==> idx[k - 1]
            < idx[k])
}

/// The characters that `idx` picks.
pub open spec fn chosen(s: Seq<char>, idx: Seq<int>) -> Seq<char> {
    Seq::new(idx.len(), |k: int| s[idx[k]])
}

/// Whether `a` comes no later than `b` in the order of the dictionary; for
/// rows of digits of one length, whether it denotes no greater number.
pub open spec fn lex_le(a: Seq<char>, b: Seq<char>) -> bool
    decreases a.len(),
{
    if a.len() == 0 || b.len() == 0 {
        true
    } else if a[0] != b[0] {
        a[0] < b[0]
    } else {
        lex_le(a.drop_first(), b.drop_first())
    }
}

/// The indices of the characters that `pick` takes.
pub open spec fn pick_indices(s: Seq<char>, start: int, size: nat) -> Seq<int>
    decreases size,
{
    if size == 0 {
        Seq::empty()
    } else {
        let j = first_max_index(s, start, s.len() - size);
        seq![j] + pick_indices(s, j + 1, (size - 1) as nat)
    }
}

/// What `pick` takes is a choice of `size` characters in their order.
pub proof fn lemma_pick_is_choice(s: Seq<char>, start: int, size: nat)
    requires
        0 <= start,
        start + size <= s.len(),
    ensures
        pick_indices(s, start, size).len() == size,
        is_choice(s, start, pick_indices(s, start, size)),
        chosen(s, pick_indices(s, start, size)) == pick(s, start, size),
    decreases size,
{
    if size > 0 {
        let j = first_max_index(s, start, s.len() - size);
        lemma_first_max_index(s, start, s.len() - size);
        lemma_pick_is_choice(s, j + 1, (size - 1) as nat);
        let rest = pick_indices(s, j + 1, (size - 1) as nat);
        let all = pick_indices(s, start, size);
        assert(all == seq![j] + rest);
        assert forall|k: int| 0 <= k < all.len() implies start <= #[trigger] all[k] < s.len() && (k
            > 0 ==> all[k - 1] < all[k]) by {
            if k > 0 {
                assert(all[k] == rest[k - 1]);
                if k > 1 {
                    assert(all[k - 1] == rest[k - 2]);
                }
            }
        }
        assert(chosen(s, all) =~= seq![s[j]] + chosen(s, rest));
    } else {
        assert(chosen(s, pick_indices(s, start, size)) =~= pick(s, start, size));
    }
}

/// The `k`-th index of a choice is at least `k` places behind the first.
pub proof fn lemma_choice_spreads(s: Seq<char>, start: int, idx: Seq<int>, k: int)
    requires
        is_choice(s, start, idx),
        0 <= k < idx.len(),
    ensures
        idx[0] + k <= idx[k],
    decreases k,
{
    if k > 0 {
        lemma_choice_spreads(s, start, idx, k - 1);
    }
}

/// The first greatest character between `lo` and `hi` is no less than the
/// character at `k`, and greater when `k` stands before it.
pub proof fn lemma_first_max_at(s: Seq<char>, lo: int, hi: int, k: int)
    requires
        0 <= lo <= k <= hi < s.len(),
    ensures
        lo <= first_max_index(s, lo, hi) <= hi,
        s[k] <= s[first_max_index(s, lo, hi)],
        k < first_max_index(s, lo, hi) ==> s[k] < s[first_max_index(s, lo, hi)],
    decreases hi - lo,
{
    if lo < hi {
        if k < hi {
            lemma_first_max_at(s, lo, hi - 1, k);
        } else {
            lemma_first_max_at(s, lo, hi - 1, lo);
        }
    }
}

/// The choice without its first index is a choice behind any place up to
/// that index.
pub proof fn lemma_rest_of_choice(s: Seq<char>, start: int, idx: Seq<int>, j: int)
    requires
        is_choice(s, start, idx),
        idx.len() > 0,
        j <= idx[0],
    ensures
        is_choice(s, j + 1, idx.drop_first()),
        chosen(s, idx).drop_first() == chosen(s, idx.drop_first()),
{
    let rest = idx.drop_first();
    assert forall|k: int| 0 <= k < rest.len() implies j + 1 <= #[trigger] rest[k] < s.len() && (k
        > 0 ==> rest[k - 1] < rest[k]) by {
        assert(rest[k] == idx[k + 1]);
        lemma_choice_spreads(s, start, idx, k + 1);
        if k > 0 {
            assert(rest[k - 1] == idx[k]);
        }
    }
    assert(chosen(s, idx).drop_first() =~= chosen(s, rest));
}

/// No choice of `size` characters in their order comes later in the order of
/// the dictionary than what `pick` takes: the number that is picked is the
/// greatest that can be formed.
pub proof fn lemma_pick_is_greatest(s: Seq<char>, start: int, size: nat, idx: Seq<int>)
    requires
        0 <= start,
        start + size <= s.len(),
        idx.len() == size,
        is_choice(s, start, idx),
    ensures
        lex_le(chosen(s, idx), pick(s, start, size)),
    decreases size,
{
    if size > 0 {
        let j = first_max_index(s, start, s.len() - size);
        let first = idx[0];
        lemma_choice_spreads(s, start, idx, size - 1);
        assert(start <= first <= s.len() - size) by {
            assert(idx[size - 1] < s.len());
        }
        lemma_first_max_at(s, start, s.len() - size, first);
        let t = chosen(s, idx);
        let rest_pick = pick(s, j + 1, (size - 1) as nat);
        let p = seq![s[j]] + rest_pick;
        assert(p == pick(s, start, size));
        assert(t[0] == s[first]);
        assert(p[0] == s[j]);
        if t[0] == p[0] {
            lemma_rest_of_choice(s, start, idx, j);
            lemma_pick_is_greatest(s, j + 1, (size - 1) as nat, idx.drop_first());
            assert(p.drop_first() =~= rest_pick);
        }
    }
}

/// The greatest number that `size` characters of the row form in their order.
pub fn biggest_nb_x_sizes(numbers: &Vec<char>, size: usize) -> (r: Option<usize>)
    ensures
        nat_of(r) == spec_biggest(numbers@, size as nat),
{
    if size == 0 || numbers.len() < size {
        return None;
    }
    let mut last_index: usize = numbers.len() - size;
    let mut left_start_index: usize = 0;
    let mut picked: Vec<char> = Vec::new();
    let mut i: usize = 0;
    while i < size
        invariant
            0 <= i <= size <= numbers.len(),
            last_index == numbers.len() - size + i,
            left_start_index <= last_index,
            picked.len() == i,
            pick(numbers@, 0, size as nat) == picked@ + pick(
                numbers@,
                left_start_index as int,
                (size - i) as nat,
            ),
        decreases size - i,
    {
        let mut biggest_num = numbers[left_start_index];
        let mut index_of_biggest = left_start_index;
        let mut j: usize = left_start_index;
        while j < last_index
            invariant
                left_start_index <= j <= last_index < numbers.len(),
                index_of_biggest == first_max_index(numbers@, left_start_index as int, j as int),
                left_start_index <= index_of_biggest <= j,
                biggest_num == numbers[index_of_biggest as int],
            decreases last_index - j,
        {
            j += 1;
            if numbers[j] > biggest_num {
                biggest_num = numbers[j];
                index_of_biggest = j;
            }
        }
        proof {
            let rest = pick(numbers@, index_of_biggest + 1, (size - i - 1) as nat);
            assert(picked@.push(biggest_num) + rest == picked@ + (seq![biggest_num] + rest));
        }
        picked.push(biggest_num);
        left_start_index = index_of_biggest + 1;
        last_index += 1;
        i += 1;
    }
    assert(pick(numbers@, left_start_index as int, 0) == Seq::<char>::empty());
    assert(picked@ + Seq::<char>::empty() == picked@);
    match parse_unsigned_max(&picked, usize::MAX as u64) {
        Some(v) => Some(v as usize),
        None => None,
    }
}

/// The greatest character of `s` between `lo` and `hi`, both included.
pub open spec fn greatest_char(s: Seq<char>, lo: int, hi: int) -> char
    decreases hi - lo,
{
    if hi <= lo {
        s[lo]
    } else {
        let m = greatest_char(s, lo, hi - 1);
        if s[hi] > m {
            s[hi]
        } else {
            m
        }
    }
}

/// The greatest two-digit number that two characters of the row form in
/// their order; a row of one character gives that character twice.
pub open spec fn spec_biggest_nb(s: Seq<char>) -> Option<nat> {
    if s.len() == 0 {
        None
    } else if s.len() == 1 {
        parse_bounded(seq![s[0], s[0]], usize::MAX as nat)
    } else {
        let tens = first_max_index(s, 0, s.len() - 2);
        parse_bounded(seq![s[tens], greatest_char(s, tens + 1, s.len() - 1)], usize::MAX as nat)
    }
}

/// The greatest two-digit number that two characters of the row form in
/// their order. It serves for numbers of two digits only.
pub fn biggest_nb(numbers: &Vec<char>) -> (r: Option<usize>)
    ensures
        nat_of(r) == spec_biggest_nb(numbers@),
{
    if numbers.len() == 0 {
        return None;
    }
    let last_index = numbers.len() - 1;
    let mut biggest_numbe_ten = numbers[0];
    let mut index_of_biggest: usize = 0;
    let mut i: usize = 1;
    while i < last_index
        invariant
            1 <= i,
            i <= last_index || i == 1,
            last_index == numbers.len() - 1,
            index_of_biggest == first_max_index(numbers@, 0, i - 1),
            index_of_biggest < i,
            biggest_numbe_ten == numbers[index_of_biggest as int],
        decreases last_index - i,
    {
        if numbers[i] > biggest_numbe_ten {
            biggest_numbe_ten = numbers[i];
            index_of_biggest = i;
        }
        i += 1;
    }
    let mut biggest_number_unit = numbers[last_index];
    if last_index > index_of_biggest {
        // From the last character back to the one behind the tens.
        let mut j: usize = last_index;
        while j > index_of_biggest + 1
            invariant
                index_of_biggest + 1 <= j <= last_index,
                last_index == numbers.len() - 1,
                biggest_number_unit == greatest_from_end(numbers@, j as int, last_index as int),
            decreases j,
        {
            j -= 1;
            if numbers[j] > biggest_number_unit {
                biggest_number_unit = numbers[j];
            }
        }
        proof {
            lemma_greatest_char_from_end(numbers@, index_of_biggest + 1, last_index as int);
        }
    }
    let mut digits: Vec<char> = Vec::new();
    digits.push(biggest_numbe_ten);
    digits.push(biggest_number_unit);
    assert(digits@ =~= seq![biggest_numbe_ten, biggest_number_unit]);
    match parse_unsigned_max(&digits, usize::MAX as u64) {
        Some(v) => Some(v as usize),
        None => None,
    }
}

/// The greatest character of `s` between `lo` and `hi`, found from the end.
pub open spec fn greatest_from_end(s: Seq<char>, lo: int, hi: int) -> char
    decreases hi - lo,
{
    if hi <= lo {
        s[hi]
    } else {
        let m = greatest_from_end(s, lo + 1, hi);
        if s[lo] > m {
            s[lo]
        } else {
            m
        }
    }
}

/// The greatest character is the same from whichever end it is looked for.
pub proof fn lemma_greatest_char_from_end(s: Seq<char>, lo: int, hi: int)
    requires
        0 <= lo <= hi < s.len(),
    ensures
        greatest_from_end(s, lo, hi) == greatest_char(s, lo, hi),
    decreases hi - lo,
{
    if lo < hi {
        lemma_greatest_char_from_end(s, lo + 1, hi);
        lemma_greatest_char_from_end(s, lo, hi - 1);
        if lo + 1 < hi {
            lemma_greatest_char_from_end(s, lo + 1, hi - 1);
        }
    }
}

/// The sum of the numbers picked from the first `k` rows, or `None` when one
/// of these rows yields no number.
pub open spec fn sum_of_biggest(rows: Seq<Seq<char>>, size: nat, k: int) -> Option<nat>
    decreases k,
{
    if k <= 0 {
        Some(0)
    } else {
        match (sum_of_biggest(rows, size, k - 1), spec_biggest(rows[k - 1], size)) {
            (Some(total), Some(v)) => Some(total + v),
            _ => None,
        }
    }
}

/// The sum over all rows of the text, one row per line.
pub open spec fn spec_total(input: Seq<char>, size: nat) -> Option<nat> {
    sum_of_biggest(spec_lines(input), size, spec_lines(input).len() as int)
}

/// Once a row yields no number, neither does the whole.
pub proof fn lemma_sum_none_stays(rows: Seq<Seq<char>>, size: nat, k: int, n: int)
    requires
        0 <= k <= n,
        sum_of_biggest(rows, size, k) is None,
    ensures
        sum_of_biggest(rows, size, n) is None,
    decreases n - k,
{
    if k < n {
        lemma_sum_none_stays(rows, size, k, n - 1);
    }
}

/// The sum over the rows of the text of the greatest number that `size`
/// digits of the row form, or `None` when a row yields no number.
pub fn total_of_biggest(input: &str, size: usize) -> (r: Option<u128>)
    ensures
        nat_of_u128(r) == spec_total(input@, size as nat),
{
    let chars = chars_of(input);
    let ls = lines(&chars);
    let ghost rows = spec_lines(input@);
    let mut total: u128 = 0;
    let mut i: usize = 0;
    while i < ls.len()
        invariant
            0 <= i <= ls.len(),
            pieces_view(ls@) == rows,
            rows == spec_lines(input@),
            sum_of_biggest(rows, size as nat, i as int) == Some(total as nat),
            total <= i * 0x1_0000_0000_0000_0000,
        decreases ls.len() - i,
    {
        assert(rows[i as int] == ls[i as int]@);
        match biggest_nb_x_sizes(&ls[i], size) {
            Some(v) => {
                total += v as u128;
            },
            None => {
                proof {
                    assert(sum_of_biggest(rows, size as nat, i + 1) is None);
                    lemma_sum_none_stays(rows, size as nat, i + 1, rows.len() as int);
                }
                return None;
            },
        }
        i += 1;
    }
    Some(total)
}

/// The sum over the rows of the greatest two-digit numbers.
pub fn part1(input: &str) -> (r: Option<u128>)
    ensures
        nat_of_u128(r) == spec_total(input@, 2),
{
    total_of_biggest(input, 2)
}

/// The sum over the rows of the greatest twelve-digit numbers.
pub fn part2(input: &str) -> (r: Option<u128>)
    ensures
        nat_of_u128(r) == spec_total(input@, 12),
{
    total_of_biggest(input, 12)
}

} // verus!
