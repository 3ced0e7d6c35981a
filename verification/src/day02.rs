//! Product numbers whose decimal form is a sequence of digits repeated: the
//! sum of all such numbers within the listed ranges.
use crate::day05::{parse_range, spec_parse_range, Range};
use crate::text::{chars_of, nat_of, pieces_view, spec_split, spec_trim, split, trim};
use fancy_regex::Regex;
use vstd::prelude::*;

verus! {

/// Whether the regular expression `^(.+?)\1+$` matches the text, as the
/// regular expression engine decides it within its backtracking limit.
pub uninterp spec fn regex_repeats(s: Seq<char>) -> bool;

/// The character of a decimal digit.
pub open spec fn digit_char(d: nat) -> char {
    if d == 0 {
        '0'
    } else if d == 1 {
        '1'
    } else if d == 2 {
        '2'
    } else if d == 3 {
        '3'
    } else if d == 4 {
        '4'
    } else if d == 5 {
        '5'
    } else if d == 6 {
        '6'
    } else if d == 7 {
        '7'
    } else if d == 8 {
        '8'
    } else {
        '9'
    }
}

/// The decimal form of a number, without leading zeros.
pub open spec fn digits_of(n: nat) -> Seq<char>
    decreases n,
{
    if n < 10 {
        seq![digit_char(n)]
    } else {
        digits_of(n / 10).push(digit_char(n % 10))
    }
}

/// Whether the text consists of two equal halves.
pub open spec fn repeated_twice(s: Seq<char>) -> bool {
    s.len() % 2 == 0 && s.subrange(0, s.len() as int / 2) == s.subrange(
        s.len() as int / 2,
        s.len() as int,
    )
}

/// Whether the text is a sequence of characters repeated at least twice.
pub open spec fn repeated_several(s: Seq<char>) -> bool {
    exists|p: int| #[trigger] has_period(s, p)
}

/// Whether the text consists of its first `p` characters repeated at least
/// twice.
pub open spec fn has_period(s: Seq<char>, p: int) -> bool {
    &&& 1 <= p < s.len()
    &&& s.len() as int % p == 0
    &&& forall|i: int| 0 <= i < s.len() - p ==> s[i] == #[trigger] s[i + p]
}

/// Whether the regular expression engine is known to decide the text within
/// its backtracking limit, and every character counts for `.`: the text is
/// short and has no line feed.
pub open spec fn regex_decides(s: Seq<char>) -> bool {
    s.len() <= 20 && forall|i: int| 0 <= i < s.len() ==> #[trigger] s[i] != '\n'
}

/// Whether a number with the decimal form `s` counts: with `several`, when `s`
/// is a sequence repeated at least twice; else when `s` consists of two equal
/// halves.
pub open spec fn counts(several: bool, s: Seq<char>) -> bool {
    if several {
        repeated_several(s)
    } else {
        repeated_twice(s)
    }
}

/// The power of ten with exponent `k`.
pub open spec fn pow10(k: nat) -> nat
    decreases k,
{
    if k == 0 {
        1
    } else {
        10 * pow10((k - 1) as nat)
    }
}

/// A number below the `k`-th power of ten has at most `k` digits, and its
/// decimal form holds digits only.
pub proof fn lemma_digits_of(n: nat, k: nat)
    requires
        k >= 1,
        n < pow10(k),
    ensures
        1 <= digits_of(n).len() <= k,
        forall|i: int| 0 <= i < digits_of(n).len() ==> '0' <= #[trigger] digits_of(n)[i] <= '9',
    decreases k,
{
    if n >= 10 {
        assert(k >= 2) by {
            if k == 1 {
                assert(pow10(1) == 10 * pow10(0));
            }
        }
        lemma_digits_of(n / 10, (k - 1) as nat);
    }
}

/// Every `usize` is below the twentieth power of ten.
pub proof fn lemma_usize_below_pow10()
    ensures
        usize::MAX < pow10(20),
{
    assert(pow10(0) == 1);
    assert(pow10(1) == 10);
    assert(pow10(2) == 100);
    assert(pow10(3) == 1000);
    assert(pow10(4) == 10000);
    assert(pow10(5) == 100000);
    assert(pow10(6) == 1000000);
    assert(pow10(7) == 10000000);
    assert(pow10(8) == 100000000);
    assert(pow10(9) == 1000000000);
    assert(pow10(10) == 10000000000);
    assert(pow10(11) == 100000000000);
    assert(pow10(12) == 1000000000000);
    assert(pow10(13) == 10000000000000);
    assert(pow10(14) == 100000000000000);
    assert(pow10(15) == 1000000000000000);
    assert(pow10(16) == 10000000000000000);
    assert(pow10(17) == 100000000000000000);
    assert(pow10(18) == 1000000000000000000);
    assert(pow10(19) == 10000000000000000000);
    assert(pow10(20) == 100000000000000000000);
}

/// The sum of the numbers from `start` up to but not including `end` that
/// count.
pub open spec fn sum_in(several: bool, start: int, end: int) -> nat
    decreases end - start,
{
    if end <= start || end <= 0 {
        0
    } else {
        sum_in(several, start, end - 1) + if counts(several, digits_of((end - 1) as nat)) {
            (end - 1) as nat
        } else {
            0nat
        }
    }
}

/// The sum over the first `k` ranges, or `None` when one of them is malformed
/// or the sum exceeds `usize`.
pub open spec fn total_upto(several: bool, pieces: Seq<Seq<char>>, k: int) -> Option<nat>
    decreases k,
{
    if k <= 0 {
        Some(0)
    } else {
        match (total_upto(several, pieces, k - 1), spec_parse_range(pieces[k - 1])) {
            (Some(t), Some(r)) if t + sum_in(several, r.start as int, r.end + 1) <= usize::MAX => {
                Some(t + sum_in(several, r.start as int, r.end + 1))
            },
            _ => None,
        }
    }
}

/// The sum over all ranges of the text: ranges `a-b`, separated by commas, in
/// a text that may be surrounded by whitespace.
pub open spec fn spec_total(several: bool, input: Seq<char>) -> Option<nat> {
    let pieces = spec_split(spec_trim(input), ',');
    total_upto(several, pieces, pieces.len() as int)
}

/// Once a range fails, so does the whole.
pub proof fn lemma_total_none_stays(several: bool, pieces: Seq<Seq<char>>, k: int, n: int)
    requires
        0 <= k <= n,
        total_upto(several, pieces, k) is None,
    ensures
        total_upto(several, pieces, n) is None,
    decreases n - k,
{
    if k < n {
        lemma_total_none_stays(several, pieces, k, n - 1);
    }
}

/// A longer range never sums to less.
pub proof fn lemma_sum_in_grows(several: bool, start: int, mid: int, end: int)
    requires
        mid <= end,
    ensures
        sum_in(several, start, mid) <= sum_in(several, start, end),
    decreases end - mid,
{
    if mid < end {
        lemma_sum_in_grows(several, start, mid, end - 1);
    }
}

/// The decimal form of a number.
pub fn decimal_digits(n: usize) -> (r: Vec<char>)
    ensures
        r@ == digits_of(n as nat),
    decreases n,
{
    let d = n % 10;
    let c = if d == 0 {
        '0'
    } else if d == 1 {
        '1'
    } else if d == 2 {
        '2'
    } else if d == 3 {
        '3'
    } else if d == 4 {
        '4'
    } else if d == 5 {
        '5'
    } else if d == 6 {
        '6'
    } else if d == 7 {
        '7'
    } else if d == 8 {
        '8'
    } else {
        '9'
    };
    if n < 10 {
        let mut v: Vec<char> = Vec::new();
        v.push(c);
        v
    } else {
        let mut v = decimal_digits(n / 10);
        v.push(c);
        v
    }
}

/// Whether the characters consist of two equal halves.
pub fn is_repeated_twice(s: &Vec<char>) -> (r: bool)
    ensures
        r == repeated_twice(s@),
{
    let len = s.len();
    if len % 2 != 0 {
        return false;
    }
    let half = len / 2;
    let mut i: usize = 0;
    while i < half
        invariant
            0 <= i <= half,
            half * 2 == len,
            len == s.len(),
            forall|k: int| 0 <= k < i ==> #[trigger] s[k] == s[half + k],
        decreases half - i,
    {
        if s[i] != s[half + i] {
            proof {
                let a = s@.subrange(0, half as int);
                let b = s@.subrange(half as int, len as int);
                assert(a[i as int] != b[i as int]);
            }
            return false;
        }
        i += 1;
    }
    proof {
        assert(s@.subrange(0, half as int) =~= s@.subrange(half as int, len as int));
    }
    true
}

/// Whether the text consists of two equal halves.
pub fn is_sequence_repeated(s: &str) -> (r: bool)
    ensures
        r == repeated_twice(s@),
{
    is_repeated_twice(&chars_of(s))
}

/// Calls `fancy_regex::Regex::new` with the pattern `^(.+?)\1+$` and
/// `Regex::is_match` on the text. The contract names what the engine answers;
/// where the engine gives up, the answer is `false`. Of a short text without
/// line feed the contract says what the pattern means: the whole text is some
/// characters, as few as will do, followed by the same characters once more or
/// several times.
#[verifier::external_body]
fn regex_is_repeated(digits: &Vec<char>) -> (r: bool)
    ensures
        r == regex_repeats(digits@),
        regex_decides(digits@) ==> r == repeated_several(digits@),
{
    let text: String = digits.iter().collect();
    Regex::new(r"^(.+?)\1+$").unwrap().is_match(&text).unwrap_or(false)
}

/// Whether the regular expression for a sequence repeated at least twice
/// matches the text.
pub fn is_sequence_repeated_several(s: &str) -> (r: bool)
    ensures
        r == regex_repeats(s@),
        regex_decides(s@) ==> r == repeated_several(s@),
{
    regex_is_repeated(&chars_of(s))
}

/// Whether a number with these digits counts.
pub fn is_counted(several: bool, digits: &Vec<char>) -> (r: bool)
    requires
        regex_decides(digits@),
    ensures
        r == counts(several, digits@),
{
    if several {
        regex_is_repeated(digits)
    } else {
        is_repeated_twice(digits)
    }
}

/// Adds `num` to `sum` if it counts; `None` when the sum exceeds `usize`.
pub fn add_counted(sum: usize, num: usize, counted: bool) -> (r: Option<usize>)
    ensures
        r == if !counted {
            Some(sum)
        } else if sum + num <= usize::MAX {
            Some((sum + num) as usize)
        } else {
            None
        },
{
    if counted {
        sum.checked_add(num)
    } else {
        Some(sum)
    }
}

/// Adds to `sum` the numbers of the range that count; `None` when the sum
/// exceeds `usize`.
pub fn add_range(several: bool, sum: usize, range: &Range) -> (r: Option<usize>)
    ensures
        r == if sum + sum_in(several, range.start as int, range.end + 1) <= usize::MAX {
            Some((sum + sum_in(several, range.start as int, range.end + 1)) as usize)
        } else {
            None
        },
{
    if range.start > range.end {
        return Some(sum);
    }
    let mut total: usize = sum;
    let mut num: usize = range.start;
    loop
        invariant_except_break
            total == sum + sum_in(several, range.start as int, num as int),
        invariant
            range.start <= num <= range.end,
        ensures
            total == sum + sum_in(several, range.start as int, range.end + 1),
        decreases range.end - num,
    {
        let digits = decimal_digits(num);
        proof {
            lemma_usize_below_pow10();
            lemma_digits_of(num as nat, 20);
        }
        let counted = is_counted(several, &digits);
        total = match add_counted(total, num, counted) {
            Some(t) => t,
            None => {
                proof {
                    lemma_sum_in_grows(several, range.start as int, num + 1, range.end + 1);
                }
                return None;
            },
        };
        if num == range.end {
            break;
        }
        num += 1;
    }
    Some(total)
}

/// The sum of the numbers that count within the ranges of the text.
pub fn total(several: bool, input: &str) -> (r: Option<usize>)
    ensures
        nat_of(r) == spec_total(several, input@),
{
    let chars = trim(&chars_of(input));
    let pieces = split(&chars, ',');
    let ghost all = pieces_view(pieces@);
    assert(all.len() == pieces.len());
    let mut sum: usize = 0;
    let mut i: usize = 0;
    while i < pieces.len()
        invariant
            0 <= i <= pieces.len(),
            all == pieces_view(pieces@),
            all == spec_split(spec_trim(input@), ','),
            total_upto(several, all, i as int) == Some(sum as nat),
        decreases pieces.len() - i,
    {
        assert(all[i as int] == pieces[i as int]@);
        let next = match parse_range(&pieces[i]) {
            Some(range) => add_range(several, sum, &range),
            None => None,
        };
        match next {
            Some(t) => {
                sum = t;
            },
            None => {
                proof {
                    assert(total_upto(several, all, i + 1) is None);
                    lemma_total_none_stays(several, all, i + 1, all.len() as int);
                }
                return None;
            },
        }
        i += 1;
    }
    Some(sum)
}

/// The sum of the numbers within the ranges whose decimal form consists of
/// two equal halves.
pub fn part1(input: &str) -> (r: Option<usize>)
    ensures
        nat_of(r) == spec_total(false, input@),
{
    total(false, input)
}

/// The sum of the numbers within the ranges whose decimal form is a sequence
/// of digits repeated at least twice.
pub fn part2(input: &str) -> (r: Option<usize>)
    ensures
        nat_of(r) == spec_total(true, input@),
{
    total(true, input)
}

} // verus!
