//! Columns of numbers with an operator each: every column is folded with its
//! operator, and the answer is the sum of the columns' values.
use crate::text::{
    chars_of, copy_range, lines, nat_of, parse_bounded, parse_unsigned_max, pieces_view,
    spec_lines, spec_trim, trim,
};
use vstd::prelude::*;

verus! {

#[derive(Debug, Clone, Copy, PartialEq, Eq, Structural, Hash)]
pub enum Operator {
    Add,
    Subtract,
    Multiply,
    Divide,
}

/// The operator that a character denotes.
pub open spec fn operator_of_char(c: char) -> Option<Operator> {
    if c == '+' {
        Some(Operator::Add)
    } else if c == '-' {
        Some(Operator::Subtract)
    } else if c == '*' {
        Some(Operator::Multiply)
    } else if c == '/' {
        Some(Operator::Divide)
    } else {
        None
    }
}

/// The operator that a text denotes: one of the four operator characters and
/// nothing else.
pub open spec fn operator_of(s: Seq<char>) -> Option<Operator> {
    if s.len() == 1 {
        operator_of_char(s[0])
    } else {
        None
    }
}

impl Operator {
    pub fn from_char(c: char) -> (r: Option<Operator>)
        ensures
            r == operator_of_char(c),
    {
        if c == '+' {
            Some(Operator::Add)
        } else if c == '-' {
            Some(Operator::Subtract)
        } else if c == '*' {
            Some(Operator::Multiply)
        } else if c == '/' {
            Some(Operator::Divide)
        } else {
            None
        }
    }

    pub fn from_chars(s: &Vec<char>) -> (r: Option<Operator>)
        ensures
            r == operator_of(s@),
    {
        if s.len() == 1 {
            Operator::from_char(s[0])
        } else {
            None
        }
    }

    pub fn from_str(s: &str) -> (r: Option<Operator>)
        ensures
            r == operator_of(s@),
    {
        Operator::from_chars(&chars_of(s))
    }

    /// The value that folding starts from.
    pub open spec fn start_value(self) -> nat {
        match self {
            Operator::Add => 0,
            Operator::Subtract => 0,
            Operator::Multiply => 1,
            Operator::Divide => 1,
        }
    }

    /// One step of folding; `None` where it leaves the natural numbers or
    /// divides by zero.
    pub open spec fn apply(self, acc: nat, x: nat) -> Option<nat> {
        match self {
            Operator::Add => Some(acc + x),
            Operator::Subtract => if x <= acc {
                Some((acc - x) as nat)
            } else {
                None
            },
            Operator::Multiply => Some(acc * x),
            Operator::Divide => if x == 0 {
                None
            } else {
                Some(acc / x)
            },
        }
    }
}

/// The first `k` numbers folded with the operator from its start value, or
/// `None` when a step is undefined or exceeds `usize`.
pub open spec fn math_upto(op: Operator, nbs: Seq<usize>, k: int) -> Option<nat>
    decreases k,
{
    if k <= 0 {
        Some(op.start_value())
    } else {
        match math_upto(op, nbs, k - 1) {
            None => None,
            Some(acc) => match op.apply(acc, nbs[k - 1] as nat) {
                Some(v) if v <= usize::MAX => Some(v),
                _ => None,
            },
        }
    }
}

/// All the numbers folded with the operator.
pub open spec fn spec_math(op: Operator, nbs: Seq<usize>) -> Option<nat> {
    math_upto(op, nbs, nbs.len() as int)
}

/// Once a step fails, so does the whole.
pub proof fn lemma_math_none_stays(op: Operator, nbs: Seq<usize>, k: int, n: int)
    requires
        0 <= k <= n,
        math_upto(op, nbs, k) is None,
    ensures
        math_upto(op, nbs, n) is None,
    decreases n - k,
{
    if k < n {
        lemma_math_none_stays(op, nbs, k, n - 1);
    }
}

/// Folds the numbers with the operator.
pub fn do_the_math(op: Operator, nbs: &Vec<usize>) -> (r: Option<usize>)
    ensures
        nat_of(r) == spec_math(op, nbs@),
{
    let mut acc: usize = match op {
        Operator::Add => 0,
        Operator::Subtract => 0,
        Operator::Multiply => 1,
        Operator::Divide => 1,
    };
    let mut i: usize = 0;
    while i < nbs.len()
        invariant
            0 <= i <= nbs.len(),
            math_upto(op, nbs@, i as int) == Some(acc as nat),
        decreases nbs.len() - i,
    {
        let x = nbs[i];
        let next = match op {
            Operator::Add => acc.checked_add(x),
            Operator::Subtract => acc.checked_sub(x),
            Operator::Multiply => acc.checked_mul(x),
            Operator::Divide => if x == 0 {
                None
            } else {
                Some(acc / x)
            },
        };
        match next {
            Some(v) => {
                acc = v;
            },
            None => {
                proof {
                    assert(math_upto(op, nbs@, i + 1) is None);
                    lemma_math_none_stays(op, nbs@, i + 1, nbs.len() as int);
                }
                return None;
            },
        }
        i += 1;
    }
    Some(acc)
}

/// The value of a column: that of its numbers folded with its operator; zero
/// for a column without operator.
pub open spec fn column_value(op: Option<Operator>, nbs: Seq<usize>) -> Option<nat> {
    match op {
        None => Some(0),
        Some(op) => spec_math(op, nbs),
    }
}

/// The sum of the values of the first `k` columns, or `None` when a column has
/// no value or the sum exceeds `usize`.
pub open spec fn sum_columns(
    ops: spec_fn(int) -> Option<Operator>,
    nums: spec_fn(int) -> Seq<usize>,
    k: int,
) -> Option<nat>
    decreases k,
{
    if k <= 0 {
        Some(0)
    } else {
        match (sum_columns(ops, nums, k - 1), column_value(ops(k - 1), nums(k - 1))) {
            (Some(t), Some(v)) if t + v <= usize::MAX => Some(t + v),
            _ => None,
        }
    }
}

/// Once a column fails, so does the whole.
pub proof fn lemma_sum_columns_none_stays(
    ops: spec_fn(int) -> Option<Operator>,
    nums: spec_fn(int) -> Seq<usize>,
    k: int,
    n: int,
)
    requires
        0 <= k <= n,
        sum_columns(ops, nums, k) is None,
    ensures
        sum_columns(ops, nums, n) is None,
    decreases n - k,
{
    if k < n {
        lemma_sum_columns_none_stays(ops, nums, k, n - 1);
    }
}

/// The sum depends on the columns alone, not on how they are given.
pub proof fn lemma_sum_columns_same(
    ops1: spec_fn(int) -> Option<Operator>,
    nums1: spec_fn(int) -> Seq<usize>,
    ops2: spec_fn(int) -> Option<Operator>,
    nums2: spec_fn(int) -> Seq<usize>,
    k: int,
)
    requires
        forall|i: int| 0 <= i < k ==> #[trigger] ops1(i) == ops2(i),
        forall|i: int| 0 <= i < k ==> #[trigger] nums1(i) == nums2(i),
    ensures
        sum_columns(ops1, nums1, k) == sum_columns(ops2, nums2, k),
    decreases k,
{
    if k > 0 {
        lemma_sum_columns_same(ops1, nums1, ops2, nums2, k - 1);
        assert(ops1(k - 1) == ops2(k - 1));
        assert(nums1(k - 1) == nums2(k - 1));
    }
}

/// Columns without operator add nothing to the sum.
pub proof fn lemma_sum_columns_tail(
    ops: spec_fn(int) -> Option<Operator>,
    nums: spec_fn(int) -> Seq<usize>,
    k: int,
    n: int,
)
    requires
        0 <= k <= n,
        forall|i: int| k <= i < n ==> #[trigger] ops(i) is None,
    ensures
        sum_columns(ops, nums, n) == sum_columns(ops, nums, k),
    decreases n - k,
{
    if k < n {
        lemma_sum_columns_tail(ops, nums, k, n - 1);
        assert(ops(n - 1) is None);
    }
}

/// One column of a worksheet.
pub struct Column {
    pub numbers: Vec<usize>,
    pub operator: Option<Operator>,
}

/// The columns of a worksheet: for each column its numbers in the order in
/// which they were added, and its operator once one was set.
pub struct Problem {
    cache: Vec<Column>,
}

impl Problem {
    /// The number of columns that were touched: every column from this one on
    /// has neither numbers nor operator.
    pub closed spec fn columns(&self) -> nat {
        self.cache.len() as nat
    }

    /// The numbers of column `id`.
    pub closed spec fn numbers(&self, id: int) -> Seq<usize> {
        if 0 <= id < self.cache.len() {
            self.cache[id].numbers@
        } else {
            Seq::empty()
        }
    }

    /// The operator of column `id`.
    pub closed spec fn operator(&self, id: int) -> Option<Operator> {
        if 0 <= id < self.cache.len() {
            self.cache[id].operator
        } else {
            None
        }
    }

    /// The sum of the values of all columns.
    pub open spec fn spec_solve(&self) -> Option<nat> {
        sum_columns(|id: int| self.operator(id), |id: int| self.numbers(id), self.columns() as int)
    }

    /// A worksheet without columns.
    pub fn new() -> (p: Problem)
        ensures
            p.columns() == 0,
            forall|id: int| p.numbers(id) == Seq::<usize>::empty(),
            forall|id: int| p.operator(id) is None,
    {
        Problem { cache: Vec::new() }
    }

    /// Makes room for column `id`.
    fn reserve(&mut self, id: usize)
        requires
            id < usize::MAX,
        ensures
            final(self).columns() == if old(self).columns() > id {
                old(self).columns()
            } else {
                (id + 1) as nat
            },
            forall|j: int| final(self).numbers(j) == old(self).numbers(j),
            forall|j: int| final(self).operator(j) == old(self).operator(j),
            final(self).cache.len() > id,
    {
        let ghost before = self.cache@;
        while self.cache.len() <= id
            invariant
                before.len() <= self.cache.len(),
                self.cache.len() <= id + 1 || self.cache.len() == before.len(),
                forall|j: int| 0 <= j < before.len() ==> self.cache[j] == before[j],
                forall|j: int|
                    before.len() <= j < self.cache.len() ==> self.cache[j].numbers@.len() == 0
                        && self.cache[j].operator is None,
            decreases id + 1 - self.cache.len(),
        {
            self.cache.push(Column { numbers: Vec::new(), operator: None });
        }
        proof {
            assert forall|j: int| final(self).numbers(j) =~= old(self).numbers(j) by {}
        }
    }

    /// The numbers of column `id`, copied.
    fn copy_numbers(&self, id: usize) -> (r: Vec<usize>)
        requires
            id < self.cache.len(),
        ensures
            r@ == self.cache[id as int].numbers@,
    {
        let mut column: Vec<usize> = Vec::new();
        let mut k: usize = 0;
        while k < self.cache[id].numbers.len()
            invariant
                id < self.cache.len(),
                0 <= k <= self.cache[id as int].numbers.len(),
                column@ == self.cache[id as int].numbers@.take(k as int),
            decreases self.cache[id as int].numbers.len() - k,
        {
            column.push(self.cache[id].numbers[k]);
            proof {
                let c = self.cache[id as int].numbers@;
                assert(c.take(k + 1) == c.take(k as int).push(c[k as int]));
            }
            k += 1;
        }
        assert(self.cache[id as int].numbers@.take(k as int) == self.cache[id as int].numbers@);
        column
    }

    /// Appends `number` to column `id`.
    pub fn add_number(&mut self, id: usize, number: usize)
        requires
            id < usize::MAX,
        ensures
            final(self).numbers(id as int) == old(self).numbers(id as int).push(number),
            forall|j: int| j != id ==> final(self).numbers(j) == old(self).numbers(j),
            forall|j: int| final(self).operator(j) == old(self).operator(j),
            final(self).columns() == if old(self).columns() > id {
                old(self).columns()
            } else {
                (id + 1) as nat
            },
    {
        self.reserve(id);
        let mut numbers = self.copy_numbers(id);
        numbers.push(number);
        let operator = self.cache[id].operator;
        self.cache.set(id, Column { numbers, operator });
    }

    /// Sets the operator of column `id`, replacing an earlier one.
    pub fn set_operator(&mut self, id: usize, operator: Operator)
        requires
            id < usize::MAX,
        ensures
            final(self).operator(id as int) == Some(operator),
            forall|j: int| j != id ==> final(self).operator(j) == old(self).operator(j),
            forall|j: int| final(self).numbers(j) == old(self).numbers(j),
            final(self).columns() == if old(self).columns() > id {
                old(self).columns()
            } else {
                (id + 1) as nat
            },
    {
        self.reserve(id);
        let numbers = self.copy_numbers(id);
        self.cache.set(id, Column { numbers, operator: Some(operator) });
    }

    /// Columns that were never touched are empty.
    pub proof fn lemma_untouched(&self, id: int)
        requires
            id >= self.columns(),
        ensures
            self.operator(id) is None,
            self.numbers(id) == Seq::<usize>::empty(),
    {
    }

    /// The sum of the values of all columns, or `None` when a column has no
    /// value or the sum exceeds `usize`.
    pub fn solve(&self) -> (r: Option<usize>)
        ensures
            nat_of(r) == self.spec_solve(),
    {
        let ghost ops = |id: int| self.operator(id);
        let ghost nums = |id: int| self.numbers(id);
        let n = self.cache.len();
        let mut total: usize = 0;
        let mut id: usize = 0;
        while id < n
            invariant
                0 <= id <= n,
                n == self.cache.len(),
                ops == |id: int| self.operator(id),
                nums == |id: int| self.numbers(id),
                sum_columns(ops, nums, id as int) == Some(total as nat),
            decreases n - id,
        {
            assert(ops(id as int) == self.cache[id as int].operator);
            assert(nums(id as int) == self.cache[id as int].numbers@);
            let value = match self.cache[id].operator {
                None => Some(0),
                Some(op) => do_the_math(op, &self.cache[id].numbers),
            };
            let next = match value {
                Some(v) => total.checked_add(v),
                None => None,
            };
            match next {
                Some(t) => {
                    total = t;
                },
                None => {
                    proof {
                        assert(sum_columns(ops, nums, id + 1) is None);
                        lemma_sum_columns_none_stays(ops, nums, id + 1, n as int);
                    }
                    return None;
                },
            }
            id += 1;
        }
        Some(total)
    }
}

/// The whitespace of ASCII: space, tab, line feed, form feed, carriage return.
pub open spec fn is_ascii_space(c: char) -> bool {
    c == ' ' || c == '\t' || c == '\n' || c == '\x0C' || c == '\r'
}

/// The first index at or after `from` that holds ASCII whitespace, or the
/// length of `s`.
pub open spec fn token_end(s: Seq<char>, from: int) -> int
    decreases s.len() - from,
{
    if from < 0 || from >= s.len() {
        s.len() as int
    } else if is_ascii_space(s[from]) {
        from
    } else {
        token_end(s, from + 1)
    }
}

/// The tokens of `s` from `start` on: the longest stretches without ASCII
/// whitespace.
pub open spec fn tokens_from(s: Seq<char>, start: int) -> Seq<Seq<char>>
    decreases s.len() - start,
{
    if start < 0 || start >= s.len() {
        Seq::empty()
    } else if is_ascii_space(s[start]) {
        tokens_from(s, start + 1)
    } else {
        let end = token_end(s, start + 1);
        if start < end <= s.len() {
            seq![s.subrange(start, end)] + tokens_from(s, end)
        } else {
            Seq::empty()
        }
    }
}

/// The tokens of `s`.
pub open spec fn spec_tokens(s: Seq<char>) -> Seq<Seq<char>> {
    tokens_from(s, 0)
}

/// Whether `c` is ASCII whitespace.
pub fn char_is_ascii_space(c: char) -> (r: bool)
    ensures
        r == is_ascii_space(c),
{
    c == ' ' || c == '\t' || c == '\n' || c == '\x0C' || c == '\r'
}

/// Cuts `s` into its tokens.
pub fn tokens(s: &Vec<char>) -> (r: Vec<Vec<char>>)
    ensures
        pieces_view(r@) == spec_tokens(s@),
        r.len() <= s.len(),
{
    let mut out: Vec<Vec<char>> = Vec::new();
    let mut i: usize = 0;
    while i < s.len()
        invariant
            0 <= i <= s.len(),
            out.len() <= i,
            spec_tokens(s@) == pieces_view(out@) + tokens_from(s@, i as int),
        decreases s.len() - i,
    {
        if char_is_ascii_space(s[i]) {
            i += 1;
        } else {
            let mut end: usize = i + 1;
            while end < s.len() && !char_is_ascii_space(s[end])
                invariant
                    i < end <= s.len(),
                    token_end(s@, i + 1) == token_end(s@, end as int),
                decreases s.len() - end,
            {
                end += 1;
            }
            let piece = copy_range(s, i, end);
            proof {
                assert(pieces_view(out@.push(piece)) == pieces_view(out@) + seq![piece@]);
            }
            out.push(piece);
            i = end;
        }
    }
    out
}

/// The operator in cell `id` of a row of tokens.
pub open spec fn cell_operator(row: Seq<Seq<char>>, id: int) -> Option<Operator> {
    if 0 <= id < row.len() {
        operator_of(row[id])
    } else {
        None
    }
}

/// The number in cell `id` of a row of tokens.
pub open spec fn cell_number(row: Seq<Seq<char>>, id: int) -> Option<usize> {
    if 0 <= id < row.len() && operator_of(row[id]) is None {
        match parse_bounded(row[id], usize::MAX as nat) {
            Some(v) => Some(v as usize),
            None => None,
        }
    } else {
        None
    }
}

/// The operator of column `id` after the first `k` rows: the last that a row
/// gave.
pub open spec fn column_operator(rows: Seq<Seq<Seq<char>>>, k: int, id: int) -> Option<Operator>
    decreases k,
{
    if k <= 0 {
        None
    } else {
        match cell_operator(rows[k - 1], id) {
            Some(op) => Some(op),
            None => column_operator(rows, k - 1, id),
        }
    }
}

/// The numbers of column `id` in the first `k` rows, from the top.
pub open spec fn column_numbers(rows: Seq<Seq<Seq<char>>>, k: int, id: int) -> Seq<usize>
    decreases k,
{
    if k <= 0 {
        Seq::empty()
    } else {
        let rest = column_numbers(rows, k - 1, id);
        match cell_number(rows[k - 1], id) {
            Some(n) => rest.push(n),
            None => rest,
        }
    }
}

/// The length of the longest of the first `k` rows.
pub open spec fn width(rows: Seq<Seq<Seq<char>>>, k: int) -> nat
    decreases k,
{
    if k <= 0 {
        0
    } else {
        let w = width(rows, k - 1);
        if rows[k - 1].len() > w {
            rows[k - 1].len()
        } else {
            w
        }
    }
}

/// The rows of tokens of a text, one row per line.
pub open spec fn spec_rows(input: Seq<char>) -> Seq<Seq<Seq<char>>> {
    Seq::new(spec_lines(input).len(), |i: int| spec_tokens(spec_lines(input)[i]))
}

/// The sum of the columns of a worksheet whose rows are lines of tokens:
/// operators set the operator of their column, numbers join it, other tokens
/// are passed over.
pub open spec fn spec_part1(input: Seq<char>) -> Option<nat> {
    let rows = spec_rows(input);
    sum_columns(
        |id: int| column_operator(rows, rows.len() as int, id),
        |id: int| column_numbers(rows, rows.len() as int, id),
        width(rows, rows.len() as int) as int,
    )
}

/// The sum of the columns of a worksheet whose rows are lines of tokens.
pub fn part1(input: &str) -> (r: Option<usize>)
    ensures
        nat_of(r) == spec_part1(input@),
{
    let chars = chars_of(input);
    let ls = lines(&chars);
    let ghost rows = spec_rows(input@);
    let mut pb = Problem::new();
    let mut r: usize = 0;
    assert(pieces_view(ls@).len() == ls.len());
    while r < ls.len()
        invariant
            0 <= r <= ls.len(),
            pieces_view(ls@) == spec_lines(input@),
            rows == spec_rows(input@),
            rows.len() == ls.len(),
            pb.columns() <= width(rows, r as int),
            forall|id: int| pb.operator(id) == column_operator(rows, r as int, id),
            forall|id: int| pb.numbers(id) == column_numbers(rows, r as int, id),
        decreases ls.len() - r,
    {
        let toks = tokens(&ls[r]);
        assert(pieces_view(ls@)[r as int] == ls[r as int]@);
        assert(pieces_view(toks@) == rows[r as int]);
        assert(pieces_view(toks@).len() == toks.len());
        let mut t: usize = 0;
        while t < toks.len()
            invariant
                0 <= t <= toks.len(),
                0 <= r < rows.len(),
                pieces_view(toks@) == rows[r as int],
                pb.columns() <= width(rows, r + 1),
                forall|id: int|
                    pb.operator(id) == if id < t {
                        column_operator(rows, r + 1, id)
                    } else {
                        column_operator(rows, r as int, id)
                    },
                forall|id: int|
                    pb.numbers(id) == if id < t {
                        column_numbers(rows, r + 1, id)
                    } else {
                        column_numbers(rows, r as int, id)
                    },
            decreases toks.len() - t,
        {
            assert(pieces_view(toks@)[t as int] == toks[t as int]@);
            if let Some(op) = Operator::from_chars(&toks[t]) {
                pb.set_operator(t, op);
            } else if let Some(num) = parse_unsigned_max(&toks[t], usize::MAX as u64) {
                pb.add_number(t, num as usize);
            }
            t += 1;
        }
        r += 1;
    }
    proof {
        let ops = |id: int| column_operator(rows, rows.len() as int, id);
        let nums = |id: int| column_numbers(rows, rows.len() as int, id);
        let pops = |id: int| pb.operator(id);
        let pnums = |id: int| pb.numbers(id);
        let w = width(rows, rows.len() as int) as int;
        assert forall|i: int| pb.columns() <= i < w implies #[trigger] ops(i) is None by {
            pb.lemma_untouched(i);
        }
        lemma_sum_columns_tail(ops, nums, pb.columns() as int, w);
        lemma_sum_columns_same(pops, pnums, ops, nums, pb.columns() as int);
    }
    pb.solve()
}

/// The index of the last occurrence of `c` among the first `k` characters of
/// `s`, or -1.
pub open spec fn last_index_of(s: Seq<char>, c: char, k: int) -> int
    decreases k,
{
    if k <= 0 {
        -1
    } else if s[k - 1] == c {
        k - 1
    } else {
        last_index_of(s, c, k - 1)
    }
}

/// The text before its last line feed; the whole text when it has none.
pub open spec fn before_last_line_feed(s: Seq<char>) -> Seq<char> {
    let i = last_index_of(s, '\n', s.len() as int);
    if i < 0 {
        s
    } else {
        s.subrange(0, i)
    }
}

/// The first index at or after `from` that holds an operator, or the length
/// of the line.
pub open spec fn next_operator(line: Seq<char>, from: int) -> int
    decreases line.len() - from,
{
    if from < 0 || from >= line.len() {
        line.len() as int
    } else if operator_of_char(line[from]) is Some {
        from
    } else {
        next_operator(line, from + 1)
    }
}

/// The characters that the first `k` lines have at place `col`, from the top;
/// shorter lines are passed over.
pub open spec fn column_text(body: Seq<Seq<char>>, k: int, col: int) -> Seq<char>
    decreases k,
{
    if k <= 0 {
        Seq::empty()
    } else {
        let rest = column_text(body, k - 1, col);
        if 0 <= col < body[k - 1].len() {
            rest.push(body[k - 1][col])
        } else {
            rest
        }
    }
}

/// The number written from the top down at place `col`.
pub open spec fn vertical_number(body: Seq<Seq<char>>, col: int) -> Option<usize> {
    match parse_bounded(spec_trim(column_text(body, body.len() as int, col)), usize::MAX as nat) {
        Some(v) => Some(v as usize),
        None => None,
    }
}

/// The numbers written at the places from `from` up to `to`, in this order;
/// places without a number are passed over.
pub open spec fn group_numbers(body: Seq<Seq<char>>, from: int, to: int) -> Seq<usize>
    decreases to - from,
{
    if to <= from {
        Seq::empty()
    } else {
        let rest = group_numbers(body, from, to - 1);
        match vertical_number(body, to - 1) {
            Some(n) => rest.push(n),
            None => rest,
        }
    }
}

/// The operator at place `id` of the operator line.
pub open spec fn sheet_operator(line: Seq<char>, id: int) -> Option<Operator> {
    if 0 <= id < line.len() {
        operator_of_char(line[id])
    } else {
        None
    }
}

/// The numbers that belong to the operator at place `id`: those written at
/// the places from `id` up to the next operator.
pub open spec fn sheet_numbers(line: Seq<char>, body: Seq<Seq<char>>, id: int) -> Seq<usize> {
    if sheet_operator(line, id) is Some {
        group_numbers(body, id, next_operator(line, id + 1))
    } else {
        Seq::empty()
    }
}

/// The sum of the columns of a worksheet whose last line holds the operators
/// and whose numbers are written from the top down, one per place; `None` for a
/// text without lines.
pub open spec fn spec_part2(input: Seq<char>) -> Option<nat> {
    let ls = spec_lines(input);
    if ls.len() == 0 {
        None
    } else {
        let line = ls.last();
        let body = spec_lines(before_last_line_feed(input));
        sum_columns(
            |id: int| sheet_operator(line, id),
            |id: int| sheet_numbers(line, body, id),
            line.len() as int,
        )
    }
}

/// The text before its last line feed.
pub fn body_of(s: &Vec<char>) -> (r: Vec<char>)
    ensures
        r@ == before_last_line_feed(s@),
{
    let mut k: usize = s.len();
    while k > 0 && s[k - 1] != '\n'
        invariant
            0 <= k <= s.len(),
            last_index_of(s@, '\n', s.len() as int) == last_index_of(s@, '\n', k as int),
        decreases k,
    {
        k -= 1;
    }
    if k == 0 {
        assert(s@.subrange(0, s.len() as int) == s@);
        copy_range(s, 0, s.len())
    } else {
        copy_range(s, 0, k - 1)
    }
}

/// The number written from the top down at place `col`.
pub fn read_vertical_number(body: &Vec<Vec<char>>, col: usize) -> (r: Option<usize>)
    ensures
        r == vertical_number(pieces_view(body@), col as int),
{
    let ghost view = pieces_view(body@);
    let mut text: Vec<char> = Vec::new();
    let mut k: usize = 0;
    while k < body.len()
        invariant
            0 <= k <= body.len(),
            view == pieces_view(body@),
            text@ == column_text(view, k as int, col as int),
        decreases body.len() - k,
    {
        assert(view[k as int] == body[k as int]@);
        if col < body[k].len() {
            text.push(body[k][col]);
        }
        k += 1;
    }
    match parse_unsigned_max(&trim(&text), usize::MAX as u64) {
        Some(v) => Some(v as usize),
        None => None,
    }
}

/// The first index at or after `from` that holds an operator.
pub fn find_operator(line: &Vec<char>, from: usize) -> (r: usize)
    requires
        from <= line.len(),
    ensures
        r == next_operator(line@, from as int),
        from <= r <= line.len(),
{
    let mut i: usize = from;
    while i < line.len() && Operator::from_char(line[i]).is_none()
        invariant
            from <= i <= line.len(),
            next_operator(line@, from as int) == next_operator(line@, i as int),
        decreases line.len() - i,
    {
        i += 1;
    }
    i
}

/// The sum of the columns of a worksheet whose last line holds the operators
/// and whose numbers are written from the top down.
pub fn part2(input: &str) -> (r: Option<usize>)
    ensures
        nat_of(r) == spec_part2(input@),
{
    let chars = chars_of(input);
    let ls = lines(&chars);
    assert(pieces_view(ls@).len() == ls.len());
    if ls.len() == 0 {
        return None;
    }
    let line = &ls[ls.len() - 1];
    assert(pieces_view(ls@)[ls.len() - 1] == line@);
    let body_lines = lines(&body_of(&chars));
    let ghost body = pieces_view(body_lines@);
    let mut pb = Problem::new();
    let mut i: usize = 0;
    while i < line.len()
        invariant
            0 <= i <= line.len(),
            body == pieces_view(body_lines@),
            pb.columns() <= i,
            forall|id: int|
                pb.operator(id) == if id < i {
                    sheet_operator(line@, id)
                } else {
                    None
                },
            forall|id: int|
                pb.numbers(id) == if id < i {
                    sheet_numbers(line@, body, id)
                } else {
                    Seq::empty()
                },
        decreases line.len() - i,
    {
        if let Some(op) = Operator::from_char(line[i]) {
            pb.set_operator(i, op);
            let end = find_operator(line, i + 1);
            let mut col: usize = i;
            while col < end
                invariant
                    i <= col <= end <= line.len(),
                    i < line.len(),
                    end == next_operator(line@, i + 1),
                    body == pieces_view(body_lines@),
                    sheet_operator(line@, i as int) == Some(op),
                    pb.columns() == i + 1,
                    forall|id: int|
                        pb.operator(id) == if id <= i {
                            sheet_operator(line@, id)
                        } else {
                            None
                        },
                    forall|id: int|
                        pb.numbers(id) == if id < i {
                            sheet_numbers(line@, body, id)
                        } else if id == i {
                            group_numbers(body, i as int, col as int)
                        } else {
                            Seq::empty()
                        },
                decreases end - col,
            {
                if let Some(num) = read_vertical_number(&body_lines, col) {
                    pb.add_number(i, num);
                }
                col += 1;
            }
        }
        i += 1;
    }
    proof {
        let ops = |id: int| sheet_operator(line@, id);
        let nums = |id: int| sheet_numbers(line@, body, id);
        let pops = |id: int| pb.operator(id);
        let pnums = |id: int| pb.numbers(id);
        let n = line.len() as int;
        assert forall|k: int| pb.columns() <= k < n implies #[trigger] pops(k) is None by {
            pb.lemma_untouched(k);
        }
        lemma_sum_columns_tail(pops, pnums, pb.columns() as int, n);
        lemma_sum_columns_same(pops, pnums, ops, nums, n);
    }
    pb.solve()
}

} // verus!
