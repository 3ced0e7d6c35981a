//! All unordered pairs of the items of a sequence.
use vstd::prelude::*;

verus! {

/// The number of pairs whose first item stands before index `i`, among `n`
/// items: the first item at index `t` has `n - 1 - t` partners after it.
pub open spec fn row_start(n: int, i: int) -> int
    decreases i,
{
    if i <= 0 {
        0
    } else {
        row_start(n, i - 1) + (n - i)
    }
}

/// Where the pair of the items at `i < j` stands among the pairs of `n` items.
pub open spec fn pair_index(n: int, i: int, j: int) -> int {
    row_start(n, i) + (j - i - 1)
}

/// The number of unordered pairs of `n` items.
pub open spec fn pair_count(n: int) -> int {
    row_start(n, n)
}

/// Whether `k` is the place of some pair among the pairs of `n` items.
pub open spec fn is_pair_index(n: int, k: int) -> bool {
    exists|i: int, j: int| 0 <= i < j < n && k == #[trigger] pair_index(n, i, j)
}

/// In closed form, `row_start(n, i)` is `i * (2n - i - 1) / 2`.
pub proof fn lemma_row_start_closed_form(n: int, i: int)
    requires
        0 <= i,
    ensures
        2 * row_start(n, i) == i * (2 * n - i - 1),
    decreases i,
{
    if i > 0 {
        lemma_row_start_closed_form(n, i - 1);
        assert(2 * (row_start(n, i - 1) + (n - i)) == i * (2 * n - i - 1)) by (nonlinear_arith)
            requires
                2 * row_start(n, i - 1) == (i - 1) * (2 * n - (i - 1) - 1),
        ;
    } else {
        assert(i * (2 * n - i - 1) == 0) by (nonlinear_arith)
            requires
                i == 0,
        ;
    }
}

/// `n` items have `n * (n - 1) / 2` unordered pairs.
pub proof fn lemma_pair_count(n: int)
    requires
        0 <= n,
    ensures
        2 * pair_count(n) == n * (n - 1),
{
    lemma_row_start_closed_form(n, n);
    assert(n * (2 * n - n - 1) == n * (n - 1)) by (nonlinear_arith);
}

/// Rows of pairs follow one another without overlap.
pub proof fn lemma_row_start_monotonic(n: int, i: int, k: int)
    requires
        0 <= i <= k <= n,
    ensures
        row_start(n, i) <= row_start(n, k),
        i < k ==> row_start(n, i) + (n - i - 1) <= row_start(n, k),
    decreases k - i,
{
    if i < k {
        lemma_row_start_monotonic(n, i, k - 1);
    }
}

/// Distinct pairs stand at distinct places, and every place below
/// `pair_count(n)` is that of a pair.
pub proof fn lemma_pair_index_range(n: int, i: int, j: int)
    requires
        0 <= i < j < n,
    ensures
        0 <= pair_index(n, i, j) < pair_count(n),
{
    lemma_row_start_monotonic(n, 0, i);
    lemma_row_start_monotonic(n, i, n);
}

/// Distinct pairs stand at distinct places: each pair is listed once.
pub proof fn lemma_pair_index_injective(n: int, i: int, j: int, i2: int, j2: int)
    requires
        0 <= i < j < n,
        0 <= i2 < j2 < n,
        pair_index(n, i, j) == pair_index(n, i2, j2),
    ensures
        i == i2,
        j == j2,
{
    if i < i2 {
        lemma_row_start_monotonic(n, i, i2);
    } else if i2 < i {
        lemma_row_start_monotonic(n, i2, i);
    }
}

/// Every unordered pair of `items`, each once: the item at `i` with the item at
/// `j` for all `i < j`, ordered by `i`, then by `j`.
pub fn create_pairs<T>(items: &Vec<T>) -> (r: Vec<(&T, &T)>)
    ensures
        r.len() == pair_count(items.len() as int),
        2 * r.len() == items.len() * (items.len() - 1),
        forall|i: int, j: int|
            0 <= i < j < items.len() ==> {
                let k = #[trigger] pair_index(items.len() as int, i, j);
                0 <= k < r.len() && *r[k].0 == items[i] && *r[k].1 == items[j]
            },
        forall|k: int| 0 <= k < r.len() ==> #[trigger] is_pair_index(items.len() as int, k),
{
    let n = items.len();
    let mut out: Vec<(&T, &T)> = Vec::new();
    let mut i: usize = 0;
    while i < n
        invariant
            n == items.len(),
            0 <= i <= n,
            out.len() == row_start(n as int, i as int),
            forall|a: int, b: int|
                0 <= a < i && a < b < n ==> {
                    let k = #[trigger] pair_index(n as int, a, b);
                    0 <= k < out.len() && *out[k].0 == items[a] && *out[k].1 == items[b]
                },
            forall|k: int| 0 <= k < out.len() ==> #[trigger] is_pair_index(n as int, k),
        decreases n - i,
    {
        let mut j: usize = i + 1;
        while j < n
            invariant
                n == items.len(),
                0 <= i < n,
                i < j <= n,
                out.len() == row_start(n as int, i as int) + (j - i - 1),
                forall|a: int, b: int|
                    (0 <= a < i && a < b < n) || (a == i && i < b < j) ==> {
                        let k = #[trigger] pair_index(n as int, a, b);
                        0 <= k < out.len() && *out[k].0 == items[a] && *out[k].1 == items[b]
                    },
                forall|k: int| 0 <= k < out.len() ==> #[trigger] is_pair_index(n as int, k),
            decreases n - j,
        {
            assert(out.len() == pair_index(n as int, i as int, j as int));
            out.push((&items[i], &items[j]));
            j += 1;
        }
        i += 1;
    }
    proof {
        lemma_pair_count(n as int);
    }
    out
}

} // verus!
