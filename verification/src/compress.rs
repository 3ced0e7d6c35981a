//! Coordinate compression: the distinct values of a list of coordinates in
//! increasing order, so that a value is known by its small index.
use vstd::prelude::*;

verus! {

/// Whether each value of `s` is less than the next.
pub open spec fn strictly_increasing(s: Seq<i32>) -> bool {
    forall|i: int, j: int| 0 <= i < j < s.len() ==> s[i] < s[j]
}

/// Whether `axis` is the compressed axis of `values`: strictly increasing, and
/// holding exactly the values that occur in `values`.
pub open spec fn is_axis_of(axis: Seq<i32>, values: Seq<i32>) -> bool {
    &&& strictly_increasing(axis)
    &&& forall|v: i32| axis.contains(v) <==> values.contains(v)
}

/// A list of coordinates has one compressed axis only.
pub proof fn lemma_axis_unique(a: Seq<i32>, b: Seq<i32>, values: Seq<i32>)
    requires
        is_axis_of(a, values),
        is_axis_of(b, values),
    ensures
        a == b,
    decreases a.len(),
{
    if a.len() == 0 {
        if b.len() > 0 {
            assert(b.contains(b[0]));
            assert(a.contains(b[0]));
        }
        assert(a =~= b);
    } else if b.len() == 0 {
        assert(a.contains(a[0]));
        assert(b.contains(a[0]));
    } else {
        // The greatest value stands last on both axes.
        let la = a.last();
        let lb = b.last();
        assert(a.contains(la));
        assert(b.contains(lb));
        assert(b.contains(la));
        assert(a.contains(lb));
        let ia = choose|i: int| 0 <= i < b.len() && b[i] == la;
        let ib = choose|i: int| 0 <= i < a.len() && a[i] == lb;
        assert(la == lb);
        let a0 = a.drop_last();
        let b0 = b.drop_last();
        assert forall|v: i32| a0.contains(v) <==> b0.contains(v) by {
            if a0.contains(v) {
                let i = choose|i: int| 0 <= i < a0.len() && a0[i] == v;
                assert(a[i] == v);
                assert(a.contains(v));
                assert(b.contains(v));
                let j = choose|j: int| 0 <= j < b.len() && b[j] == v;
                assert(j < b.len() - 1);
                assert(b0[j] == v);
            }
            if b0.contains(v) {
                let i = choose|i: int| 0 <= i < b0.len() && b0[i] == v;
                assert(b[i] == v);
                assert(b.contains(v));
                assert(a.contains(v));
                let j = choose|j: int| 0 <= j < a.len() && a[j] == v;
                assert(j < a.len() - 1);
                assert(a0[j] == v);
            }
        }
        assert(is_axis_of(a0, a0));
        assert(is_axis_of(b0, a0));
        lemma_axis_unique(a0, b0, a0);
        assert(a =~= a0.push(la));
        assert(b =~= b0.push(lb));
    }
}

/// Binary search on a compressed axis: `Ok` with the index of `v`, or `Err`
/// with the index at which `v` would have to be inserted.
pub fn search(axis: &Vec<i32>, v: i32) -> (r: Result<usize, usize>)
    requires
        strictly_increasing(axis@),
    ensures
        match r {
            Ok(i) => i < axis.len() && axis[i as int] == v,
            Err(i) => {
                &&& i <= axis.len()
                &&& !axis@.contains(v)
                &&& forall|k: int| 0 <= k < i ==> axis[k] < v
                &&& forall|k: int| i <= k < axis.len() ==> axis[k] > v
            },
        },
{
    let mut lo: usize = 0;
    let mut hi: usize = axis.len();
    while lo < hi
        invariant
            0 <= lo <= hi <= axis.len(),
            strictly_increasing(axis@),
            forall|k: int| 0 <= k < lo ==> axis[k] < v,
            forall|k: int| hi <= k < axis.len() ==> axis[k] > v,
        decreases hi - lo,
    {
        let mid = lo + (hi - lo) / 2;
        let m = axis[mid];
        if m == v {
            return Ok(mid);
        } else if m < v {
            lo = mid + 1;
        } else {
            hi = mid;
        }
    }
    Err(lo)
}

/// Adds `v` to a compressed axis unless it is there already.
pub fn insert_sorted(axis: &mut Vec<i32>, v: i32)
    requires
        strictly_increasing(old(axis)@),
    ensures
        strictly_increasing(final(axis)@),
        forall|w: i32| final(axis)@.contains(w) <==> (old(axis)@.contains(w) || w == v),
        final(axis).len() <= old(axis).len() + 1,
{
    match search(axis, v) {
        Ok(i) => {
            assert(axis@.contains(v));
        },
        Err(i) => {
            let ghost before = axis@;
            axis.insert(i, v);
            assert(axis@ == before.insert(i as int, v));
            assert forall|w: i32| axis@.contains(w) <==> (before.contains(w) || w == v) by {
                if axis@.contains(w) {
                    let k = choose|k: int| 0 <= k < axis@.len() && axis@[k] == w;
                    if k < i {
                        assert(before[k] == w);
                    } else if k > i {
                        assert(before[k - 1] == w);
                    }
                }
                if before.contains(w) {
                    let k = choose|k: int| 0 <= k < before.len() && before[k] == w;
                    if k < i {
                        assert(axis@[k] == w);
                    } else {
                        assert(axis@[k + 1] == w);
                    }
                }
                if w == v {
                    assert(axis@[i as int] == w);
                }
            }
        },
    }
}

/// The compressed axis of `values`: its distinct values in increasing order.
pub fn compress(values: &Vec<i32>) -> (axis: Vec<i32>)
    ensures
        is_axis_of(axis@, values@),
        axis.len() <= values.len(),
{
    let mut axis: Vec<i32> = Vec::new();
    let mut i: usize = 0;
    while i < values.len()
        invariant
            0 <= i <= values.len(),
            axis.len() <= i,
            is_axis_of(axis@, values@.take(i as int)),
        decreases values.len() - i,
    {
        let ghost before = axis@;
        let ghost seen = values@.take(i as int);
        let v = values[i];
        proof {
            assert(values@.take(i + 1) == seen.push(v));
        }
        insert_sorted(&mut axis, v);
        assert forall|w: i32| axis@.contains(w) <==> seen.push(v).contains(w) by {
            if seen.push(v).contains(w) {
                let k = choose|k: int| 0 <= k < seen.push(v).len() && seen.push(v)[k] == w;
                if k < seen.len() {
                    assert(seen[k] == w);
                    assert(seen.contains(w));
                }
            }
            if before.contains(w) {
                let k = choose|k: int| 0 <= k < seen.len() && seen[k] == w;
                assert(seen.push(v)[k] == w);
            }
            if w == v {
                assert(seen.push(v)[seen.len() as int] == w);
            }
        }
        i += 1;
    }
    assert(values@.take(i as int) == values@);
    axis
}

} // verus!
