//! Junction boxes in space are connected pair by pair, the closest pair
//! first; connected boxes form circuits. Asked for are the sizes of the
//! largest circuits after a number of connections, and the connection that
//! brings the last box into a circuit.
//!
//! The order of the pairs by distance is not decided here: the functions take
//! the pairs in the order in which they are to be connected.
use crate::text::{
    chars_of, lines, nat_of, nat_of_u64, parse_i32, pieces_view, spec_lines, spec_parse_i32,
    spec_split, spec_trim, split, trim,
};
use vstd::prelude::*;

verus! {

#[derive(Debug, Clone, Copy, PartialEq, Eq, Structural, Hash)]
pub struct Coordinate {
    pub x: i32,
    pub y: i32,
    pub z: i32,
}

/// Why a text is not a coordinate.
#[derive(Debug, Clone, Copy, PartialEq, Eq, Structural)]
pub enum CoordinateError {
    /// The text does not consist of exactly three comma-separated fields.
    Format,
    /// The first field is not a decimal `i32`.
    X,
    /// The second field is not a decimal `i32`.
    Y,
    /// The third field is not a decimal `i32`.
    Z,
}

/// The coordinate that `s` denotes: three decimal integers separated by
/// commas, in a text that may be surrounded by whitespace.
pub open spec fn spec_parse_coordinate(s: Seq<char>) -> Result<Coordinate, CoordinateError> {
    let parts = spec_split(spec_trim(s), ',');
    if parts.len() != 3 {
        Err(CoordinateError::Format)
    } else {
        match spec_parse_i32(parts[0]) {
            None => Err(CoordinateError::X),
            Some(x) => match spec_parse_i32(parts[1]) {
                None => Err(CoordinateError::Y),
                Some(y) => match spec_parse_i32(parts[2]) {
                    None => Err(CoordinateError::Z),
                    Some(z) => Ok(Coordinate { x, y, z }),
                },
            },
        }
    }
}

/// The coordinates that the lines denote, or the error of the first line that
/// denotes none.
pub open spec fn parse_coordinates(lines: Seq<Seq<char>>) -> Result<
    Seq<Coordinate>,
    CoordinateError,
>
    decreases lines.len(),
{
    if lines.len() == 0 {
        Ok(Seq::empty())
    } else {
        match parse_coordinates(lines.drop_last()) {
            Err(e) => Err(e),
            Ok(cs) => match spec_parse_coordinate(lines.last()) {
                Err(e) => Err(e),
                Ok(c) => Ok(cs.push(c)),
            },
        }
    }
}

/// Once a prefix of the lines fails to parse, the whole fails with the same
/// error.
pub proof fn lemma_parse_coordinates_error_stays(lines: Seq<Seq<char>>, k: int)
    requires
        0 <= k <= lines.len(),
        parse_coordinates(lines.take(k)) is Err,
    ensures
        parse_coordinates(lines) == parse_coordinates(lines.take(k)),
    decreases lines.len() - k,
{
    if k < lines.len() {
        assert(lines.take(k + 1).drop_last() == lines.take(k));
        lemma_parse_coordinates_error_stays(lines, k + 1);
    } else {
        assert(lines.take(k) == lines);
    }
}

impl Coordinate {
    /// Reads a coordinate from the characters of its textual form.
    pub fn from_chars(s: &Vec<char>) -> (r: Result<Coordinate, CoordinateError>)
        ensures
            r == spec_parse_coordinate(s@),
    {
        let parts = split(&trim(s), ',');
        assert(pieces_view(parts@).len() == parts.len());
        if parts.len() != 3 {
            return Err(CoordinateError::Format);
        }
        assert(pieces_view(parts@)[0] == parts[0]@);
        assert(pieces_view(parts@)[1] == parts[1]@);
        assert(pieces_view(parts@)[2] == parts[2]@);
        let x = match parse_i32(&parts[0]) {
            Some(v) => v,
            None => {
                return Err(CoordinateError::X);
            },
        };
        let y = match parse_i32(&parts[1]) {
            Some(v) => v,
            None => {
                return Err(CoordinateError::Y);
            },
        };
        let z = match parse_i32(&parts[2]) {
            Some(v) => v,
            None => {
                return Err(CoordinateError::Z);
            },
        };
        Ok(Coordinate { x, y, z })
    }

    /// Reads a coordinate from its textual form `x,y,z`.
    pub fn from_str(s: &str) -> (r: Result<Coordinate, CoordinateError>)
        ensures
            r == spec_parse_coordinate(s@),
    {
        Coordinate::from_chars(&chars_of(s))
    }

    /// The square of the distance to `other`.
    pub open spec fn spec_squared_distance(&self, other: &Coordinate) -> int {
        (self.x - other.x) * (self.x - other.x) + (self.y - other.y) * (self.y - other.y) + (self.z
            - other.z) * (self.z - other.z)
    }

    /// The square of the distance to `other`: the pair that is closer has the
    /// lesser square.
    pub fn squared_distance(&self, other: &Coordinate) -> (r: u128)
        ensures
            r == self.spec_squared_distance(other),
    {
        let dx: i128 = self.x as i128 - other.x as i128;
        let dy: i128 = self.y as i128 - other.y as i128;
        let dz: i128 = self.z as i128 - other.z as i128;
        assert(0 <= dx * dx <= 0x1_0000_0000_0000_0000) by (nonlinear_arith)
            requires
                -0x1_0000_0000 <= dx <= 0x1_0000_0000,
        ;
        assert(0 <= dy * dy <= 0x1_0000_0000_0000_0000) by (nonlinear_arith)
            requires
                -0x1_0000_0000 <= dy <= 0x1_0000_0000,
        ;
        assert(0 <= dz * dz <= 0x1_0000_0000_0000_0000) by (nonlinear_arith)
            requires
                -0x1_0000_0000 <= dz <= 0x1_0000_0000,
        ;
        (dx * dx + dy * dy + dz * dz) as u128
    }
}

/// Reads the coordinates, one per line. The first malformed line decides the
/// error.
pub fn read_coordinates(input: &str) -> (r: Result<Vec<Coordinate>, CoordinateError>)
    ensures
        match parse_coordinates(spec_lines(input@)) {
            Ok(cs) => r is Ok && r->Ok_0@ == cs,
            Err(e) => r == Err::<Vec<Coordinate>, CoordinateError>(e),
        },
{
    let chars = chars_of(input);
    let ls = lines(&chars);
    let ghost all = spec_lines(input@);
    let mut out: Vec<Coordinate> = Vec::new();
    let mut i: usize = 0;
    assert(all.take(0) == Seq::<Seq<char>>::empty());
    while i < ls.len()
        invariant
            0 <= i <= ls.len(),
            pieces_view(ls@) == all,
            all == spec_lines(input@),
            parse_coordinates(all.take(i as int)) == Ok::<Seq<Coordinate>, CoordinateError>(out@),
        decreases ls.len() - i,
    {
        proof {
            assert(all.take(i + 1).drop_last() == all.take(i as int));
            assert(all[i as int] == ls[i as int]@);
            assert(all.take(i + 1).last() == ls[i as int]@);
        }
        match Coordinate::from_chars(&ls[i]) {
            Ok(c) => {
                out.push(c);
            },
            Err(e) => {
                proof {
                    assert(parse_coordinates(all.take(i + 1)) == Err::<
                        Seq<Coordinate>,
                        CoordinateError,
                    >(e));
                    lemma_parse_coordinates_error_stays(all, i + 1);
                }
                return Err(e);
            },
        }
        i += 1;
    }
    assert(all.take(i as int) == all);
    Ok(out)
}

/// The index of the first of the first `k` circuits that holds `c`, or `k`.
pub open spec fn circuit_of(circuits: Seq<Seq<Coordinate>>, c: Coordinate, k: int) -> int
    decreases k,
{
    if k <= 0 {
        0
    } else {
        let i = circuit_of(circuits, c, k - 1);
        if i < k - 1 || circuits[k - 1].contains(c) {
            i
        } else {
            k
        }
    }
}

/// `into` with the first `k` boxes of `from` added, each unless it is there
/// already.
pub open spec fn absorbed(into: Seq<Coordinate>, from: Seq<Coordinate>, k: int) -> Seq<Coordinate>
    decreases k,
{
    if k <= 0 {
        into
    } else {
        let s = absorbed(into, from, k - 1);
        if s.contains(from[k - 1]) {
            s
        } else {
            s.push(from[k - 1])
        }
    }
}

/// The circuits after the boxes `a` and `b` were connected. Two circuits
/// become one, and the second is left empty; a box without circuit joins the
/// circuit of the other; two boxes without circuit start a new one.
pub open spec fn connected(circuits: Seq<Seq<Coordinate>>, a: Coordinate, b: Coordinate) -> Seq<
    Seq<Coordinate>,
> {
    let n = circuits.len() as int;
    let i = circuit_of(circuits, a, n);
    let j = circuit_of(circuits, b, n);
    if 0 <= i < n && 0 <= j < n {
        if i != j {
            circuits.update(i, absorbed(circuits[i], circuits[j], circuits[j].len() as int)).update(
                j,
                Seq::empty(),
            )
        } else {
            circuits
        }
    } else if 0 <= i < n {
        circuits.update(i, circuits[i].push(b))
    } else if 0 <= j < n {
        circuits.update(j, circuits[j].push(a))
    } else if a == b {
        circuits.push(seq![a])
    } else {
        circuits.push(seq![a, b])
    }
}

/// The circuits after the first `k` pairs were connected.
pub open spec fn circuits_after(pairs: Seq<(Coordinate, Coordinate)>, k: int) -> Seq<
    Seq<Coordinate>,
>
    decreases k,
{
    if k <= 0 {
        Seq::empty()
    } else {
        connected(circuits_after(pairs, k - 1), pairs[k - 1].0, pairs[k - 1].1)
    }
}

/// The number of boxes in the first `k` circuits.
pub open spec fn boxes_in(circuits: Seq<Seq<Coordinate>>, k: int) -> nat
    decreases k,
{
    if k <= 0 {
        0
    } else {
        boxes_in(circuits, k - 1) + circuits[k - 1].len()
    }
}

/// The index of the first largest among the first `k` circuits that are not
/// taken; `k` when all are taken.
pub open spec fn largest_free(circuits: Seq<Seq<Coordinate>>, taken: Seq<bool>, k: int) -> int
    decreases k,
{
    if k <= 0 {
        0
    } else {
        let i = largest_free(circuits, taken, k - 1);
        if taken[k - 1] {
            if i == k - 1 {
                k
            } else {
                i
            }
        } else if i >= k - 1 || circuits[k - 1].len() > circuits[i].len() {
            k - 1
        } else {
            i
        }
    }
}

/// The product of the sizes of the `count` largest circuits that are not
/// taken and not empty, or of all such circuits when there are fewer; `None`
/// when it exceeds `usize`.
pub open spec fn product_of_largest(
    circuits: Seq<Seq<Coordinate>>,
    taken: Seq<bool>,
    count: nat,
) -> Option<nat>
    decreases count,
{
    let i = largest_free(circuits, taken, circuits.len() as int);
    if count == 0 || !(0 <= i < circuits.len()) || circuits[i].len() == 0 {
        Some(1)
    } else {
        match product_of_largest(circuits, taken.update(i, true), (count - 1) as nat) {
            Some(p) if circuits[i].len() * p <= usize::MAX => Some(circuits[i].len() * p),
            _ => None,
        }
    }
}

/// No circuit taken, among `n`.
pub open spec fn none_taken(n: nat) -> Seq<bool> {
    Seq::new(n, |i: int| false)
}

/// The smaller of two numbers.
pub open spec fn least(a: int, b: int) -> int {
    if a <= b {
        a
    } else {
        b
    }
}

/// The product of the sizes of the three largest circuits after the first
/// `limit` pairs were connected.
pub open spec fn spec_part1(pairs: Seq<(Coordinate, Coordinate)>, limit: nat) -> Option<nat> {
    let circuits = circuits_after(pairs, least(limit as int, pairs.len() as int));
    product_of_largest(circuits, none_taken(circuits.len()), 3)
}

/// The number of the first connection among the first `k` after which the
/// circuits hold `total` boxes, counted from one; zero when there is none.
pub open spec fn completing_pair(pairs: Seq<(Coordinate, Coordinate)>, total: nat, k: int) -> int
    decreases k,
{
    if k <= 0 {
        0
    } else {
        let earlier = completing_pair(pairs, total, k - 1);
        if earlier > 0 {
            earlier
        } else {
            let circuits = circuits_after(pairs, k);
            if boxes_in(circuits, circuits.len() as int) == total {
                k
            } else {
                0
            }
        }
    }
}

/// The product of the x coordinates of the pair whose connection brings the
/// number of boxes in circuits to `total`; zero when no connection does;
/// `None` when one of the two x coordinates is negative.
pub open spec fn spec_part2(pairs: Seq<(Coordinate, Coordinate)>, total: nat) -> Option<nat> {
    let k = completing_pair(pairs, total, pairs.len() as int);
    if k <= 0 {
        Some(0)
    } else {
        let (a, b) = pairs[k - 1];
        if a.x >= 0 && b.x >= 0 {
            Some((a.x * b.x) as nat)
        } else {
            None
        }
    }
}

/// The views of a vector of circuits, circuit by circuit.
pub open spec fn circuits_view(v: Seq<Vec<Coordinate>>) -> Seq<Seq<Coordinate>> {
    Seq::new(v.len(), |i: int| v[i]@)
}

/// The pairs of a vector of borrowed pairs, by value.
pub open spec fn pairs_view(pairs: Seq<(&Coordinate, &Coordinate)>) -> Seq<
    (Coordinate, Coordinate),
> {
    Seq::new(pairs.len(), |k: int| (*pairs[k].0, *pairs[k].1))
}

/// Whether the circuit holds the box.
pub fn holds(circuit: &Vec<Coordinate>, c: &Coordinate) -> (r: bool)
    ensures
        r == circuit@.contains(*c),
{
    let mut i: usize = 0;
    while i < circuit.len()
        invariant
            0 <= i <= circuit.len(),
            forall|k: int| 0 <= k < i ==> circuit[k] != *c,
        decreases circuit.len() - i,
    {
        if circuit[i] == *c {
            return true;
        }
        i += 1;
    }
    false
}

/// The index of the first circuit that holds the box.
pub fn position(circuits: &Vec<Vec<Coordinate>>, c: &Coordinate) -> (r: Option<usize>)
    ensures
        match r {
            Some(i) => i < circuits.len() && i == circuit_of(
                circuits_view(circuits@),
                *c,
                circuits.len() as int,
            ),
            None => circuit_of(circuits_view(circuits@), *c, circuits.len() as int)
                == circuits.len(),
        },
{
    let ghost view = circuits_view(circuits@);
    let mut i: usize = 0;
    while i < circuits.len()
        invariant
            0 <= i <= circuits.len(),
            view == circuits_view(circuits@),
            circuit_of(view, *c, i as int) == i,
        decreases circuits.len() - i,
    {
        assert(view[i as int] == circuits[i as int]@);
        if holds(&circuits[i], c) {
            proof {
                lemma_circuit_of_stable(view, *c, i + 1, view.len() as int);
            }
            return Some(i);
        }
        i += 1;
    }
    None
}

/// A box that is found among the first `k` circuits is found in the same
/// circuit among more.
pub proof fn lemma_circuit_of_stable(circuits: Seq<Seq<Coordinate>>, c: Coordinate, k: int, n: int)
    requires
        0 <= k <= n <= circuits.len(),
        circuit_of(circuits, c, k) < k,
    ensures
        circuit_of(circuits, c, n) == circuit_of(circuits, c, k),
    decreases n - k,
{
    if k < n {
        lemma_circuit_of_stable(circuits, c, k, n - 1);
    }
}

/// A copy of `into` with the boxes of `from` added, each unless it is there
/// already.
fn absorb(into: &Vec<Coordinate>, from: &Vec<Coordinate>) -> (r: Vec<Coordinate>)
    ensures
        r@ == absorbed(into@, from@, from.len() as int),
{
    let mut out: Vec<Coordinate> = Vec::new();
    let mut i: usize = 0;
    while i < into.len()
        invariant
            0 <= i <= into.len(),
            out@ == into@.take(i as int),
        decreases into.len() - i,
    {
        out.push(into[i]);
        proof {
            assert(into@.take(i + 1) == into@.take(i as int).push(into[i as int]));
        }
        i += 1;
    }
    assert(into@.take(i as int) == into@);
    let mut k: usize = 0;
    while k < from.len()
        invariant
            0 <= k <= from.len(),
            out@ == absorbed(into@, from@, k as int),
        decreases from.len() - k,
    {
        if !holds(&out, &from[k]) {
            out.push(from[k]);
        }
        k += 1;
    }
    out
}

/// Connects the boxes `a` and `b`.
pub fn connect(circuits: &mut Vec<Vec<Coordinate>>, a: &Coordinate, b: &Coordinate)
    ensures
        circuits_view(final(circuits)@) == connected(circuits_view(old(circuits)@), *a, *b),
{
    let ghost before = circuits_view(circuits@);
    let idx1 = position(circuits, a);
    let idx2 = position(circuits, b);
    match (idx1, idx2) {
        (Some(i), Some(j)) => {
            if i != j {
                assert(before[i as int] == circuits[i as int]@);
                assert(before[j as int] == circuits[j as int]@);
                let merged = absorb(&circuits[i], &circuits[j]);
                circuits.set(i, merged);
                circuits.set(j, Vec::new());
                assert(circuits_view(circuits@) =~= connected(before, *a, *b));
            }
        },
        (Some(i), None) => {
            assert(before[i as int] == circuits[i as int]@);
            let mut grown = absorb(&circuits[i], &Vec::new());
            grown.push(*b);
            circuits.set(i, grown);
            assert(circuits_view(circuits@) =~= connected(before, *a, *b));
        },
        (None, Some(j)) => {
            assert(before[j as int] == circuits[j as int]@);
            let mut grown = absorb(&circuits[j], &Vec::new());
            grown.push(*a);
            circuits.set(j, grown);
            assert(circuits_view(circuits@) =~= connected(before, *a, *b));
        },
        (None, None) => {
            let mut new_circuit: Vec<Coordinate> = Vec::new();
            new_circuit.push(*a);
            if *a != *b {
                new_circuit.push(*b);
            }
            assert(new_circuit@ =~= if *a == *b {
                seq![*a]
            } else {
                seq![*a, *b]
            });
            circuits.push(new_circuit);
            assert(circuits_view(circuits@) =~= connected(before, *a, *b));
        },
    }
}

/// The number of boxes in the circuits, or `None` when it exceeds `usize`.
pub fn count_boxes(circuits: &Vec<Vec<Coordinate>>) -> (r: Option<usize>)
    ensures
        r == if boxes_in(circuits_view(circuits@), circuits.len() as int) <= usize::MAX {
            Some(boxes_in(circuits_view(circuits@), circuits.len() as int) as usize)
        } else {
            None
        },
{
    let ghost view = circuits_view(circuits@);
    let mut total: usize = 0;
    let mut i: usize = 0;
    while i < circuits.len()
        invariant
            0 <= i <= circuits.len(),
            view == circuits_view(circuits@),
            total == boxes_in(view, i as int),
        decreases circuits.len() - i,
    {
        assert(view[i as int] == circuits[i as int]@);
        total = match total.checked_add(circuits[i].len()) {
            Some(t) => t,
            None => {
                proof {
                    lemma_boxes_in_grows(view, i + 1, view.len() as int);
                }
                return None;
            },
        };
        i += 1;
    }
    Some(total)
}

/// More circuits never hold fewer boxes.
pub proof fn lemma_boxes_in_grows(circuits: Seq<Seq<Coordinate>>, k: int, n: int)
    requires
        k <= n,
    ensures
        boxes_in(circuits, k) <= boxes_in(circuits, n),
    decreases n - k,
{
    if k < n {
        lemma_boxes_in_grows(circuits, k, n - 1);
    }
}

/// The product of the sizes of the `count` largest circuits that are not
/// empty.
pub fn product_of_sizes(circuits: &Vec<Vec<Coordinate>>, count: usize) -> (r: Option<usize>)
    ensures
        nat_of(r) == product_of_largest( circuits_view(circuits@), none_taken(circuits.len() as nat), count as nat, ),
{
    let ghost view = circuits_view(circuits@);
    assert(view.len() == circuits.len());
    let n = circuits.len();
    let mut taken: Vec<bool> = Vec::new();
    while taken.len() < n
        invariant
            taken.len() <= n,
            forall|i: int| 0 <= i < taken.len() ==> !taken[i],
        decreases n - taken.len(),
    {
        taken.push(false);
    }
    assert(taken@ =~= none_taken(n as nat));
    // The sizes picked so far, largest first.
    let mut sizes: Vec<usize> = Vec::new();
    let ghost mut states: Seq<Seq<bool>> = seq![taken@];
    let mut round: usize = 0;
    while round < count
        invariant
            0 <= round <= count,
            n == circuits.len(),
            view == circuits_view(circuits@),
            taken.len() == n,
            sizes.len() == round,
            states.len() == round + 1,
            states[0] == none_taken(n as nat),
            states[round as int] == taken@,
            forall|t: int| 0 <= t <= round ==> (#[trigger] states[t]).len() == n,
            forall|t: int|
                0 <= t < round ==> {
                    let i = largest_free(view, #[trigger] states[t], n as int);
                    &&& 0 <= i < n
                    &&& view[i].len() > 0
                    &&& sizes[t] == view[i].len()
                    &&& states[t + 1] == states[t].update(i, true)
                },
        ensures
            0 <= round <= count,
            sizes.len() == round,
            states.len() == round + 1,
            states[0] == none_taken(n as nat),
            forall|t: int| 0 <= t <= round ==> (#[trigger] states[t]).len() == n,
            forall|t: int|
                0 <= t < round ==> {
                    let i = largest_free(view, #[trigger] states[t], n as int);
                    &&& 0 <= i < n
                    &&& view[i].len() > 0
                    &&& sizes[t] == view[i].len()
                    &&& states[t + 1] == states[t].update(i, true)
                },
            product_of_largest(view, states[round as int], (count - round) as nat) == Some(1nat),
        decreases count - round,
    {
        let mut best: usize = 0;
        let mut k: usize = 0;
        while k < n
            invariant
                0 <= k <= n,
                n == circuits.len(),
                view == circuits_view(circuits@),
                taken.len() == n,
                best == largest_free(view, taken@, k as int),
                0 <= best <= k,
            decreases n - k,
        {
            assert(view[k as int] == circuits[k as int]@);
            if best < k {
                assert(view[best as int] == circuits[best as int]@);
            }
            if taken[k] {
                if best == k {
                    best = k + 1;
                }
            } else if best >= k || circuits[k].len() > circuits[best].len() {
                best = k;
            }
            k += 1;
        }
        if best >= n {
            break;
        }
        assert(view[best as int] == circuits[best as int]@);
        if circuits[best].len() == 0 {
            break;
        }
        sizes.push(circuits[best].len());
        taken.set(best, true);
        proof {
            states = states.push(taken@);
        }
        round += 1;
    }
    // Multiply from the last pick back to the first.
    let mut product: usize = 1;
    let mut t: usize = round;
    while t > 0
        invariant
            0 <= t <= round <= count,
            n == circuits.len(),
            view == circuits_view(circuits@),
            sizes.len() == round,
            states.len() == round + 1,
            states[0] == none_taken(n as nat),
            forall|u: int| 0 <= u <= round ==> (#[trigger] states[u]).len() == n,
            forall|u: int|
                0 <= u < round ==> {
                    let i = largest_free(view, #[trigger] states[u], n as int);
                    &&& 0 <= i < n
                    &&& view[i].len() > 0
                    &&& sizes[u] == view[i].len()
                    &&& states[u + 1] == states[u].update(i, true)
                },
            view.len() == n,
            product_of_largest(view, states[t as int], (count - t) as nat) == Some(product as nat),
        decreases t,
    {
        t -= 1;
        let ghost i = largest_free(view, states[t as int], n as int);
        assert(states[t + 1] == states[t as int].update(i, true));
        product = match sizes[t].checked_mul(product) {
            Some(p) => p,
            None => {
                proof {
                    assert(product_of_largest(view, states[t as int], (count - t) as nat) is None);
                    lemma_product_none_stays(view, states, sizes@, n as int, count as nat, t as int);
                }
                return None;
            },
        };
    }
    Some(product)
}

/// Once the product of later picks exceeds `usize`, so does that of all picks.
pub proof fn lemma_product_none_stays(
    view: Seq<Seq<Coordinate>>,
    states: Seq<Seq<bool>>,
    sizes: Seq<usize>,
    n: int,
    count: nat,
    t: int,
)
    requires
        view.len() == n,
        0 <= t < states.len(),
        states.len() <= count + 1,
        forall|u: int|
            0 <= u < states.len() - 1 ==> {
                let i = largest_free(view, #[trigger] states[u], n);
                &&& 0 <= i < n
                &&& view[i].len() > 0
                &&& sizes[u] == view[i].len()
                &&& states[u + 1] == states[u].update(i, true)
            },
        product_of_largest(view, states[t], (count - t) as nat) is None,
    ensures
        product_of_largest(view, states[0], count) is None,
    decreases t,
{
    if t > 0 {
        let i = largest_free(view, states[t - 1], n);
        assert(states[t] == states[t - 1].update(i, true));
        assert(product_of_largest(view, states[t - 1], (count - (t - 1)) as nat) is None);
        lemma_product_none_stays(view, states, sizes, n, count, t - 1);
    }
}

/// The product of the sizes of the three largest circuits after the first
/// `limit` of the pairs were connected in their order.
pub fn largest_circuits(pairs: &Vec<(&Coordinate, &Coordinate)>, limit: usize) -> (r: Option<usize>)
    ensures
        nat_of(r) == spec_part1(pairs_view(pairs@), limit as nat),
{
    let ghost pv = pairs_view(pairs@);
    let mut circuits: Vec<Vec<Coordinate>> = Vec::new();
    let end = if limit <= pairs.len() {
        limit
    } else {
        pairs.len()
    };
    let mut k: usize = 0;
    assert(circuits_view(circuits@) =~= Seq::<Seq<Coordinate>>::empty());
    while k < end
        invariant
            0 <= k <= end <= pairs.len(),
            pv == pairs_view(pairs@),
            circuits_view(circuits@) == circuits_after(pv, k as int),
        decreases end - k,
    {
        assert(pv[k as int] == (*pairs[k as int].0, *pairs[k as int].1));
        connect(&mut circuits, pairs[k].0, pairs[k].1);
        k += 1;
    }
    assert(circuits_view(circuits@).len() == circuits.len());
    product_of_sizes(&circuits, 3)
}

/// The product of the x coordinates of the pair whose connection brings the
/// number of boxes in circuits to `total`, when the pairs are connected in
/// their order.
pub fn last_connection(pairs: &Vec<(&Coordinate, &Coordinate)>, total: usize) -> (r: Option<u64>)
    ensures
        nat_of_u64(r) == spec_part2(pairs_view(pairs@), total as nat),
{
    let ghost pv = pairs_view(pairs@);
    let mut circuits: Vec<Vec<Coordinate>> = Vec::new();
    let mut k: usize = 0;
    assert(circuits_view(circuits@) =~= Seq::<Seq<Coordinate>>::empty());
    while k < pairs.len()
        invariant
            0 <= k <= pairs.len(),
            pv == pairs_view(pairs@),
            pv.len() == pairs.len(),
            circuits_view(circuits@) == circuits_after(pv, k as int),
            completing_pair(pv, total as nat, k as int) == 0,
        decreases pairs.len() - k,
    {
        assert(pv[k as int] == (*pairs[k as int].0, *pairs[k as int].1));
        let a = pairs[k].0;
        let b = pairs[k].1;
        connect(&mut circuits, a, b);
        assert(circuits_view(circuits@).len() == circuits.len());
        if count_boxes(&circuits) == Some(total) {
            proof {
                assert(completing_pair(pv, total as nat, k + 1) == k + 1);
                lemma_completing_pair_stays(pv, total as nat, k + 1, pv.len() as int);
            }
            if a.x >= 0 && b.x >= 0 {
                let ax = a.x as u64;
                let bx = b.x as u64;
                assert(ax * bx <= 0x4000_0000_0000_0000) by (nonlinear_arith)
                    requires
                        0 <= ax <= 0x7fff_ffff,
                        0 <= bx <= 0x7fff_ffff,
                ;
                return Some(ax * bx);
            } else {
                return None;
            }
        }
        k += 1;
    }
    Some(0)
}

/// Once a connection completes the circuits, later connections change nothing.
pub proof fn lemma_completing_pair_stays(
    pairs: Seq<(Coordinate, Coordinate)>,
    total: nat,
    k: int,
    n: int,
)
    requires
        0 <= k <= n,
        completing_pair(pairs, total, k) > 0,
    ensures
        completing_pair(pairs, total, n) == completing_pair(pairs, total, k),
    decreases n - k,
{
    if k < n {
        lemma_completing_pair_stays(pairs, total, k, n - 1);
    }
}

} // verus!
