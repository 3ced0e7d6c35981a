//! The largest axis-aligned rectangle spanned by two vertices of a polygon:
//! first among all pairs of points, then among the pairs whose rectangle lies
//! within the polygon.
use crate::compress::{compress, search, strictly_increasing};
use crate::pairs::{create_pairs, is_pair_index, lemma_pair_index_range, pair_count, pair_index};
use crate::polygon::{
    in_polygon, inside_polygon, is_in_polygon, is_inside_polygon, next_vertex, on_boundary,
    on_edge, on_segment,
};
use crate::position::{spec_parse_position, Position, PositionError};
use crate::text::{chars_of, lines, nat_of_u128, pieces_view, spec_lines};
use vstd::math::{abs, max, min};
use vstd::prelude::*;

verus! {

/// An axis-aligned rectangle given by two opposite corners.
pub struct Rectangle {
    pub corners: (Position, Position),
}

/// The number of lattice points of the rectangle with opposite corners `a` and
/// `b`, sides included.
pub open spec fn rect_area(a: Position, b: Position) -> nat {
    ((abs(a.x - b.x) + 1) * (abs(a.y - b.y) + 1)) as nat
}

/// The area of the rectangle between two positions.
pub fn area_between(a: &Position, b: &Position) -> (r: u128)
    ensures
        r == rect_area(*a, *b),
        1 <= r <= 0x1_0000_0000_0000_0000,
{
    let dx: i64 = a.x as i64 - b.x as i64;
    let dy: i64 = a.y as i64 - b.y as i64;
    let width: u128 = if dx >= 0 {
        dx as u128 + 1
    } else {
        (-dx) as u128 + 1
    };
    let height: u128 = if dy >= 0 {
        dy as u128 + 1
    } else {
        (-dy) as u128 + 1
    };
    assert(1 <= width * height <= 0x1_0000_0000_0000_0000) by (nonlinear_arith)
        requires
            1 <= width <= 0x1_0000_0000,
            1 <= height <= 0x1_0000_0000,
    ;
    width * height
}

impl Rectangle {
    pub fn get_area(&self) -> (r: u128)
        ensures
            r == rect_area(self.corners.0, self.corners.1),
    {
        area_between(&self.corners.0, &self.corners.1)
    }
}

/// The positions that the lines denote, or the error of the first line that
/// denotes none.
pub open spec fn parse_positions(lines: Seq<Seq<char>>) -> Result<Seq<Position>, PositionError>
    decreases lines.len(),
{
    if lines.len() == 0 {
        Ok(Seq::empty())
    } else {
        match parse_positions(lines.drop_last()) {
            Err(e) => Err(e),
            Ok(ps) => match spec_parse_position(lines.last()) {
                Err(e) => Err(e),
                Ok(p) => Ok(ps.push(p)),
            },
        }
    }
}

/// The vertex list that a text denotes, one `x,y` per line.
pub open spec fn spec_parse_polygon(input: Seq<char>) -> Result<Seq<Position>, PositionError> {
    parse_positions(spec_lines(input))
}

/// Reads a vertex list, one `x,y` per line. The first malformed line decides
/// the error.
pub fn parse_polygon(input: &str) -> (r: Result<Vec<Position>, PositionError>)
    ensures
        match spec_parse_polygon(input@) {
            Ok(ps) => r is Ok && r->Ok_0@ == ps,
            Err(e) => r == Err::<Vec<Position>, PositionError>(e),
        },
{
    let chars = chars_of(input);
    let ls = lines(&chars);
    let ghost all = spec_lines(input@);
    let mut out: Vec<Position> = Vec::new();
    let mut i: usize = 0;
    assert(all.take(0) == Seq::<Seq<char>>::empty());
    while i < ls.len()
        invariant
            0 <= i <= ls.len(),
            pieces_view(ls@) == all,
            all == spec_lines(input@),
            parse_positions(all.take(i as int)) == Ok::<Seq<Position>, PositionError>(out@),
        decreases ls.len() - i,
    {
        proof {
            assert(all.take(i + 1).drop_last() == all.take(i as int));
            assert(all[i as int] == ls[i as int]@);
            assert(all.take(i + 1).last() == ls[i as int]@);
        }
        match Position::from_chars(&ls[i]) {
            Ok(p) => {
                out.push(p);
            },
            Err(e) => {
                proof {
                    assert(parse_positions(all.take(i + 1)) == Err::<Seq<Position>, PositionError>(
                        e,
                    ));
                    lemma_parse_positions_error_stays(all, i + 1);
                }
                return Err(e);
            },
        }
        i += 1;
    }
    assert(all.take(i as int) == all);
    Ok(out)
}

/// Once a prefix of the lines fails to parse, the whole fails with the same
/// error.
pub proof fn lemma_parse_positions_error_stays(lines: Seq<Seq<char>>, k: int)
    requires
        0 <= k <= lines.len(),
        parse_positions(lines.take(k)) is Err,
    ensures
        parse_positions(lines) == parse_positions(lines.take(k)),
    decreases lines.len() - k,
{
    if k < lines.len() {
        assert(lines.take(k + 1).drop_last() == lines.take(k));
        lemma_parse_positions_error_stays(lines, k + 1);
    } else {
        assert(lines.take(k) == lines);
    }
}

/// Whether some vertex of the polygon has the x coordinate `x`.
pub open spec fn has_x(poly: Seq<Position>, x: i32) -> bool {
    exists|i: int| 0 <= i < poly.len() && (#[trigger] poly[i]).x == x
}

/// Whether some vertex of the polygon has the y coordinate `y`.
pub open spec fn has_y(poly: Seq<Position>, y: i32) -> bool {
    exists|i: int| 0 <= i < poly.len() && (#[trigger] poly[i]).y == y
}

/// Whether `p` is a point of the compressed grid: its x is that of some
/// vertex, and so is its y.
pub open spec fn on_compressed_grid(p: Position, poly: Seq<Position>) -> bool {
    has_x(poly, p.x) && has_y(poly, p.y)
}

/// Whether `p` lies in the rectangle with opposite corners `a` and `b`, sides
/// included.
pub open spec fn in_span(p: Position, a: Position, b: Position) -> bool {
    &&& min(a.x as int, b.x as int) <= p.x <= max(a.x as int, b.x as int)
    &&& min(a.y as int, b.y as int) <= p.y <= max(a.y as int, b.y as int)
}

/// Whether every point of the compressed grid within the rectangle between
/// `a` and `b` belongs to the polygon.
pub open spec fn grid_points_valid(poly: Seq<Position>, a: Position, b: Position) -> bool {
    forall|p: Position| #[trigger]
        in_span(p, a, b) && on_compressed_grid(p, poly) ==> in_polygon(p, poly)
}

/// Whether the lattice point `p` was walked when tracing the edge from `s` to
/// `e`: along the row for an edge within one row, else along the column of `s`.
pub open spec fn walked(p: Position, s: Position, e: Position) -> bool {
    if s.y == e.y {
        p.y == s.y && min(s.x as int, e.x as int) <= p.x <= max(s.x as int, e.x as int)
    } else {
        p.x == s.x && min(s.y as int, e.y as int) <= p.y <= max(s.y as int, e.y as int)
    }
}

/// Whether `p` was walked when tracing the edge that starts at vertex `i`.
pub open spec fn walked_edge(p: Position, poly: Seq<Position>, i: int) -> bool {
    walked(p, poly[i], next_vertex(poly, i))
}

/// Whether `p` is a lattice point of the traced perimeter.
pub open spec fn on_perimeter(p: Position, poly: Seq<Position>) -> bool {
    exists|i: int| 0 <= i < poly.len() && #[trigger] walked_edge(p, poly, i)
}

/// Whether `p` is on the traced perimeter or interior.
pub open spec fn covered(p: Position, poly: Seq<Position>) -> bool {
    on_perimeter(p, poly) || inside_polygon(p, poly)
}

/// Whether every lattice point of the rectangle between `a` and `b` is
/// covered by the polygon.
pub open spec fn all_points_valid(poly: Seq<Position>, a: Position, b: Position) -> bool {
    forall|p: Position| #[trigger] in_span(p, a, b) ==> covered(p, poly)
}

/// Whether every edge of the polygon is horizontal or vertical.
pub open spec fn rectilinear(poly: Seq<Position>) -> bool {
    forall|i: int|
        0 <= i < poly.len() ==> (#[trigger] poly[i]).x == next_vertex(poly, i).x || poly[i].y
            == next_vertex(poly, i).y
}

/// Tracing a horizontal or vertical edge walks exactly the lattice points on
/// it.
pub proof fn lemma_walked_is_on_segment(p: Position, s: Position, e: Position)
    requires
        s.x == e.x || s.y == e.y,
    ensures
        walked(p, s, e) == on_segment(p, s, e),
{
    let dx = e.x - s.x;
    let dy = e.y - s.y;
    if s.y == e.y {
        assert((p.x - s.x) * dy == 0) by (nonlinear_arith)
            requires
                dy == 0,
        ;
        if p.y == s.y {
            assert((p.y - s.y) * dx == 0) by (nonlinear_arith)
                requires
                    p.y - s.y == 0,
            ;
        }
    } else {
        assert((p.y - s.y) * dx == 0) by (nonlinear_arith)
            requires
                dx == 0,
        ;
        if p.x == s.x {
            assert((p.x - s.x) * dy == 0) by (nonlinear_arith)
                requires
                    p.x - s.x == 0,
            ;
        }
    }
}

/// For a polygon whose edges are all horizontal or vertical, the traced
/// perimeter is the boundary: a point is covered exactly when it belongs to
/// the polygon.
pub proof fn lemma_covered_is_in_polygon(p: Position, poly: Seq<Position>)
    requires
        rectilinear(poly),
    ensures
        on_perimeter(p, poly) == on_boundary(p, poly),
        covered(p, poly) == in_polygon(p, poly),
{
    if on_perimeter(p, poly) {
        let i = choose|i: int| 0 <= i < poly.len() && #[trigger] walked_edge(p, poly, i);
        lemma_walked_is_on_segment(p, poly[i], next_vertex(poly, i));
        assert(on_edge(p, poly, i));
    }
    if on_boundary(p, poly) {
        let i = choose|i: int| 0 <= i < poly.len() && #[trigger] on_edge(p, poly, i);
        lemma_walked_is_on_segment(p, poly[i], next_vertex(poly, i));
        assert(walked_edge(p, poly, i));
    }
}

/// How a candidate rectangle is judged.
#[derive(Debug, PartialEq, Eq, Structural, Clone, Copy)]
pub enum Criterion {
    /// Every pair of points spans a rectangle that counts.
    AnyPair,
    /// The corners differ in both coordinates, and every point of the
    /// compressed grid within the rectangle belongs to the polygon.
    GridPoints,
    /// The corners differ in both coordinates, and every lattice point of the
    /// rectangle is on the traced perimeter or interior.
    AllPoints,
}

/// Whether the rectangle between `a` and `b` counts under the criterion.
pub open spec fn accepts(c: Criterion, poly: Seq<Position>, a: Position, b: Position) -> bool {
    match c {
        Criterion::AnyPair => true,
        Criterion::GridPoints => {
            &&& a.x != b.x
            &&& a.y != b.y
            &&& on_compressed_grid(a, poly)
            &&& on_compressed_grid(b, poly)
            &&& grid_points_valid(poly, a, b)
        },
        Criterion::AllPoints => {
            &&& a.x != b.x
            &&& a.y != b.y
            &&& all_points_valid(poly, a, b)
        },
    }
}

/// The area of the candidate between `a` and `b` if it counts.
pub open spec fn spec_candidate_area(
    c: Criterion,
    poly: Seq<Position>,
    a: Position,
    b: Position,
) -> Option<nat> {
    if accepts(c, poly, a, b) {
        Some(rect_area(a, b))
    } else {
        None
    }
}

/// Whether `r` is the greatest area among the rectangles that are spanned by
/// two of the `points` and count under the criterion, judged against `poly`;
/// `None` when no pair counts.
pub open spec fn is_max_area(
    c: Criterion,
    poly: Seq<Position>,
    points: Seq<Position>,
    r: Option<u128>,
) -> bool {
    match r {
        None => forall|i: int, j: int|
            0 <= i < points.len() && 0 <= j < points.len() && i != j ==> !accepts(
                c,
                poly,
                #[trigger] points[i],
                #[trigger] points[j],
            ),
        Some(m) => {
            &&& exists|i: int, j: int|
                0 <= i < points.len() && 0 <= j < points.len() && i != j && accepts(
                    c,
                    poly,
                    #[trigger] points[i],
                    #[trigger] points[j],
                ) && rect_area(points[i], points[j]) == m
            &&& forall|i: int, j: int|
                0 <= i < points.len() && 0 <= j < points.len() && i != j && accepts(
                    c,
                    poly,
                    #[trigger] points[i],
                    #[trigger] points[j],
                ) ==> rect_area(points[i], points[j]) <= m
        },
    }
}

/// The greatest area is determined by the polygon and the criterion: two
/// searches over the same input agree.
pub proof fn lemma_max_area_unique(
    c: Criterion,
    poly: Seq<Position>,
    points: Seq<Position>,
    r1: Option<u128>,
    r2: Option<u128>,
)
    requires
        is_max_area(c, poly, points, r1),
        is_max_area(c, poly, points, r2),
    ensures
        r1 == r2,
{
}

/// No rectangle is missed: a pair of points that counts has an area no greater
/// than the maximum found.
pub proof fn lemma_max_area_sound(
    c: Criterion,
    poly: Seq<Position>,
    points: Seq<Position>,
    r: Option<u128>,
    i: int,
    j: int,
)
    requires
        is_max_area(c, poly, points, r),
        0 <= i < points.len(),
        0 <= j < points.len(),
        i != j,
        accepts(c, poly, points[i], points[j]),
    ensures
        r is Some,
        rect_area(points[i], points[j]) <= r->Some_0,
{
}

/// A pair that shares an x or a y coordinate spans no rectangle that counts
/// toward the greatest valid area, whatever lies inside it.
pub proof fn lemma_degenerate_rejected(c: Criterion, poly: Seq<Position>, a: Position, b: Position)
    requires
        c != Criterion::AnyPair,
        a.x == b.x || a.y == b.y,
    ensures
        !accepts(c, poly, a, b),
        spec_candidate_area(c, poly, a, b) is None,
{
}

/// Every lattice point of a rectangle accepted by `AllPoints` is on the traced
/// perimeter of the polygon or interior to it.
pub proof fn lemma_accepted_points_covered(
    poly: Seq<Position>,
    a: Position,
    b: Position,
    p: Position,
)
    requires
        accepts(Criterion::AllPoints, poly, a, b),
        in_span(p, a, b),
    ensures
        covered(p, poly),
{
}

/// For a polygon whose edges are all horizontal or vertical, every lattice
/// point of a rectangle accepted by `AllPoints`, its sides included, is on the
/// boundary of the polygon or interior to it.
pub proof fn lemma_accepted_points_in_polygon(
    poly: Seq<Position>,
    a: Position,
    b: Position,
    p: Position,
)
    requires
        rectilinear(poly),
        accepts(Criterion::AllPoints, poly, a, b),
        in_span(p, a, b),
    ensures
        in_polygon(p, poly),
{
    lemma_covered_is_in_polygon(p, poly);
}

/// For a polygon whose edges are all horizontal or vertical, a rectangle
/// between two of its vertices that `AllPoints` accepts is accepted by
/// `GridPoints` too: judging on the compressed grid rejects no rectangle that
/// lies within the polygon.
pub proof fn lemma_grid_points_accepts_more(poly: Seq<Position>, i: int, j: int)
    requires
        rectilinear(poly),
        0 <= i < poly.len(),
        0 <= j < poly.len(),
        accepts(Criterion::AllPoints, poly, poly[i], poly[j]),
    ensures
        accepts(Criterion::GridPoints, poly, poly[i], poly[j]),
{
    let a = poly[i];
    let b = poly[j];
    assert forall|p: Position| #[trigger]
        in_span(p, a, b) && on_compressed_grid(p, poly) implies in_polygon(p, poly) by {
        lemma_covered_is_in_polygon(p, poly);
    }
}

/// Every point of the compressed grid within a rectangle accepted by
/// `GridPoints` is on the boundary of the polygon or interior to it.
pub proof fn lemma_accepted_grid_points_in_polygon(
    poly: Seq<Position>,
    a: Position,
    b: Position,
    p: Position,
)
    requires
        accepts(Criterion::GridPoints, poly, a, b),
        in_span(p, a, b),
        on_compressed_grid(p, poly),
    ensures
        in_polygon(p, poly),
{
}

/// Whether `best` is the greatest area among the first `k` pairs that count.
pub open spec fn is_best_of_first(
    c: Criterion,
    poly: Seq<Position>,
    pairs: Seq<(Position, Position)>,
    k: int,
    best: Option<u128>,
) -> bool {
    match best {
        None => forall|t: int| 0 <= t < k ==> !accepts(c, poly, (#[trigger] pairs[t]).0, pairs[t].1),
        Some(m) => {
            &&& exists|t: int|
                0 <= t < k && accepts(c, poly, (#[trigger] pairs[t]).0, pairs[t].1) && rect_area(
                    pairs[t].0,
                    pairs[t].1,
                ) == m
            &&& forall|t: int|
                0 <= t < k && accepts(c, poly, (#[trigger] pairs[t]).0, pairs[t].1) ==> rect_area(
                    pairs[t].0,
                    pairs[t].1,
                ) <= m
        },
    }
}

/// Whether `pairs` lists every unordered pair of `points` at its place.
pub open spec fn lists_all_pairs(points: Seq<Position>, pairs: Seq<(Position, Position)>) -> bool {
    &&& pairs.len() == pair_count(points.len() as int)
    &&& forall|i: int, j: int|
        0 <= i < j < points.len() ==> pairs[#[trigger] pair_index(points.len() as int, i, j)] == (
            points[i],
            points[j],
        )
    &&& forall|k: int| 0 <= k < pairs.len() ==> #[trigger] is_pair_index(points.len() as int, k)
}

/// The order of the two corners does not matter.
pub proof fn lemma_accepts_symmetric(c: Criterion, poly: Seq<Position>, a: Position, b: Position)
    ensures
        accepts(c, poly, a, b) == accepts(c, poly, b, a),
        rect_area(a, b) == rect_area(b, a),
{
    assert forall|p: Position| in_span(p, a, b) == in_span(p, b, a) by {}
    assert(grid_points_valid(poly, a, b) == grid_points_valid(poly, b, a));
    assert(all_points_valid(poly, a, b) == all_points_valid(poly, b, a));
    assert(abs(a.x - b.x) == abs(b.x - a.x));
    assert(abs(a.y - b.y) == abs(b.y - a.y));
}

/// The best among the listed pairs is the greatest area over all pairs of
/// distinct indices.
pub proof fn lemma_best_pair_is_max(
    c: Criterion,
    poly: Seq<Position>,
    points: Seq<Position>,
    pairs: Seq<(Position, Position)>,
    best: Option<u128>,
)
    requires
        lists_all_pairs(points, pairs),
        is_best_of_first(c, poly, pairs, pairs.len() as int, best),
    ensures
        is_max_area(c, poly, points, best),
{
    let n = points.len() as int;
    assert forall|i: int, j: int|
        0 <= i < n && 0 <= j < n && i != j && accepts(
            c,
            poly,
            #[trigger] points[i],
            #[trigger] points[j],
        ) implies best is Some && rect_area(points[i], points[j]) <= best->Some_0 by {
        lemma_accepts_symmetric(c, poly, points[i], points[j]);
        if i < j {
            lemma_pair_index_range(n, i, j);
            let k = pair_index(n, i, j);
            assert(pairs[k] == (points[i], points[j]));
        } else {
            lemma_pair_index_range(n, j, i);
            let k = pair_index(n, j, i);
            assert(pairs[k] == (points[j], points[i]));
        }
    }
    if best is Some {
        let m = best->Some_0;
        let t = choose|t: int|
            0 <= t < pairs.len() && accepts(c, poly, (#[trigger] pairs[t]).0, pairs[t].1)
                && rect_area(pairs[t].0, pairs[t].1) == m;
        assert(is_pair_index(n, t));
        let (i, j) = choose|i: int, j: int| 0 <= i < j < n && t == #[trigger] pair_index(n, i, j);
        assert(pairs[t] == (points[i], points[j]));
        assert(accepts(c, poly, points[i], points[j]) && rect_area(points[i], points[j]) == m);
    }
}

/// Dropping repeated vertices changes nothing for a criterion that rejects a
/// pair of equal corners.
pub proof fn lemma_max_over_distinct(
    c: Criterion,
    poly: Seq<Position>,
    verts: Seq<Position>,
    best: Option<u128>,
)
    requires
        c != Criterion::AnyPair,
        forall|p: Position| verts.contains(p) <==> poly.contains(p),
        is_max_area(c, poly, verts, best),
    ensures
        is_max_area(c, poly, poly, best),
{
    assert forall|i: int, j: int|
        0 <= i < poly.len() && 0 <= j < poly.len() && i != j && accepts(
            c,
            poly,
            #[trigger] poly[i],
            #[trigger] poly[j],
        ) implies best is Some && rect_area(poly[i], poly[j]) <= best->Some_0 by {
        assert(poly.contains(poly[i]));
        assert(poly.contains(poly[j]));
        let a = choose|a: int| 0 <= a < verts.len() && verts[a] == poly[i];
        let b = choose|b: int| 0 <= b < verts.len() && verts[b] == poly[j];
        assert(accepts(c, poly, verts[a], verts[b]));
    }
    if best is Some {
        let m = best->Some_0;
        let (a, b) = choose|a: int, b: int|
            0 <= a < verts.len() && 0 <= b < verts.len() && a != b && accepts(
                c,
                poly,
                #[trigger] verts[a],
                #[trigger] verts[b],
            ) && rect_area(verts[a], verts[b]) == m;
        assert(verts.contains(verts[a]));
        assert(verts.contains(verts[b]));
        let i = choose|i: int| 0 <= i < poly.len() && poly[i] == verts[a];
        let j = choose|j: int| 0 <= j < poly.len() && poly[j] == verts[b];
        assert(accepts(c, poly, poly[i], poly[j]) && rect_area(poly[i], poly[j]) == m);
    }
}

/// The pairs of a vector of borrowed pairs, by value.
pub open spec fn pair_values(pairs: Seq<(&Position, &Position)>) -> Seq<(Position, Position)> {
    Seq::new(pairs.len(), |k: int| (*pairs[k].0, *pairs[k].1))
}

/// The greater of two maxima, each of which may be missing.
pub open spec fn spec_fold_max(a: Option<u128>, b: Option<u128>) -> Option<u128> {
    match (a, b) {
        (Some(m), Some(n)) => Some(
            if n > m {
                n
            } else {
                m
            },
        ),
        (Some(m), None) => Some(m),
        (None, n) => n,
    }
}

/// The greater of a running maximum and a candidate, if there is one.
pub fn fold_max(best: Option<u128>, candidate: Option<u128>) -> (r: Option<u128>)
    ensures
        r == spec_fold_max(best, candidate),
{
    match (best, candidate) {
        (Some(m), Some(a)) => Some(if a > m { a } else { m }),
        (Some(m), None) => Some(m),
        (None, c) => c,
    }
}

/// Maxima can be combined in any order and any grouping.
pub proof fn lemma_fold_max_laws(a: Option<u128>, b: Option<u128>, c: Option<u128>)
    ensures
        spec_fold_max(a, b) == spec_fold_max(b, a),
        spec_fold_max(spec_fold_max(a, b), c) == spec_fold_max(a, spec_fold_max(b, c)),
        spec_fold_max(a, None) == a,
        spec_fold_max(a, a) == a,
{
}

/// The candidates can be shared out: the best of two lists of pairs, each
/// searched on its own, combine to the best of the two lists together.
pub proof fn lemma_best_of_parts(
    c: Criterion,
    poly: Seq<Position>,
    first: Seq<(Position, Position)>,
    second: Seq<(Position, Position)>,
    best_first: Option<u128>,
    best_second: Option<u128>,
)
    requires
        is_best_of_first(c, poly, first, first.len() as int, best_first),
        is_best_of_first(c, poly, second, second.len() as int, best_second),
    ensures
        is_best_of_first(
            c,
            poly,
            first + second,
            (first + second).len() as int,
            spec_fold_max(best_first, best_second),
        ),
{
    let all = first + second;
    let best = spec_fold_max(best_first, best_second);
    assert forall|t: int|
        0 <= t < all.len() && accepts(c, poly, (#[trigger] all[t]).0, all[t].1) implies best is Some
        && rect_area(all[t].0, all[t].1) <= best->Some_0 by {
        if t < first.len() {
            assert(all[t] == first[t]);
        } else {
            assert(all[t] == second[t - first.len()]);
        }
    }
    if best_first is Some && (best_second is None || best_second->Some_0 <= best_first->Some_0) {
        let t = choose|t: int|
            0 <= t < first.len() && accepts(c, poly, (#[trigger] first[t]).0, first[t].1)
                && rect_area(first[t].0, first[t].1) == best_first->Some_0;
        assert(all[t] == first[t]);
    } else if best_second is Some {
        let t = choose|t: int|
            0 <= t < second.len() && accepts(c, poly, (#[trigger] second[t]).0, second[t].1)
                && rect_area(second[t].0, second[t].1) == best_second->Some_0;
        assert(all[t + first.len()] == second[t]);
    }
}

/// The vertices of the polygon without repetitions, each at its first place.
pub fn distinct_vertices(polygon: &Vec<Position>) -> (r: Vec<Position>)
    ensures
        forall|p: Position| r@.contains(p) <==> polygon@.contains(p),
        r@.no_duplicates(),
        r.len() <= polygon.len(),
{
    let mut out: Vec<Position> = Vec::new();
    let mut i: usize = 0;
    while i < polygon.len()
        invariant
            0 <= i <= polygon.len(),
            out.len() <= i,
            out@.no_duplicates(),
            forall|p: Position| out@.contains(p) <==> polygon@.take(i as int).contains(p),
        decreases polygon.len() - i,
    {
        let v = polygon[i];
        let ghost seen = polygon@.take(i as int);
        let ghost before = out@;
        proof {
            assert(polygon@.take(i + 1) == seen.push(v));
        }
        let mut found = false;
        let mut k: usize = 0;
        while k < out.len()
            invariant
                0 <= k <= out.len(),
                found == exists|t: int| 0 <= t < k && out[t] == v,
            decreases out.len() - k,
        {
            if out[k] == v {
                found = true;
            }
            k += 1;
        }
        if !found {
            out.push(v);
        }
        assert forall|p: Position| out@.contains(p) <==> seen.push(v).contains(p) by {
            if seen.push(v).contains(p) {
                let t = choose|t: int| 0 <= t < seen.push(v).len() && seen.push(v)[t] == p;
                if t < seen.len() {
                    assert(seen[t] == p);
                    assert(seen.contains(p));
                    assert(before.contains(p));
                    let u = choose|u: int| 0 <= u < before.len() && before[u] == p;
                    assert(out@[u] == p);
                } else if found {
                    let u = choose|u: int| 0 <= u < before.len() && before[u] == v;
                    assert(out@[u] == p);
                } else {
                    assert(out@[before.len() as int] == p);
                }
            }
            if out@.contains(p) {
                let u = choose|u: int| 0 <= u < out@.len() && out@[u] == p;
                if u < before.len() {
                    assert(before[u] == p);
                    assert(before.contains(p));
                    let t = choose|t: int| 0 <= t < seen.len() && seen[t] == p;
                    assert(seen.push(v)[t] == p);
                } else {
                    assert(seen.push(v)[seen.len() as int] == p);
                }
            }
        }
        i += 1;
    }
    assert(polygon@.take(i as int) == polygon@);
    out
}

/// The greatest area among the rectangles spanned by two of the points, or
/// `None` for fewer than two points.
pub fn largest_pair_area(points: &Vec<Position>) -> (r: Option<u128>)
    ensures
        is_max_area(Criterion::AnyPair, points@, points@, r),
        r is None <==> points.len() < 2,
        r is Some ==> r->Some_0 >= 1,
{
    let pairs = create_pairs(points);
    let ghost pv = pair_values(pairs@);
    assert(lists_all_pairs(points@, pv));
    let mut best: Option<u128> = None;
    let mut k: usize = 0;
    while k < pairs.len()
        invariant
            0 <= k <= pairs.len(),
            pv == pair_values(pairs@),
            is_best_of_first(Criterion::AnyPair, points@, pv, k as int, best),
            best is Some ==> best->Some_0 >= 1,
        decreases pairs.len() - k,
    {
        let area = area_between(pairs[k].0, pairs[k].1);
        let ghost prev = best;
        best = fold_max(best, Some(area));
        proof {
            assert(pv[k as int] == (*pairs[k as int].0, *pairs[k as int].1));
            if prev is Some {
                let t = choose|t: int|
                    0 <= t < k && accepts(Criterion::AnyPair, points@, (#[trigger] pv[t]).0, pv[t].1)
                        && rect_area(pv[t].0, pv[t].1) == prev->Some_0;
                assert(0 <= t < k + 1);
            }
        }
        k += 1;
    }
    proof {
        lemma_best_pair_is_max(Criterion::AnyPair, points@, points@, pv, best);
        if points.len() >= 2 {
            lemma_pair_index_range(points.len() as int, 0, 1);
            assert(pv[pair_index(points.len() as int, 0, 1)] == (points[0], points[1]));
        }
    }
    best
}

/// What a reported area stands for: zero for no rectangle at all, any other
/// number for the greatest area found. Every rectangle has a positive area, so
/// zero stands for nothing else.
pub open spec fn area_found(m: u128) -> Option<u128> {
    if m == 0 {
        None
    } else {
        Some(m)
    }
}

/// The area to report for the outcome of a search: zero when there is no
/// rectangle.
pub fn area_or_zero(best: Option<u128>) -> (m: u128)
    ensures
        m == match best {
            Some(a) => a,
            None => 0,
        },
        best is Some && best->Some_0 != 0 || best is None ==> area_found(m) == best,
{
    match best {
        Some(a) => a,
        None => 0,
    }
}

/// The greatest area among the rectangles spanned by two of the points that
/// the text lists, one `x,y` per line; zero for fewer than two points.
pub fn part1(input: &str) -> (r: Result<u128, PositionError>)
    ensures
        match spec_parse_polygon(input@) {
            Err(e) => r == Err::<u128, PositionError>(e),
            Ok(points) => r is Ok && is_max_area(
                Criterion::AnyPair,
                points,
                points,
                area_found(r->Ok_0),
            ),
        },
{
    match parse_polygon(input) {
        Err(e) => Err(e),
        Ok(points) => {
            let best = largest_pair_area(&points);
            Ok(area_or_zero(best))
        },
    }
}

/// Whether `axis` is the compressed x axis of the polygon: strictly
/// increasing, and holding exactly the x coordinates of the vertices.
pub open spec fn is_x_axis(axis: Seq<i32>, poly: Seq<Position>) -> bool {
    &&& strictly_increasing(axis)
    &&& forall|v: i32| axis.contains(v) <==> has_x(poly, v)
}

/// Whether `axis` is the compressed y axis of the polygon.
pub open spec fn is_y_axis(axis: Seq<i32>, poly: Seq<Position>) -> bool {
    &&& strictly_increasing(axis)
    &&& forall|v: i32| axis.contains(v) <==> has_y(poly, v)
}

/// Whether `grid` tells for every point of the compressed grid, by row and
/// column, whether it belongs to the polygon.
pub open spec fn is_validity_grid(
    grid: Seq<Vec<bool>>,
    poly: Seq<Position>,
    xs: Seq<i32>,
    ys: Seq<i32>,
) -> bool {
    &&& grid.len() == ys.len()
    &&& forall|j: int| 0 <= j < grid.len() ==> (#[trigger] grid[j]).len() == xs.len()
    &&& forall|j: int, i: int|
        0 <= j < ys.len() && 0 <= i < xs.len() ==> #[trigger] grid[j][i] == in_polygon(
            Position { x: xs[i], y: ys[j] },
            poly,
        )
}

/// The two compressed axes of the polygon: the distinct x coordinates and the
/// distinct y coordinates of its vertices, each in increasing order.
pub fn compressed_axes(polygon: &Vec<Position>) -> (r: (Vec<i32>, Vec<i32>))
    ensures
        is_x_axis(r.0@, polygon@),
        is_y_axis(r.1@, polygon@),
        r.0.len() <= polygon.len(),
        r.1.len() <= polygon.len(),
{
    let n = polygon.len();
    let mut x_values: Vec<i32> = Vec::new();
    let mut y_values: Vec<i32> = Vec::new();
    let mut k: usize = 0;
    while k < n
        invariant
            n == polygon.len(),
            0 <= k <= n,
            x_values.len() == k,
            y_values.len() == k,
            forall|t: int| 0 <= t < k ==> x_values[t] == polygon[t].x,
            forall|t: int| 0 <= t < k ==> y_values[t] == polygon[t].y,
        decreases n - k,
    {
        x_values.push(polygon[k].x);
        y_values.push(polygon[k].y);
        k += 1;
    }
    let xs = compress(&x_values);
    let ys = compress(&y_values);
    proof {
        assert forall|v: i32| xs@.contains(v) <==> has_x(polygon@, v) by {
            if x_values@.contains(v) {
                let t = choose|t: int| 0 <= t < x_values@.len() && x_values@[t] == v;
                assert(polygon@[t].x == v);
            }
            if has_x(polygon@, v) {
                let t = choose|t: int| 0 <= t < polygon@.len() && (#[trigger] polygon@[t]).x == v;
                assert(x_values@[t] == v);
            }
        }
        assert forall|v: i32| ys@.contains(v) <==> has_y(polygon@, v) by {
            if y_values@.contains(v) {
                let t = choose|t: int| 0 <= t < y_values@.len() && y_values@[t] == v;
                assert(polygon@[t].y == v);
            }
            if has_y(polygon@, v) {
                let t = choose|t: int| 0 <= t < polygon@.len() && (#[trigger] polygon@[t]).y == v;
                assert(y_values@[t] == v);
            }
        }
    }
    (xs, ys)
}

/// Classifies every point of the compressed grid: the cell in row `j` and
/// column `i` tells whether the point `(xs[i], ys[j])` is on the boundary of
/// the polygon or interior to it.
pub fn build_grid(polygon: &Vec<Position>, xs: &Vec<i32>, ys: &Vec<i32>) -> (grid: Vec<Vec<bool>>)
    ensures
        is_validity_grid(grid@, polygon@, xs@, ys@),
{
    let mut cells: Vec<Vec<bool>> = Vec::new();
    let mut j: usize = 0;
    while j < ys.len()
        invariant
            0 <= j <= ys.len(),
            cells.len() == j,
            forall|r: int| 0 <= r < j ==> (#[trigger] cells[r]).len() == xs.len(),
            forall|r: int, c: int|
                0 <= r < j && 0 <= c < xs.len() ==> #[trigger] cells[r][c] == in_polygon(
                    Position { x: xs[c], y: ys[r] },
                    polygon@,
                ),
        decreases ys.len() - j,
    {
        let mut row: Vec<bool> = Vec::new();
        let mut i: usize = 0;
        while i < xs.len()
            invariant
                0 <= i <= xs.len(),
                0 <= j < ys.len(),
                row.len() == i,
                forall|c: int|
                    0 <= c < i ==> #[trigger] row[c] == in_polygon(
                        Position { x: xs[c], y: ys[j as int] },
                        polygon@,
                    ),
            decreases xs.len() - i,
        {
            let pos = Position { x: xs[i], y: ys[j] };
            row.push(is_in_polygon(&pos, polygon));
            i += 1;
        }
        cells.push(row);
        j += 1;
    }
    cells
}

/// What the search for the greatest valid rectangle shares between its
/// candidates: the polygon, its two compressed axes, and for every point of
/// the compressed grid whether it belongs to the polygon. It is built once and
/// only read afterwards.
pub struct ValidityGrid {
    polygon: Vec<Position>,
    xs: Vec<i32>,
    ys: Vec<i32>,
    cells: Vec<Vec<bool>>,
}

impl ValidityGrid {
    #[verifier::type_invariant]
    spec fn wf(&self) -> bool {
        &&& is_x_axis(self.xs@, self.polygon@)
        &&& is_y_axis(self.ys@, self.polygon@)
        &&& is_validity_grid(self.cells@, self.polygon@, self.xs@, self.ys@)
    }

    /// The polygon that the grid was built for.
    pub closed spec fn polygon(&self) -> Seq<Position> {
        self.polygon@
    }

    /// The number of columns: the distinct x coordinates of the vertices.
    pub closed spec fn spec_width(&self) -> nat {
        self.xs@.len()
    }

    /// The number of rows: the distinct y coordinates of the vertices.
    pub closed spec fn spec_height(&self) -> nat {
        self.ys@.len()
    }

    /// Compresses the coordinates of the polygon and classifies every point of
    /// the compressed grid.
    pub fn new(polygon: &Vec<Position>) -> (g: ValidityGrid)
        ensures
            g.polygon() == polygon@,
            g.spec_width() <= polygon.len(),
            g.spec_height() <= polygon.len(),
            is_x_axis(g.xs(), polygon@),
            is_y_axis(g.ys(), polygon@),
    {
        let n = polygon.len();
        let mut own: Vec<Position> = Vec::new();
        let mut k: usize = 0;
        while k < n
            invariant
                n == polygon.len(),
                0 <= k <= n,
                own@ == polygon@.take(k as int),
            decreases n - k,
        {
            own.push(polygon[k]);
            proof {
                assert(polygon@.take(k + 1) == polygon@.take(k as int).push(polygon[k as int]));
            }
            k += 1;
        }
        assert(polygon@.take(n as int) == polygon@);
        let (xs, ys) = compressed_axes(polygon);
        let cells = build_grid(polygon, &xs, &ys);
        ValidityGrid { polygon: own, xs, ys, cells }
    }

    /// The compressed x axis: the distinct x coordinates of the vertices in
    /// increasing order.
    pub closed spec fn xs(&self) -> Seq<i32> {
        self.xs@
    }

    /// The compressed y axis: the distinct y coordinates of the vertices in
    /// increasing order.
    pub closed spec fn ys(&self) -> Seq<i32> {
        self.ys@
    }

    /// The x coordinate of column `col`.
    pub fn x_at(&self, col: usize) -> (x: i32)
        requires
            col < self.spec_width(),
        ensures
            x == self.xs()[col as int],
    {
        self.xs[col]
    }

    /// The y coordinate of row `row`.
    pub fn y_at(&self, row: usize) -> (y: i32)
        requires
            row < self.spec_height(),
        ensures
            y == self.ys()[row as int],
    {
        self.ys[row]
    }

    /// Whether the point of the compressed grid in row `row` and column `col`
    /// belongs to the polygon.
    pub fn is_valid(&self, row: usize, col: usize) -> (r: bool)
        requires
            row < self.spec_height(),
            col < self.spec_width(),
        ensures
            r == in_polygon(
                Position { x: self.xs()[col as int], y: self.ys()[row as int] },
                self.polygon(),
            ),
    {
        proof {
            use_type_invariant(self);
        }
        self.cells[row][col]
    }

    /// The number of columns of the grid.
    pub fn width(&self) -> (w: usize)
        ensures
            w == self.spec_width(),
    {
        self.xs.len()
    }

    /// The number of rows of the grid.
    pub fn height(&self) -> (h: usize)
        ensures
            h == self.spec_height(),
    {
        self.ys.len()
    }

    /// The area of the rectangle between `a` and `b` if it counts under
    /// `GridPoints`: the corners differ in both coordinates, both are points of
    /// the compressed grid, and every grid point in between belongs to the
    /// polygon. The four corners are looked at first.
    pub fn grid_candidate_area(&self, a: &Position, b: &Position) -> (r: Option<u128>)
        ensures
            nat_of_u128(r) == spec_candidate_area(Criterion::GridPoints, self.polygon(), *a, *b),
            r is Some ==> r->Some_0 >= 1,
    {
        proof {
            use_type_invariant(self);
        }
        let ghost poly = self.polygon@;
        if a.x == b.x || a.y == b.y {
            return None;
        }
        let (x_start, x_end) = if a.x < b.x {
            (a.x, b.x)
        } else {
            (b.x, a.x)
        };
        let (y_start, y_end) = if a.y < b.y {
            (a.y, b.y)
        } else {
            (b.y, a.y)
        };
        let cx_start = match search(&self.xs, x_start) {
            Ok(i) => i,
            Err(_) => {
                return None;
            },
        };
        let cx_end = match search(&self.xs, x_end) {
            Ok(i) => i,
            Err(_) => {
                return None;
            },
        };
        let cy_start = match search(&self.ys, y_start) {
            Ok(i) => i,
            Err(_) => {
                return None;
            },
        };
        let cy_end = match search(&self.ys, y_end) {
            Ok(i) => i,
            Err(_) => {
                return None;
            },
        };
        proof {
            assert(self.xs@.contains(x_start) && self.xs@.contains(x_end));
            assert(self.ys@.contains(y_start) && self.ys@.contains(y_end));
            assert(on_compressed_grid(*a, poly) && on_compressed_grid(*b, poly));
        }
        // The four corners decide most candidates at once.
        if !self.cell(cy_start, cx_start, a, b) || !self.cell(cy_start, cx_end, a, b) || !self.cell(
            cy_end,
            cx_start,
            a,
            b,
        ) || !self.cell(cy_end, cx_end, a, b) {
            return None;
        }
        let mut cy: usize = cy_start;
        while cy <= cy_end
            invariant
                self.wf(),
                poly == self.polygon@,
                cx_start < cx_end < self.xs.len(),
                cy_start <= cy <= cy_end + 1,
                cy_end < self.ys.len(),
                self.xs[cx_start as int] == min(a.x as int, b.x as int),
                self.xs[cx_end as int] == max(a.x as int, b.x as int),
                self.ys[cy_start as int] == min(a.y as int, b.y as int),
                self.ys[cy_end as int] == max(a.y as int, b.y as int),
                forall|j: int, i: int|
                    cy_start <= j < cy && cx_start <= i <= cx_end ==> #[trigger] self.cells[j][i],
            decreases cy_end + 1 - cy,
        {
            let mut cx: usize = cx_start;
            while cx <= cx_end
                invariant
                    self.wf(),
                    poly == self.polygon@,
                    cx_start <= cx <= cx_end + 1,
                    cx_end < self.xs.len(),
                    cy_start <= cy <= cy_end < self.ys.len(),
                    self.xs[cx_start as int] == min(a.x as int, b.x as int),
                    self.xs[cx_end as int] == max(a.x as int, b.x as int),
                    self.ys[cy_start as int] == min(a.y as int, b.y as int),
                    self.ys[cy_end as int] == max(a.y as int, b.y as int),
                    forall|i: int| cx_start <= i < cx ==> #[trigger] self.cells[cy as int][i],
                decreases cx_end + 1 - cx,
            {
                if !self.cell(cy, cx, a, b) {
                    return None;
                }
                cx += 1;
            }
            cy += 1;
        }
        proof {
            assert forall|p: Position| #[trigger]
                in_span(p, *a, *b) && on_compressed_grid(p, poly) implies in_polygon(p, poly) by {
                assert(self.xs@.contains(p.x));
                assert(self.ys@.contains(p.y));
                let i = choose|i: int| 0 <= i < self.xs@.len() && self.xs@[i] == p.x;
                let j = choose|j: int| 0 <= j < self.ys@.len() && self.ys@[j] == p.y;
                assert(cx_start <= i <= cx_end);
                assert(cy_start <= j <= cy_end);
                assert(self.cells[j][i]);
                assert(p == Position { x: self.xs[i], y: self.ys[j] });
            }
        }
        Some(area_between(a, b))
    }

    /// The area of the rectangle between `a` and `b` if it counts under the
    /// criterion. Candidates are independent of one another: they may be judged
    /// in any order, or side by side.
    pub fn candidate_area(&self, criterion: Criterion, a: &Position, b: &Position) -> (r: Option<
        u128,
    >)
        ensures
            nat_of_u128(r) == spec_candidate_area(criterion, self.polygon(), *a, *b),
            r is Some ==> r->Some_0 >= 1,
    {
        match criterion {
            Criterion::AnyPair => Some(area_between(a, b)),
            Criterion::GridPoints => self.grid_candidate_area(a, b),
            Criterion::AllPoints => exhaustive_candidate_area(&self.polygon, a, b),
        }
    }

    /// The greatest area among the rectangles that are spanned by two of the
    /// points and count under the criterion, or `None` when no pair counts.
    pub fn best_candidate(&self, criterion: Criterion, points: &Vec<Position>) -> (r: Option<u128>)
        ensures
            is_max_area(criterion, self.polygon(), points@, r),
            r is Some ==> r->Some_0 >= 1,
    {
        let pairs = create_pairs(points);
        let ghost pv = pair_values(pairs@);
        let ghost poly = self.polygon();
        assert(lists_all_pairs(points@, pv));
        let mut best: Option<u128> = None;
        let mut k: usize = 0;
        while k < pairs.len()
            invariant
                0 <= k <= pairs.len(),
                pv == pair_values(pairs@),
                poly == self.polygon(),
                is_best_of_first(criterion, poly, pv, k as int, best),
                best is Some ==> best->Some_0 >= 1,
            decreases pairs.len() - k,
        {
            let candidate = self.candidate_area(criterion, pairs[k].0, pairs[k].1);
            let ghost prev = best;
            best = fold_max(best, candidate);
            proof {
                assert(pv[k as int] == (*pairs[k as int].0, *pairs[k as int].1));
                if prev is Some {
                    let t = choose|t: int|
                        0 <= t < k && accepts(criterion, poly, (#[trigger] pv[t]).0, pv[t].1)
                            && rect_area(pv[t].0, pv[t].1) == prev->Some_0;
                    assert(0 <= t < k + 1);
                }
            }
            k += 1;
        }
        proof {
            lemma_best_pair_is_max(criterion, poly, points@, pv, best);
        }
        best
    }

    /// Whether the grid point in row `row` and column `col` belongs to the
    /// polygon. For a point within the rectangle between `a` and `b`, `false`
    /// rules the rectangle out.
    fn cell(&self, row: usize, col: usize, a: &Position, b: &Position) -> (r: bool)
        requires
            row < self.ys.len(),
            col < self.xs.len(),
            in_span(Position { x: self.xs[col as int], y: self.ys[row as int] }, *a, *b),
        ensures
            r == self.cells[row as int][col as int],
            !r ==> !grid_points_valid(self.polygon@, *a, *b),
    {
        proof {
            use_type_invariant(self);
        }
        let r = self.cells[row][col];
        proof {
            let p = Position { x: self.xs[col as int], y: self.ys[row as int] };
            assert(self.xs@.contains(p.x));
            assert(self.ys@.contains(p.y));
            assert(on_compressed_grid(p, self.polygon@));
            assert(r == in_polygon(p, self.polygon@));
        }
        r
    }
}

/// Whether the point was walked when tracing the perimeter of the polygon.
pub fn is_on_perimeter(point: &Position, polygon: &Vec<Position>) -> (r: bool)
    ensures
        r == on_perimeter(*point, polygon@),
{
    let n = polygon.len();
    let mut i: usize = 0;
    while i < n
        invariant
            n == polygon.len(),
            0 <= i <= n,
            forall|k: int| 0 <= k < i ==> !#[trigger] walked_edge(*point, polygon@, k),
        decreases n - i,
    {
        let s = polygon[i];
        let e = if i + 1 == n {
            polygon[0]
        } else {
            polygon[i + 1]
        };
        let hit = if s.y == e.y {
            let (lo, hi) = if s.x <= e.x {
                (s.x, e.x)
            } else {
                (e.x, s.x)
            };
            point.y == s.y && lo <= point.x && point.x <= hi
        } else {
            let (lo, hi) = if s.y <= e.y {
                (s.y, e.y)
            } else {
                (e.y, s.y)
            };
            point.x == s.x && lo <= point.y && point.y <= hi
        };
        if hit {
            assert(walked_edge(*point, polygon@, i as int));
            return true;
        }
        i += 1;
    }
    false
}

/// Whether the point is on the traced perimeter of the polygon or interior.
pub fn is_covered(point: &Position, polygon: &Vec<Position>) -> (r: bool)
    ensures
        r == covered(*point, polygon@),
{
    is_on_perimeter(point, polygon) || is_inside_polygon(point, polygon)
}

/// The area of the rectangle between `a` and `b` if it counts under
/// `AllPoints`: the corners differ in both coordinates and every lattice point
/// of the rectangle is covered. The four corners are looked at first; the scan
/// of all points takes time in proportion to the area.
pub fn exhaustive_candidate_area(polygon: &Vec<Position>, a: &Position, b: &Position) -> (r:
    Option<u128>)
    ensures
        nat_of_u128(r) == spec_candidate_area(Criterion::AllPoints, polygon@, *a, *b),
        r is Some ==> r->Some_0 >= 1,
{
    if a.x == b.x || a.y == b.y {
        return None;
    }
    let (x_start, x_end) = if a.x < b.x {
        (a.x, b.x)
    } else {
        (b.x, a.x)
    };
    let (y_start, y_end) = if a.y < b.y {
        (a.y, b.y)
    } else {
        (b.y, a.y)
    };
    let corners = [
        Position { x: x_start, y: y_start },
        Position { x: x_end, y: y_start },
        Position { x: x_start, y: y_end },
        Position { x: x_end, y: y_end },
    ];
    let mut c: usize = 0;
    while c < 4
        invariant
            0 <= c <= 4,
            forall|t: int| 0 <= t < 4 ==> in_span(#[trigger] corners[t], *a, *b),
        decreases 4 - c,
    {
        if !is_covered(&corners[c], polygon) {
            return None;
        }
        c += 1;
    }
    let mut x: i64 = x_start as i64;
    while x <= x_end as i64
        invariant
            x_start == min(a.x as int, b.x as int),
            x_end == max(a.x as int, b.x as int),
            y_start == min(a.y as int, b.y as int),
            y_end == max(a.y as int, b.y as int),
            x_start <= x <= x_end + 1,
            forall|p: Position|
                x_start <= p.x < x && y_start <= p.y <= y_end ==> #[trigger] covered(p, polygon@),
        decreases x_end + 1 - x,
    {
        let mut y: i64 = y_start as i64;
        while y <= y_end as i64
            invariant
                x_start == min(a.x as int, b.x as int),
                x_end == max(a.x as int, b.x as int),
                y_start == min(a.y as int, b.y as int),
                y_end == max(a.y as int, b.y as int),
                x_start <= x <= x_end,
                y_start <= y <= y_end + 1,
                forall|p: Position|
                    p.x == x && y_start <= p.y < y ==> #[trigger] covered(p, polygon@),
            decreases y_end + 1 - y,
        {
            let pos = Position { x: x as i32, y: y as i32 };
            if !is_covered(&pos, polygon) {
                assert(in_span(pos, *a, *b));
                return None;
            }
            y += 1;
        }
        x += 1;
    }
    Some(area_between(a, b))
}

/// The greatest area among the rectangles between two vertices of the polygon
/// that differ in both coordinates and whose compressed grid points all belong
/// to the polygon; `None` when there is no such rectangle.
pub fn max_valid_area(polygon: &Vec<Position>) -> (r: Option<u128>)
    ensures
        is_max_area(Criterion::GridPoints, polygon@, polygon@, r),
        r is Some ==> r->Some_0 >= 1,
{
    let grid = ValidityGrid::new(polygon);
    let candidates = distinct_vertices(polygon);
    let best = grid.best_candidate(Criterion::GridPoints, &candidates);
    proof {
        lemma_max_over_distinct(Criterion::GridPoints, polygon@, candidates@, best);
    }
    best
}

/// The greatest area among the rectangles between two vertices of the polygon
/// that differ in both coordinates and whose lattice points are all covered;
/// `None` when there is no such rectangle. Every lattice point of every
/// candidate is looked at.
pub fn max_covered_area(polygon: &Vec<Position>) -> (r: Option<u128>)
    ensures
        is_max_area(Criterion::AllPoints, polygon@, polygon@, r),
        r is Some ==> r->Some_0 >= 1,
{
    let grid = ValidityGrid::new(polygon);
    let candidates = distinct_vertices(polygon);
    let best = grid.best_candidate(Criterion::AllPoints, &candidates);
    proof {
        lemma_max_over_distinct(Criterion::AllPoints, polygon@, candidates@, best);
    }
    best
}

/// The greatest valid area for the polygon whose vertices the text lists in
/// order, one `x,y` per line, judged on the compressed grid; zero when no
/// rectangle is valid, as for fewer than two vertices.
pub fn part2(input: &str) -> (r: Result<u128, PositionError>)
    ensures
        match spec_parse_polygon(input@) {
            Err(e) => r == Err::<u128, PositionError>(e),
            Ok(poly) => r is Ok && is_max_area(
                Criterion::GridPoints,
                poly,
                poly,
                area_found(r->Ok_0),
            ),
        },
{
    match parse_polygon(input) {
        Err(e) => Err(e),
        Ok(polygon) => Ok(area_or_zero(max_valid_area(&polygon))),
    }
}

/// The greatest valid area for the polygon whose vertices the text lists in
/// order, judged on every lattice point of every candidate; zero when no
/// rectangle is valid.
pub fn part2_original(input: &str) -> (r: Result<u128, PositionError>)
    ensures
        match spec_parse_polygon(input@) {
            Err(e) => r == Err::<u128, PositionError>(e),
            Ok(poly) => r is Ok && is_max_area(
                Criterion::AllPoints,
                poly,
                poly,
                area_found(r->Ok_0),
            ),
        },
{
    match parse_polygon(input) {
        Err(e) => Err(e),
        Ok(polygon) => Ok(area_or_zero(max_covered_area(&polygon))),
    }
}

} // verus!
