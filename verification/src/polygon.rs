//! Membership of a point in a polygon given by its corner vertices in order.
//!
//! The polygon is closed implicitly: its last edge leads from the final vertex
//! back to the first. All arithmetic is exact.
use crate::position::Position;
use vstd::math::{max, min};
use vstd::prelude::*;

verus! {

/// The vertex that follows the one at `i`, going round the polygon.
pub open spec fn next_vertex(poly: Seq<Position>, i: int) -> Position {
    if i + 1 == poly.len() {
        poly[0]
    } else {
        poly[i + 1]
    }
}

/// The quotient of `a` by `b`, rounded toward zero.
pub open spec fn trunc_div(a: int, b: int) -> int
    recommends
        b != 0,
{
    if a >= 0 && b > 0 {
        a / b
    } else if a < 0 && b < 0 {
        (-a) / (-b)
    } else if a >= 0 {
        -(a / (-b))
    } else {
        -((-a) / b)
    }
}

/// The x coordinate at which the edge from `s` to `e` meets the level `y`, by
/// linear interpolation rounded toward zero. It is exact for vertical edges.
pub open spec fn crossing_x(s: Position, e: Position, y: int) -> int
    recommends
        s.y != e.y,
{
    s.x + trunc_div((e.x - s.x) * (y - s.y), e.y - s.y)
}

/// Whether the horizontal ray from `p` toward greater x crosses the edge from
/// `s` to `e`. The edge counts for the levels above its lower end up to and
/// including its upper end, so that a vertex on the ray is counted once;
/// horizontal edges never count.
pub open spec fn ray_crosses(p: Position, s: Position, e: Position) -> bool {
    &&& min(s.y as int, e.y as int) < p.y <= max(s.y as int, e.y as int)
    &&& s.y != e.y
    &&& crossing_x(s, e, p.y as int) > p.x
}

/// The number of edges among the first `k` that the ray from `p` crosses.
pub open spec fn crossings(p: Position, poly: Seq<Position>, k: int) -> int
    decreases k,
{
    if k <= 0 {
        0
    } else {
        crossings(p, poly, k - 1) + if ray_crosses(p, poly[k - 1], next_vertex(poly, k - 1)) {
            1int
        } else {
            0int
        }
    }
}

/// Ray casting: `p` is interior when its ray crosses an odd number of edges.
/// For points on the boundary the answer carries no meaning.
pub open spec fn inside_polygon(p: Position, poly: Seq<Position>) -> bool {
    crossings(p, poly, poly.len() as int) % 2 == 1
}

/// The cross product of `p - s` and `e - s`; zero when the three are collinear.
pub open spec fn cross_product(p: Position, s: Position, e: Position) -> int {
    (p.y - s.y) * (e.x - s.x) - (p.x - s.x) * (e.y - s.y)
}

/// Whether `p` lies on the segment from `s` to `e`, ends included.
pub open spec fn on_segment(p: Position, s: Position, e: Position) -> bool {
    &&& cross_product(p, s, e) == 0
    &&& min(s.x as int, e.x as int) <= p.x <= max(s.x as int, e.x as int)
    &&& min(s.y as int, e.y as int) <= p.y <= max(s.y as int, e.y as int)
}

/// Whether `p` lies on the edge that starts at vertex `i`.
pub open spec fn on_edge(p: Position, poly: Seq<Position>, i: int) -> bool {
    on_segment(p, poly[i], next_vertex(poly, i))
}

/// Whether `p` lies on some edge of the polygon.
pub open spec fn on_boundary(p: Position, poly: Seq<Position>) -> bool {
    exists|i: int| 0 <= i < poly.len() && #[trigger] on_edge(p, poly, i)
}

/// Whether `p` belongs to the polygon: on its boundary, or interior. The
/// boundary test takes precedence over ray casting.
pub open spec fn in_polygon(p: Position, poly: Seq<Position>) -> bool {
    on_boundary(p, poly) || inside_polygon(p, poly)
}

/// Every vertex of a polygon lies on the edge that starts at it.
pub proof fn lemma_vertex_on_own_edge(poly: Seq<Position>, i: int)
    requires
        0 <= i < poly.len(),
    ensures
        on_segment(poly[i], poly[i], next_vertex(poly, i)),
        on_boundary(poly[i], poly),
{
    let v = poly[i];
    let e = next_vertex(poly, i);
    assert((v.y - v.y) * (e.x - v.x) == 0) by (nonlinear_arith);
    assert((v.x - v.x) * (e.y - v.y) == 0) by (nonlinear_arith);
    assert(on_edge(v, poly, i));
}

/// On a vertical edge the interpolation is exact: the edge meets every level
/// at its own x coordinate.
pub proof fn lemma_crossing_on_vertical_edge(s: Position, e: Position, y: int)
    requires
        s.x == e.x,
        s.y != e.y,
    ensures
        crossing_x(s, e, y) == s.x,
{
    let d = e.y - s.y;
    assert((e.x - s.x) * (y - s.y) == 0) by (nonlinear_arith)
        requires
            e.x - s.x == 0,
    ;
    assert(0int / d == 0 && 0int / (-d) == 0) by (nonlinear_arith)
        requires
            d != 0,
    ;
}

/// A horizontal edge is never crossed, and a vertical edge is crossed by the
/// rays of the points to its left on the levels above its lower end up to its
/// upper end.
pub proof fn lemma_ray_crosses_axis_aligned(p: Position, s: Position, e: Position)
    requires
        s.x == e.x || s.y == e.y,
    ensures
        ray_crosses(p, s, e) == (s.y != e.y && min(s.y as int, e.y as int) < p.y <= max(
            s.y as int,
            e.y as int,
        ) && p.x < s.x),
{
    if s.y != e.y {
        lemma_crossing_on_vertical_edge(s, e, p.y as int);
    }
}

/// The product of two differences of `i32` coordinates.
fn diff_product(a: i32, b: i32, c: i32, d: i32) -> (r: i128)
    ensures
        r == (a - b) * (c - d),
        -0x1_0000_0000_0000_0000 <= r <= 0x1_0000_0000_0000_0000,
{
    let u: i128 = a as i128 - b as i128;
    let v: i128 = c as i128 - d as i128;
    assert(-0x1_0000_0000_0000_0000 <= u * v <= 0x1_0000_0000_0000_0000) by (nonlinear_arith)
        requires
            -0x1_0000_0000 <= u <= 0x1_0000_0000,
            -0x1_0000_0000 <= v <= 0x1_0000_0000,
    ;
    u * v
}

/// Division rounded toward zero.
fn divide_toward_zero(a: i128, b: i128) -> (r: i128)
    requires
        b != 0,
        -0x1_0000_0000_0000_0000 <= a <= 0x1_0000_0000_0000_0000,
        -0x1_0000_0000_0000_0000 <= b <= 0x1_0000_0000_0000_0000,
    ensures
        r == trunc_div(a as int, b as int),
        -0x1_0000_0000_0000_0000 <= r <= 0x1_0000_0000_0000_0000,
{
    let ua: u128 = if a >= 0 {
        a as u128
    } else {
        (-a) as u128
    };
    let ub: u128 = if b >= 0 {
        b as u128
    } else {
        (-b) as u128
    };
    let q: u128 = ua / ub;
    assert(q <= ua) by (nonlinear_arith)
        requires
            q == ua / ub,
            ub >= 1,
    ;
    if (a >= 0) == (b > 0) {
        q as i128
    } else {
        -(q as i128)
    }
}

/// Whether the point lies on the segment from `start` to `end`, ends included.
pub fn is_point_on_segment(point: &Position, start: Position, end: Position) -> (r: bool)
    ensures
        r == on_segment(*point, start, end),
{
    let left = diff_product(point.y, start.y, end.x, start.x);
    let right = diff_product(point.x, start.x, end.y, start.y);
    if left - right != 0 {
        return false;
    }
    let (x_lo, x_hi) = if start.x <= end.x {
        (start.x, end.x)
    } else {
        (end.x, start.x)
    };
    let (y_lo, y_hi) = if start.y <= end.y {
        (start.y, end.y)
    } else {
        (end.y, start.y)
    };
    x_lo <= point.x && point.x <= x_hi && y_lo <= point.y && point.y <= y_hi
}

/// Whether the ray from `pos` toward greater x crosses the edge.
pub fn edge_crosses_ray(pos: &Position, edge_start: &Position, edge_end: &Position) -> (r: bool)
    ensures
        r == ray_crosses(*pos, *edge_start, *edge_end),
{
    let (min_y, max_y) = if edge_start.y <= edge_end.y {
        (edge_start.y, edge_end.y)
    } else {
        (edge_end.y, edge_start.y)
    };
    if !(pos.y > min_y && pos.y <= max_y) {
        return false;
    }
    if edge_start.y == edge_end.y {
        return false;
    }
    let product = diff_product(edge_end.x, edge_start.x, pos.y, edge_start.y);
    let delta_y: i128 = edge_end.y as i128 - edge_start.y as i128;
    let x_intersection: i128 = edge_start.x as i128 + divide_toward_zero(product, delta_y);
    x_intersection > pos.x as i128
}

/// Ray casting: whether the point is interior to the polygon.
pub fn is_inside_polygon(pos: &Position, polygon: &Vec<Position>) -> (r: bool)
    ensures
        r == inside_polygon(*pos, polygon@),
{
    let n = polygon.len();
    let mut odd = false;
    let mut i: usize = 0;
    while i < n
        invariant
            n == polygon.len(),
            0 <= i <= n,
            odd == (crossings(*pos, polygon@, i as int) % 2 == 1),
        decreases n - i,
    {
        let edge_start = &polygon[i];
        let edge_end = if i + 1 == n {
            &polygon[0]
        } else {
            &polygon[i + 1]
        };
        if edge_crosses_ray(pos, edge_start, edge_end) {
            odd = !odd;
        }
        i += 1;
    }
    odd
}

/// Whether the point lies on some edge of the polygon.
pub fn is_on_boundary(point: &Position, polygon: &Vec<Position>) -> (r: bool)
    ensures
        r == on_boundary(*point, polygon@),
{
    let n = polygon.len();
    let mut i: usize = 0;
    while i < n
        invariant
            n == polygon.len(),
            0 <= i <= n,
            forall|k: int| 0 <= k < i ==> !#[trigger] on_edge(*point, polygon@, k),
        decreases n - i,
    {
        let edge_end = if i + 1 == n {
            polygon[0]
        } else {
            polygon[i + 1]
        };
        if is_point_on_segment(point, polygon[i], edge_end) {
            assert(on_edge(*point, polygon@, i as int));
            return true;
        }
        i += 1;
    }
    false
}

/// Whether the point belongs to the polygon: on its boundary, or interior.
pub fn is_in_polygon(point: &Position, polygon: &Vec<Position>) -> (r: bool)
    ensures
        r == in_polygon(*point, polygon@),
{
    is_on_boundary(point, polygon) || is_inside_polygon(point, polygon)
}

} // verus!
