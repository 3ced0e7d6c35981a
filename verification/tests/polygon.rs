use aoc_2025::polygon::{
    edge_crosses_ray, is_in_polygon, is_inside_polygon, is_on_boundary, is_point_on_segment,
};
use aoc_2025::day09::{is_covered, is_on_perimeter};
use aoc_2025::Position;

fn polygon(points: &[(i32, i32)]) -> Vec<Position> {
    points.iter().map(|&(x, y)| Position::new(x, y)).collect()
}

fn example() -> Vec<Position> {
    polygon(&[(7, 1), (11, 1), (11, 7), (9, 7), (9, 5), (2, 5), (2, 3), (7, 3)])
}

#[test]
fn polygon_point_on_segment() {
    let s = Position::new(2, 5);
    let e = Position::new(9, 5);
    assert!(is_point_on_segment(&Position::new(2, 5), s, e));
    assert!(is_point_on_segment(&Position::new(9, 5), s, e));
    assert!(is_point_on_segment(&Position::new(4, 5), e, s));
    assert!(!is_point_on_segment(&Position::new(10, 5), s, e));
    assert!(!is_point_on_segment(&Position::new(1, 5), s, e));
    assert!(!is_point_on_segment(&Position::new(4, 6), s, e));
    // A sloped segment: collinear points in range only.
    let s = Position::new(0, 0);
    let e = Position::new(4, 2);
    assert!(is_point_on_segment(&Position::new(2, 1), s, e));
    assert!(!is_point_on_segment(&Position::new(2, 2), s, e));
    assert!(!is_point_on_segment(&Position::new(6, 3), s, e));
    // A segment of one point.
    assert!(is_point_on_segment(&s, s, s));
    assert!(!is_point_on_segment(&e, s, s));
}

#[test]
fn polygon_point_on_segment_at_the_limits() {
    let s = Position::new(i32::MIN, i32::MIN);
    let e = Position::new(i32::MAX, i32::MAX);
    assert!(is_point_on_segment(&Position::new(0, 0), s, e));
    assert!(is_point_on_segment(&Position::new(-5, -5), e, s));
    assert!(!is_point_on_segment(&Position::new(0, 1), s, e));
    assert!(!is_point_on_segment(&Position::new(i32::MAX, i32::MIN), s, e));
}

#[test]
fn polygon_every_vertex_is_on_the_boundary() {
    let poly = example();
    for (i, v) in poly.iter().enumerate() {
        let next = poly[(i + 1) % poly.len()];
        assert!(is_point_on_segment(v, *v, next));
        assert!(is_on_boundary(v, &poly));
        assert!(is_in_polygon(v, &poly));
    }
}

#[test]
fn polygon_ray_crossing_of_one_edge() {
    let p = Position::new(3, 4);
    // Upper end counts, lower end does not.
    assert!(edge_crosses_ray(&p, &Position::new(5, 0), &Position::new(5, 4)));
    assert!(!edge_crosses_ray(&p, &Position::new(5, 4), &Position::new(5, 9)));
    assert!(edge_crosses_ray(&p, &Position::new(5, 9), &Position::new(5, 3)));
    // Edges to the left of the point or on it.
    assert!(!edge_crosses_ray(&p, &Position::new(3, 0), &Position::new(3, 9)));
    assert!(!edge_crosses_ray(&p, &Position::new(1, 0), &Position::new(1, 9)));
    // Horizontal edges never count.
    assert!(!edge_crosses_ray(&p, &Position::new(0, 4), &Position::new(9, 4)));
    // Interpolation rounds toward zero: the edge from (0,0) to (7,2) meets the
    // level 1 at 3.5, taken as 3.
    assert!(!edge_crosses_ray(&Position::new(3, 1), &Position::new(0, 0), &Position::new(7, 2)));
    assert!(edge_crosses_ray(&Position::new(2, 1), &Position::new(0, 0), &Position::new(7, 2)));
    // From (0,0) to (-7,2) it meets the level 1 at -3.5, taken as -3.
    assert!(edge_crosses_ray(&Position::new(-4, 1), &Position::new(0, 0), &Position::new(-7, 2)));
    assert!(!edge_crosses_ray(&Position::new(-3, 1), &Position::new(0, 0), &Position::new(-7, 2)));
    // Taken from its other end, the same edge meets the level at -7 + 3.
    assert!(!edge_crosses_ray(&Position::new(-4, 1), &Position::new(-7, 2), &Position::new(0, 0)));
    assert!(edge_crosses_ray(&Position::new(-5, 1), &Position::new(-7, 2), &Position::new(0, 0)));
}

#[test]
fn polygon_inside_and_outside() {
    let poly = example();
    for &(x, y) in &[(8, 2), (10, 6), (3, 4), (8, 4), (10, 2)] {
        assert!(is_inside_polygon(&Position::new(x, y), &poly), "({x}, {y})");
        assert!(is_in_polygon(&Position::new(x, y), &poly));
    }
    for &(x, y) in &[(1, 1), (3, 2), (5, 6), (12, 4), (8, 8), (0, 4), (8, 0)] {
        assert!(!is_inside_polygon(&Position::new(x, y), &poly), "({x}, {y})");
        assert!(!is_in_polygon(&Position::new(x, y), &poly));
    }
    assert!(!is_inside_polygon(&Position::new(0, 0), &Vec::new()));
    assert!(!is_in_polygon(&Position::new(0, 0), &Vec::new()));
}

#[test]
fn polygon_boundary_takes_precedence() {
    let poly = example();
    // On the right edge ray casting says outside, on the left edge inside.
    assert!(!is_inside_polygon(&Position::new(11, 4), &poly));
    assert!(is_on_boundary(&Position::new(11, 4), &poly));
    assert!(is_in_polygon(&Position::new(11, 4), &poly));
    assert!(is_on_boundary(&Position::new(2, 4), &poly));
    assert!(is_in_polygon(&Position::new(2, 4), &poly));
    assert!(is_on_boundary(&Position::new(7, 2), &poly));
    assert!(!is_on_boundary(&Position::new(8, 2), &poly));
}

#[test]
fn polygon_closing_vertex_changes_nothing() {
    let open = example();
    let mut closed = example();
    closed.push(closed[0]);
    for x in 0..13 {
        for y in 0..9 {
            let p = Position::new(x, y);
            assert_eq!(is_inside_polygon(&p, &open), is_inside_polygon(&p, &closed));
            assert_eq!(is_on_boundary(&p, &open), is_on_boundary(&p, &closed));
            assert_eq!(is_covered(&p, &open), is_covered(&p, &closed));
        }
    }
}

#[test]
fn polygon_traced_perimeter() {
    let poly = example();
    for x in 0..13 {
        for y in 0..9 {
            let p = Position::new(x, y);
            assert_eq!(is_on_perimeter(&p, &poly), is_on_boundary(&p, &poly));
        }
    }
    // A sloped edge is traced along the column of its start.
    let sloped = polygon(&[(0, 0), (4, 2)]);
    assert!(is_on_perimeter(&Position::new(0, 1), &sloped));
    assert!(is_on_perimeter(&Position::new(4, 1), &sloped));
    assert!(!is_on_perimeter(&Position::new(2, 1), &sloped));
    assert!(is_on_boundary(&Position::new(2, 1), &sloped));
}
