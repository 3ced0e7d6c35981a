use aoc_2025::day09::{
    area_between, build_grid, compressed_axes, distinct_vertices, exhaustive_candidate_area,
    is_covered, largest_pair_area, max_covered_area, max_valid_area, parse_polygon, part1, part2,
    part2_original, Criterion, Rectangle, ValidityGrid,
};
use aoc_2025::polygon::is_in_polygon;
use aoc_2025::{create_pairs, Position, PositionError};

fn polygon(points: &[(i32, i32)]) -> Vec<Position> {
    points.iter().map(|&(x, y)| Position::new(x, y)).collect()
}

#[test]
fn day09_test_part1_example1() {
    let input = r#"
2,5
11,1
"#.trim();
    let result = part1(input);
    assert_eq!(result, Ok(50));
}

#[test]
fn day09_test_part1_example2() {
    let input = r#"
another
test
case
"#.trim();
    let result = part1(input);
    assert_eq!(result, Err(PositionError::FieldCount));
    assert_eq!(result.unwrap_or(0), 0);
}

#[test]
fn day09_test_part2_example1() {
    let input = r#"
7,1
11,1
11,7
9,7
9,5
2,5
2,3
7,3
"#.trim();
    let result = part2(input);
    assert_eq!(result, Ok(24));
}

#[test]
fn day09_test_part2_example2() {
    let input = r#"
another
part2
case
"#.trim();
    let result = part2(input);
    assert_eq!(result, Err(PositionError::FieldCount));
    assert_eq!(result.unwrap_or(0), 0);
}

#[test]
fn day09_test_part2_edge_case() {
    let input = r#"
edge
case
test
"#.trim();
    let result = part2(input);
    assert_eq!(result, Err(PositionError::FieldCount));
    assert_eq!(result.unwrap_or(0), 0);
}

#[test]
fn day09_example_polygon_both_ways() {
    let input = "7,1\n11,1\n11,7\n9,7\n9,5\n2,5\n2,3\n7,3";
    assert_eq!(part1(input), Ok(50));
    assert_eq!(part2(input), Ok(24));
    assert_eq!(part2_original(input), Ok(24));
}

#[test]
fn day09_fewer_than_two_points() {
    assert_eq!(part1(""), Ok(0));
    assert_eq!(part1("3,4"), Ok(0));
    assert_eq!(part2(""), Ok(0));
    assert_eq!(part2("3,4"), Ok(0));
    assert_eq!(part2_original(""), Ok(0));
    assert_eq!(part2_original("3,4"), Ok(0));
    assert_eq!(largest_pair_area(&Vec::new()), None);
    assert_eq!(max_valid_area(&Vec::new()), None);
    assert_eq!(max_covered_area(&polygon(&[(3, 4)])), None);
}

#[test]
fn day09_rectangle_polygon_is_its_own_answer() {
    let square = polygon(&[(1, 1), (5, 1), (5, 4), (1, 4)]);
    assert_eq!(max_valid_area(&square), Some(20));
    assert_eq!(max_covered_area(&square), Some(20));
    assert_eq!(part2("1,1\n5,1\n5,4\n1,4"), Ok(20));
    assert_eq!(part2("-3,-2\n-3,2\n3,2\n3,-2"), Ok(35));
}

#[test]
fn day09_polygon_on_a_line_has_no_rectangle() {
    assert_eq!(part2("1,1\n5,1\n9,1"), Ok(0));
    assert_eq!(part2_original("1,1\n1,5"), Ok(0));
    // The baseline counts the degenerate rectangle of width one.
    assert_eq!(part1("1,1\n1,5"), Ok(5));
    assert_eq!(part1("1,1\n1,1"), Ok(1));
}

#[test]
fn day09_area_formula() {
    assert_eq!(area_between(&Position::new(2, 5), &Position::new(11, 1)), 50);
    assert_eq!(area_between(&Position::new(11, 1), &Position::new(2, 5)), 50);
    assert_eq!(area_between(&Position::new(0, 0), &Position::new(0, 0)), 1);
    let r = Rectangle { corners: (Position::new(-1, -1), Position::new(1, 2)) };
    assert_eq!(r.get_area(), 12);
    let whole = Rectangle {
        corners: (Position::new(i32::MIN, i32::MIN), Position::new(i32::MAX, i32::MAX)),
    };
    assert_eq!(whole.get_area(), 1u128 << 64);
}

#[test]
fn day09_candidates_on_the_example() {
    let poly = polygon(&[(7, 1), (11, 1), (11, 7), (9, 7), (9, 5), (2, 5), (2, 3), (7, 3)]);
    let grid = ValidityGrid::new(&poly);
    assert_eq!(grid.width(), 4);
    assert_eq!(grid.height(), 4);
    let a = Position::new(9, 5);
    let b = Position::new(2, 3);
    assert_eq!(grid.candidate_area(Criterion::GridPoints, &a, &b), Some(24));
    assert_eq!(grid.candidate_area(Criterion::AllPoints, &a, &b), Some(24));
    assert_eq!(grid.candidate_area(Criterion::AnyPair, &a, &b), Some(24));
    // (2,5) to (11,1) leaves the polygon at its lower left.
    let a = Position::new(2, 5);
    let b = Position::new(11, 1);
    assert_eq!(grid.candidate_area(Criterion::GridPoints, &a, &b), None);
    assert_eq!(grid.candidate_area(Criterion::AllPoints, &a, &b), None);
    assert_eq!(grid.candidate_area(Criterion::AnyPair, &a, &b), Some(50));
    assert_eq!(exhaustive_candidate_area(&poly, &a, &b), None);
}

#[test]
fn day09_degenerate_pairs_never_count() {
    let poly = polygon(&[(1, 1), (5, 1), (5, 4), (1, 4)]);
    let grid = ValidityGrid::new(&poly);
    // Both pairs lie on one edge of the polygon, entirely inside it.
    let a = Position::new(1, 1);
    let b = Position::new(5, 1);
    assert_eq!(grid.candidate_area(Criterion::GridPoints, &a, &b), None);
    assert_eq!(grid.candidate_area(Criterion::AllPoints, &a, &b), None);
    let c = Position::new(1, 4);
    assert_eq!(grid.candidate_area(Criterion::GridPoints, &a, &c), None);
    assert_eq!(grid.candidate_area(Criterion::AllPoints, &a, &c), None);
    assert_eq!(grid.candidate_area(Criterion::GridPoints, &a, &a), None);
}

#[test]
fn day09_corner_off_the_compressed_grid() {
    let poly = polygon(&[(1, 1), (5, 1), (5, 4), (1, 4)]);
    let grid = ValidityGrid::new(&poly);
    let a = Position::new(1, 1);
    let inner = Position::new(3, 3);
    assert_eq!(grid.candidate_area(Criterion::GridPoints, &a, &inner), None);
    assert_eq!(grid.candidate_area(Criterion::AllPoints, &a, &inner), Some(9));
}

#[test]
fn day09_search_is_repeatable() {
    let poly = polygon(&[(7, 1), (11, 1), (11, 7), (9, 7), (9, 5), (2, 5), (2, 3), (7, 3)]);
    assert_eq!(max_valid_area(&poly), max_valid_area(&poly));
    assert_eq!(max_valid_area(&poly), Some(24));
    let grid = ValidityGrid::new(&poly);
    let verts = distinct_vertices(&poly);
    let best = create_pairs(&verts)
        .into_iter()
        .filter_map(|(a, b)| grid.candidate_area(Criterion::GridPoints, a, b))
        .max();
    assert_eq!(best, Some(24));
    assert_eq!(grid.best_candidate(Criterion::GridPoints, &verts), Some(24));
}

#[test]
fn day09_found_rectangles_never_exceed_the_maximum() {
    let poly = polygon(&[(7, 1), (11, 1), (11, 7), (9, 7), (9, 5), (2, 5), (2, 3), (7, 3)]);
    let grid = ValidityGrid::new(&poly);
    let best = max_valid_area(&poly).unwrap();
    for a in &poly {
        for b in &poly {
            if let Some(area) = grid.candidate_area(Criterion::GridPoints, a, b) {
                assert!(area <= best);
            }
        }
    }
}

#[test]
fn day09_notch_between_grid_lines() {
    // A polygon in the shape of a U. The rectangle over the whole of it has
    // only vertices and edge points on its compressed grid, yet the notch
    // between the two arms is outside.
    let u = polygon(&[(0, 0), (10, 0), (10, 10), (7, 10), (7, 3), (3, 3), (3, 10), (0, 10)]);
    assert_eq!(max_valid_area(&u), Some(121));
    assert_eq!(max_covered_area(&u), Some(44));
}

#[test]
fn day09_repeated_vertices() {
    let poly = polygon(&[(1, 1), (5, 1), (5, 1), (5, 4), (1, 4), (1, 1)]);
    assert_eq!(distinct_vertices(&poly), polygon(&[(1, 1), (5, 1), (5, 4), (1, 4)]));
    assert_eq!(max_valid_area(&poly), Some(20));
}

#[test]
fn day09_parse_polygon() {
    assert_eq!(parse_polygon("7,1\n11,1"), Ok(polygon(&[(7, 1), (11, 1)])));
    assert_eq!(parse_polygon(" -7 , +1 \r\n11,1\n"), Ok(polygon(&[(-7, 1), (11, 1)])));
    assert_eq!(parse_polygon(""), Ok(Vec::new()));
    assert_eq!(parse_polygon("7,1\n\n11,1"), Err(PositionError::FieldCount));
    assert_eq!(parse_polygon("7,1\n1,2,3"), Err(PositionError::FieldCount));
    assert_eq!(parse_polygon("7,x\n1"), Err(PositionError::Coordinate));
    assert_eq!(parse_polygon("7,1\n2147483648,1"), Err(PositionError::Coordinate));
}

#[test]
fn day09_accepted_rectangles_lie_within_the_polygon() {
    let poly = polygon(&[(7, 1), (11, 1), (11, 7), (9, 7), (9, 5), (2, 5), (2, 3), (7, 3)]);
    let grid = ValidityGrid::new(&poly);
    let mut accepted = 0;
    for a in &poly {
        for b in &poly {
            if grid.candidate_area(Criterion::AllPoints, a, b).is_none() {
                continue;
            }
            accepted += 1;
            for x in a.x.min(b.x)..=a.x.max(b.x) {
                for y in a.y.min(b.y)..=a.y.max(b.y) {
                    let p = Position::new(x, y);
                    assert!(is_covered(&p, &poly));
                    assert!(is_in_polygon(&p, &poly));
                }
            }
            // On this polygon the compressed grid judges alike.
            assert!(grid.candidate_area(Criterion::GridPoints, a, b).is_some());
        }
    }
    assert_eq!(accepted, 2 * 8);
}

#[test]
fn day09_compressed_axes_and_grid() {
    let poly = polygon(&[(7, 1), (11, 1), (11, 7), (9, 7), (9, 5), (2, 5), (2, 3), (7, 3)]);
    let (xs, ys) = compressed_axes(&poly);
    assert_eq!(xs, vec![2, 7, 9, 11]);
    assert_eq!(ys, vec![1, 3, 5, 7]);
    let cells = build_grid(&poly, &xs, &ys);
    assert_eq!(
        cells,
        vec![
            vec![false, true, true, true],
            vec![true, true, true, true],
            vec![true, true, true, true],
            vec![false, false, true, true],
        ]
    );
    let grid = ValidityGrid::new(&poly);
    for row in 0..grid.height() {
        for col in 0..grid.width() {
            assert_eq!(grid.is_valid(row, col), cells[row][col]);
            assert_eq!((grid.x_at(col), grid.y_at(row)), (xs[col], ys[row]));
        }
    }
    // The size of the grid goes by the number of vertices, not by their
    // coordinates.
    let wide = polygon(&[(i32::MIN, i32::MIN), (i32::MAX, i32::MIN), (i32::MAX, i32::MAX), (i32::MIN, i32::MAX)]);
    let grid = ValidityGrid::new(&wide);
    assert_eq!((grid.width(), grid.height()), (2, 2));
    assert_eq!(max_valid_area(&wide), Some(1u128 << 64));
    assert_eq!(compressed_axes(&Vec::new()), (vec![], vec![]));
}
