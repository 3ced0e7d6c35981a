use aoc_2025::create_pairs;
use aoc_2025::day08::{
    connect, count_boxes, largest_circuits, last_connection, position, product_of_sizes,
    read_coordinates, Coordinate, CoordinateError,
};

fn euclidean_distance(a: &Coordinate, b: &Coordinate) -> f64 {
    let dx = (a.x - b.x) as f64;
    let dy = (a.y - b.y) as f64;
    let dz = (a.z - b.z) as f64;
    (dx * dx + dy * dy + dz * dz).sqrt()
}

fn by_distance(coordinates: &Vec<Coordinate>) -> Vec<(&Coordinate, &Coordinate)> {
    let mut sorted = create_pairs(coordinates);
    sorted.sort_by(|(a, b), (c, d)| {
        let dist1 = euclidean_distance(a, b);
        let dist2 = euclidean_distance(c, d);
        dist1.partial_cmp(&dist2).unwrap()
    });
    sorted
}

fn part1(input: &str) -> Result<Option<usize>, CoordinateError> {
    let coordinates = read_coordinates(input)?;
    Ok(largest_circuits(&by_distance(&coordinates), 1000))
}

fn part2(input: &str) -> Result<Option<u64>, CoordinateError> {
    let coordinates = read_coordinates(input)?;
    Ok(last_connection(&by_distance(&coordinates), coordinates.len()))
}

fn c(x: i32, y: i32, z: i32) -> Coordinate {
    Coordinate { x, y, z }
}

const BOXES: &str = "\
162,817,812
57,618,57
906,360,560
592,479,940
352,342,300
466,668,158
542,29,236
431,825,988
739,650,466
52,470,668
216,146,977
819,987,18
117,168,530
805,96,715
346,949,466
970,615,88
941,993,340
862,61,35
984,92,344
425,690,689";

#[test]
fn day08_test_part1_example1() {
    let input = r#"
162,817,812
425,690,689
"#.trim();
    let result = part1(input);
    assert_eq!(result, Ok(Some(2 * 1 * 1)));
}

#[test]
fn day08_test_part1_example2() {
    let input = r#"
162,817,812
425,690,689
431,825,988
906,360,560
805,96,715
"#.trim();
    let result = part1(input);
    // Five boxes have ten pairs; with all of them connected there is one
    // circuit of five.
    assert_eq!(result, Ok(Some(5)));
}

#[test]
fn day08_test_part2_example1() {
    let input = r#"
part2
test
input
"#.trim();
    let result = part2(input);
    assert_eq!(result, Err(CoordinateError::Format));
    assert_eq!(result.unwrap_or(Some(0)), Some(0));
}

#[test]
fn day08_test_part2_example2() {
    let input = r#"
another
part2
case
"#.trim();
    let result = part2(input);
    assert_eq!(result, Err(CoordinateError::Format));
    assert_eq!(result.unwrap_or(Some(0)), Some(0));
}

#[test]
fn day08_test_part2_edge_case() {
    let input = r#"
edge
case
test
"#.trim();
    let result = part2(input);
    assert_eq!(result, Err(CoordinateError::Format));
    assert_eq!(result.unwrap_or(Some(0)), Some(0));
}

#[test]
fn day08_twenty_boxes() {
    let coordinates = read_coordinates(BOXES).unwrap();
    let pairs = by_distance(&coordinates);
    assert_eq!(largest_circuits(&pairs, 10), Some(5 * 4 * 2));
    assert_eq!(last_connection(&pairs, coordinates.len()), Some(216 * 117));
    assert_eq!(part2(BOXES), Ok(Some(25272)));
}

#[test]
fn day08_squared_distance_orders_like_distance() {
    let coordinates = read_coordinates(BOXES).unwrap();
    let pairs = by_distance(&coordinates);
    for w in pairs.windows(2) {
        assert!(w[0].0.squared_distance(w[0].1) <= w[1].0.squared_distance(w[1].1));
    }
    assert_eq!(c(0, 0, 0).squared_distance(&c(1, 2, 3)), 14);
    assert_eq!(c(1, 2, 3).squared_distance(&c(1, 2, 3)), 0);
    assert_eq!(
        c(i32::MIN, i32::MIN, i32::MIN).squared_distance(&c(i32::MAX, i32::MAX, i32::MAX)),
        3 * (u32::MAX as u128) * (u32::MAX as u128)
    );
}

#[test]
fn day08_coordinate_from_str() {
    assert_eq!(Coordinate::from_str("162,817,812"), Ok(c(162, 817, 812)));
    assert_eq!(Coordinate::from_str("  -1,+2,3 \n"), Ok(c(-1, 2, 3)));
    assert_eq!(Coordinate::from_str("1,2"), Err(CoordinateError::Format));
    assert_eq!(Coordinate::from_str("1,2,3,4"), Err(CoordinateError::Format));
    assert_eq!(Coordinate::from_str(""), Err(CoordinateError::Format));
    assert_eq!(Coordinate::from_str("x,y,z"), Err(CoordinateError::X));
    assert_eq!(Coordinate::from_str("1, 2,3"), Err(CoordinateError::Y));
    assert_eq!(Coordinate::from_str("1,2,"), Err(CoordinateError::Z));
    assert_eq!(Coordinate::from_str("1,2,2147483648"), Err(CoordinateError::Z));
    assert_eq!(read_coordinates("1,2,3\n4,5\nx,y,z"), Err(CoordinateError::Format));
    assert_eq!(read_coordinates(""), Ok(Vec::new()));
}

#[test]
fn day08_connecting_boxes() {
    let (p, q, r, s) = (c(1, 0, 0), c(2, 0, 0), c(3, 0, 0), c(4, 0, 0));
    let mut circuits: Vec<Vec<Coordinate>> = Vec::new();
    connect(&mut circuits, &p, &q);
    assert_eq!(circuits, vec![vec![p, q]]);
    connect(&mut circuits, &r, &s);
    assert_eq!(circuits, vec![vec![p, q], vec![r, s]]);
    connect(&mut circuits, &p, &q);
    assert_eq!(circuits, vec![vec![p, q], vec![r, s]]);
    assert_eq!(position(&circuits, &s), Some(1));
    assert_eq!(position(&circuits, &c(9, 9, 9)), None);
    connect(&mut circuits, &s, &q);
    assert_eq!(circuits, vec![vec![], vec![r, s, p, q]]);
    connect(&mut circuits, &c(5, 0, 0), &p);
    assert_eq!(circuits, vec![vec![], vec![r, s, p, q, c(5, 0, 0)]]);
    connect(&mut circuits, &q, &c(6, 0, 0));
    assert_eq!(count_boxes(&circuits), Some(6));
    connect(&mut circuits, &c(7, 0, 0), &c(7, 0, 0));
    assert_eq!(circuits[2], vec![c(7, 0, 0)]);
    assert_eq!(count_boxes(&circuits), Some(7));
}

#[test]
fn day08_product_of_the_largest() {
    let a = c(0, 0, 0);
    let circuits = vec![vec![a; 2], vec![], vec![a; 5], vec![a; 3], vec![a; 5], vec![a; 1]];
    assert_eq!(product_of_sizes(&circuits, 3), Some(75));
    assert_eq!(product_of_sizes(&circuits, 1), Some(5));
    assert_eq!(product_of_sizes(&circuits, 0), Some(1));
    assert_eq!(product_of_sizes(&circuits, 9), Some(2 * 5 * 3 * 5));
    assert_eq!(product_of_sizes(&vec![vec![], vec![a]], 3), Some(1));
    assert_eq!(product_of_sizes(&Vec::new(), 3), Some(1));
}

#[test]
fn day08_last_connection() {
    let boxes = vec![c(1, 0, 0), c(2, 0, 0), c(10, 0, 0), c(11, 0, 0)];
    let pairs = by_distance(&boxes);
    // The two close pairs already hold all four boxes.
    assert_eq!(last_connection(&pairs, 4), Some(110));
    assert_eq!(last_connection(&pairs, 5), Some(0));
    assert_eq!(last_connection(&Vec::new(), 0), Some(0));
    let boxes = vec![c(-1, 0, 0), c(2, 0, 0)];
    assert_eq!(last_connection(&by_distance(&boxes), 2), None);
    // A box that is listed twice is one box in the circuits.
    let boxes = vec![c(1, 0, 0), c(1, 0, 0), c(3, 0, 0)];
    assert_eq!(last_connection(&by_distance(&boxes), 3), Some(0));
    assert_eq!(largest_circuits(&by_distance(&boxes), 1000), Some(2));
}
