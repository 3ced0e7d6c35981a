use aoc_2025::day01::{part1, part2, part2_old, turn, Move, MoveError, Rotation};

#[test]
fn day01_test_part1_example1() {
    let input = "\
test
input
here";
    let result = part1(input);
    assert_eq!(result, Err(MoveError::InvalidRotation));
    assert_eq!(result.unwrap_or(0), 0);
}

#[test]
fn day01_test_part1_example2() {
    let input = "\
another
test
case";
    let result = part1(input);
    assert_eq!(result, Err(MoveError::InvalidRotation));
    assert_eq!(result.unwrap_or(0), 0);
}

#[test]
fn day01_test_part2_example1() {
    let input = "\
R1000
L80";
    let result = part2(input);
    assert_eq!(result, Ok(11));
}

#[test]
fn day01_test_part2_example2() {
    let input = "\
R50
R0
L0
R100";
    let result = part2(input);
    assert_eq!(result, Ok(2));
}

#[test]
fn day01_test_part2_edge_case() {
    let input = "\
L50
L49
R99";
    let result = part2(input);
    assert_eq!(result, Ok(2));
}

#[test]
fn day01_part1_counts_stops_at_zero() {
    // 50 -> 0 -> 99 -> 0 -> 0
    assert_eq!(part1("L50\nL1\nR1\nR100"), Ok(3));
    assert_eq!(part1("R49\nL98"), Ok(0));
    assert_eq!(part1(""), Ok(0));
}

#[test]
fn day01_part2_counts_every_click_on_zero() {
    assert_eq!(part2("R50"), Ok(1));
    assert_eq!(part2("R49"), Ok(0));
    assert_eq!(part2("L50\nL100"), Ok(2));
    assert_eq!(part2("L250"), Ok(3));
    assert_eq!(part2(""), Ok(0));
}

#[test]
fn day01_move_from_str() {
    assert_eq!(Move::from_str("L68"), Ok(Move { rotation: Rotation::Left, steps: 68 }));
    assert_eq!(Move::from_str("R+7"), Ok(Move { rotation: Rotation::Right, steps: 7 }));
    assert_eq!(Move::from_str("R4294967295"), Ok(Move { rotation: Rotation::Right, steps: u32::MAX }));
    assert_eq!(Move::from_str(""), Err(MoveError::Empty));
    assert_eq!(Move::from_str("X5"), Err(MoveError::InvalidRotation));
    assert_eq!(Move::from_str("L"), Err(MoveError::InvalidSteps));
    assert_eq!(Move::from_str("L-5"), Err(MoveError::InvalidSteps));
    assert_eq!(Move::from_str("L5x"), Err(MoveError::InvalidSteps));
    assert_eq!(Move::from_str("R4294967296"), Err(MoveError::InvalidSteps));
}

#[test]
fn day01_move_offset() {
    assert_eq!(Move { rotation: Rotation::Left, steps: 68 }.get_offset(), -68);
    assert_eq!(Move { rotation: Rotation::Right, steps: 68 }.get_offset(), 68);
    assert_eq!(Move { rotation: Rotation::Left, steps: u32::MAX }.get_offset(), -4294967295);
}

#[test]
fn day01_first_bad_line_decides() {
    assert_eq!(part1("L5\n\nX3"), Err(MoveError::Empty));
    assert_eq!(part2("L5\nX3\n"), Err(MoveError::InvalidRotation));
    assert_eq!(part2("L5\r\nR5\r\n"), Ok(0));
}

#[test]
fn day01_turning_the_dial() {
    assert_eq!(turn(50, Rotation::Right, 1000), (50, 10));
    assert_eq!(turn(50, Rotation::Left, 80), (70, 1));
    assert_eq!(turn(0, Rotation::Left, 100), (0, 1));
    assert_eq!(turn(0, Rotation::Right, 0), (0, 0));
    assert_eq!(turn(99, Rotation::Right, 1), (0, 1));
}

#[test]
fn day01_hundreds_are_not_clicks() {
    assert_eq!(part2_old("R1000\nL80"), Ok(11));
    // Stopping at 0 from the right is a click within the hundred.
    assert_eq!(part2_old("L35\nL15"), Ok(0));
    assert_eq!(part2("L35\nL15"), Ok(1));
    // Leaving 0 to the left leaves the hundred without a click.
    assert_eq!(part2_old("R50\nL35"), Ok(2));
    assert_eq!(part2("R50\nL35"), Ok(1));
    assert_eq!(part2_old("x"), Err(MoveError::InvalidRotation));
}
