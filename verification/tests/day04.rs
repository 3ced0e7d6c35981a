use aoc_2025::day04::{part1, part2};

#[test]
fn day04_test_part1_example1() {
    let input = "\
@.@
.@.
@.@";
    let result = part1(input);
    assert_eq!(result, Some(4));
}

#[test]
fn day04_test_part1_example2() {
    let input = "\
@@@
@@@
@@@";
    let result = part1(input);
    assert_eq!(result, Some(4));
}

#[test]
fn day04_test_part2_example1() {
    let input = "\
part2
test
input";
    let result = part2(input);
    assert_eq!(result, Some(0));
}

#[test]
fn day04_test_part2_example2() {
    let input = "\
another
part2
case";
    let result = part2(input);
    assert_eq!(result, Some(0));
}

#[test]
fn day04_test_part2_edge_case() {
    let input = "\
edge
case
test";
    let result = part2(input);
    assert_eq!(result, Some(0));
}

#[test]
fn day04_rounds_until_nothing_is_taken() {
    let input = "\
..@@.@@@@.
@@@.@.@.@@
@@@@@.@.@@
@.@@@@..@.
@@.@@@@.@@
.@@@@@@@.@
.@.@.@.@@@
@.@@@.@@@@
.@@@@@@@@.
@.@.@@@.@.";
    assert_eq!(part1(input), Some(13));
    assert_eq!(part2(input), Some(43));
}

#[test]
fn day04_full_square_is_taken_in_two_rounds() {
    assert_eq!(part2("@@@\n@@@\n@@@"), Some(9));
    assert_eq!(part2("@"), Some(1));
    assert_eq!(part1("."), Some(0));
}

#[test]
fn day04_no_grid_no_answer() {
    assert_eq!(part1(""), None);
    assert_eq!(part2(""), None);
}

#[test]
fn day04_rolls_outside_the_stored_cells() {
    // The second row is shorter than the first: the cell south-east of the
    // first roll is in the grid but not in the data.
    assert_eq!(part1("@@@\n@"), None);
    // An empty first line leaves no column to place a roll in.
    assert_eq!(part1("\n@"), None);
    // A roll beyond the last row cannot be taken away.
    assert_eq!(part1("@\n@@@@"), Some(5));
    assert_eq!(part2("@\n@@@@"), None);
}
