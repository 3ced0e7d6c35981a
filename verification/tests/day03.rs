use aoc_2025::day03::{biggest_nb, biggest_nb_x_sizes, part1, part2};

#[test]
fn day03_test_part1_example1() {
    let input = "\
121128";
    let result = part1(input);
    assert_eq!(result, Some(28));
}

#[test]
fn day03_test_part1_example2() {
    let input = "\
999210";
    let result = part1(input);
    assert_eq!(result, Some(99));
}

#[test]
fn day03_test_part2_example1() {
    let input = "\
811111111111119";
    let result = part2(input);
    assert_eq!(result, Some(811111111119));
}

#[test]
fn day03_test_part2_example2() {
    let input = "\
another
part2
case";
    let result = part2(input);
    assert_eq!(result, None);
    assert_eq!(result.unwrap_or(0), 0);
}

#[test]
fn day03_test_part2_edge_case() {
    let input = "\
edge
case
test";
    let result = part2(input);
    assert_eq!(result, None);
    assert_eq!(result.unwrap_or(0), 0);
}

#[test]
fn day03_biggest_of_a_row() {
    let row: Vec<char> = "987654321111111".chars().collect();
    assert_eq!(biggest_nb_x_sizes(&row, 2), Some(98));
    assert_eq!(biggest_nb_x_sizes(&row, 12), Some(987654321111));
    let row: Vec<char> = "234234234234278".chars().collect();
    assert_eq!(biggest_nb_x_sizes(&row, 2), Some(78));
    assert_eq!(biggest_nb_x_sizes(&row, 12), Some(434234234278));
    assert_eq!(biggest_nb_x_sizes(&row, 15), Some(234234234234278));
}

#[test]
fn day03_rows_that_yield_no_number() {
    let row: Vec<char> = "123".chars().collect();
    assert_eq!(biggest_nb_x_sizes(&row, 0), None);
    assert_eq!(biggest_nb_x_sizes(&row, 4), None);
    let row: Vec<char> = "1a3".chars().collect();
    assert_eq!(biggest_nb_x_sizes(&row, 2), None);
    let row: Vec<char> = "99999999999999999999".chars().collect();
    assert_eq!(biggest_nb_x_sizes(&row, 20), None);
}

#[test]
fn day03_sums_over_rows() {
    assert_eq!(part1("987654321111111\n811111111111119\n234234234234278\n818181911112111"), Some(357));
    assert_eq!(
        part2("987654321111111\n811111111111119\n234234234234278\n818181911112111"),
        Some(3121910778619)
    );
    assert_eq!(part1(""), Some(0));
    assert_eq!(part1("12\n1"), None);
}

#[test]
fn day03_two_digits() {
    for row in ["987654321111111", "811111111111119", "234234234234278", "818181911112111", "19", "91"] {
        let row: Vec<char> = row.chars().collect();
        assert_eq!(biggest_nb(&row), biggest_nb_x_sizes(&row, 2));
    }
    let row: Vec<char> = "811111111111119".chars().collect();
    assert_eq!(biggest_nb(&row), Some(89));
    assert_eq!(biggest_nb(&vec!['5']), Some(55));
    assert_eq!(biggest_nb(&vec![]), None);
    assert_eq!(biggest_nb(&vec!['a', '1']), None);
}
