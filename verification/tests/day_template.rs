use aoc_2025::day_template::{part1, part2};

#[test]
fn day_template_test_part1_example1() {
    let input = r#"
test
input
here
"#.trim();
    let result = part1(input);
    assert_eq!(result, 0);
}

#[test]
fn day_template_test_part1_example2() {
    let input = r#"
another
test
case
"#.trim();
    let result = part1(input);
    assert_eq!(result, 0);
}

#[test]
fn day_template_test_part2_example1() {
    let input = r#"
part2
test
input
"#.trim();
    let result = part2(input);
    assert_eq!(result, 0);
}

#[test]
fn day_template_test_part2_example2() {
    let input = r#"
another
part2
case
"#.trim();
    let result = part2(input);
    assert_eq!(result, 0);
}

#[test]
fn day_template_test_part2_edge_case() {
    let input = r#"
edge
case
test
"#.trim();
    let result = part2(input);
    assert_eq!(result, 0);
}
