use aoc_2025::day07::{part1, part2};

#[test]
fn day07_test_part1_example1() {
    let input = r#"
^S.
...
.^.
"#.trim();
    let result = part1(input);
    assert_eq!(result, 1);
}

#[test]
fn day07_test_part1_example2() {
    let input = r#"
..S.
....
..^.
.^..
....
"#.trim();
    let result = part1(input);
    assert_eq!(result, 2);
}

#[test]
fn day07_test_part2_example1() {
    let input = r#"
..S.
....
..^.
.^..
....
"#.trim();
    let result = part2(input);
    assert_eq!(result, Some(3));
}

#[test]
fn day07_test_part2_example2() {
    let input = r#"
..S.
....
..^.
.^.^
^...
"#.trim();
    let result = part2(input);
    assert_eq!(result, Some(5));
}

#[test]
fn day07_test_part2_edge_case() {
    let input = r#"
edge
case
test
"#.trim();
    let result = part2(input);
    assert_eq!(result, Some(0));
}

#[test]
fn day07_manifold() {
    let input = "\
.......S.......
...............
.......^.......
...............
......^.^......
...............
.....^.^.^.....
...............
....^.^...^....
...............
...^.^...^.^...
...............
..^...^.....^..
...............
.^.^.^.^.^...^.
...............";
    assert_eq!(part1(input), 21);
    assert_eq!(part2(input), Some(40));
}

#[test]
fn day07_without_splitters_or_start() {
    assert_eq!(part1(""), 0);
    assert_eq!(part2(""), Some(0));
    assert_eq!(part1("...\n.^."), 0);
    assert_eq!(part2("...\n.^."), Some(0));
    assert_eq!(part1("S"), 0);
    assert_eq!(part2("S"), Some(1));
    assert_eq!(part2(".S.\n...\n..."), Some(1));
}

#[test]
fn day07_beams_merge_and_leave_the_grid() {
    // Two beams meet in the middle column: one beam, two paths.
    assert_eq!(part1(".S.\n.^.\n^.^\n.^."), 4);
    assert_eq!(part2(".S.\n.^.\n^.^\n.^."), Some(6));
    // A splitter in the first column sends a beam to the left of the grid.
    assert_eq!(part1("S\n^\n^"), 1);
    assert_eq!(part2("S\n^\n^"), Some(2));
}

#[test]
fn day07_start_is_counted_in_the_whole_text() {
    // The `S` of the second line is the sixth character of the text: the beam
    // starts in the first row, in column 5, outside the grid.
    assert_eq!(part1("....\n.S..\n.^.."), 0);
    assert_eq!(part2("....\n.S..\n.^.."), Some(1));
    // Here it is the third character: the beam starts in column 2.
    assert_eq!(part1(".\nS....\n..^.."), 1);
    assert_eq!(part2(".\nS....\n..^.."), Some(2));
}
