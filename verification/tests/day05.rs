use aoc_2025::day05::{
    merge_ranges, parse_range, part1, part2, sort_ranges, split_blocks, sum_sizes, Range,
};

fn chars(s: &str) -> Vec<char> {
    s.chars().collect()
}

#[test]
fn day05_test_part1_example1() {
    let input = "\
test
input
here";
    let result = part1(input);
    assert_eq!(result, None);
    assert_eq!(result.unwrap_or(0), 0);
}

#[test]
fn day05_test_part1_example2() {
    let input = "\
another
test
case";
    let result = part1(input);
    assert_eq!(result, None);
    assert_eq!(result.unwrap_or(0), 0);
}

#[test]
fn day05_test_part2_example1() {
    let input = "\
part2
test
input";
    let result = part2(input);
    assert_eq!(result, None);
    assert_eq!(result.unwrap_or(0), 0);
}

#[test]
fn day05_test_part2_example2() {
    let input = "\
another
part2
case";
    let result = part2(input);
    assert_eq!(result, None);
    assert_eq!(result.unwrap_or(0), 0);
}

#[test]
fn day05_test_part2_edge_case() {
    let input = "\
edge
case
test";
    let result = part2(input);
    assert_eq!(result, None);
    assert_eq!(result.unwrap_or(0), 0);
}

#[test]
fn day05_fresh_ingredients() {
    let input = "3-5\n10-14\n16-20\n12-18\n\n1\n5\n8\n11\n17\n32";
    assert_eq!(part1(input), Some(3));
    assert_eq!(part2(input), Some(14));
}

#[test]
fn day05_range_methods() {
    let a = Range { start: 3, end: 5 };
    let b = Range { start: 6, end: 9 };
    let c = Range { start: 5, end: 7 };
    let d = Range { start: 8, end: 8 };
    assert!(a.contains(3) && a.contains(5) && !a.contains(2) && !a.contains(6));
    assert!(!a.is_overlapping(&b) && a.is_overlapping(&c) && c.is_overlapping(&a));
    assert!(a.is_adjacent_or_overlapping(&b) && b.is_adjacent_or_overlapping(&a));
    assert!(!a.is_adjacent_or_overlapping(&d) && !d.is_adjacent_or_overlapping(&a));
    assert_eq!(a.merge(&b), Range { start: 3, end: 9 });
    assert_eq!(b.merge(&a), Range { start: 3, end: 9 });
    assert_eq!(a.size(), 3);
    assert_eq!(d.size(), 1);
    let whole = Range { start: 0, end: usize::MAX };
    assert_eq!(whole.size(), usize::MAX as u128 + 1);
    assert!(whole.is_adjacent_or_overlapping(&a) && a.is_adjacent_or_overlapping(&whole));
}

#[test]
fn day05_parse_range() {
    assert_eq!(parse_range(&chars("3-5")), Some(Range { start: 3, end: 5 }));
    assert_eq!(parse_range(&chars("5-3")), Some(Range { start: 5, end: 3 }));
    assert_eq!(parse_range(&chars("1-2-x")), Some(Range { start: 1, end: 2 }));
    assert_eq!(parse_range(&chars("+1-+2")), Some(Range { start: 1, end: 2 }));
    assert_eq!(parse_range(&chars("3")), None);
    assert_eq!(parse_range(&chars("3-")), None);
    assert_eq!(parse_range(&chars("-3")), None);
    assert_eq!(parse_range(&chars(" 3-5")), None);
    assert_eq!(parse_range(&chars("")), None);
}

#[test]
fn day05_blocks() {
    assert_eq!(split_blocks(&chars("a\nb\n\nc\n\nd")), (chars("a\nb"), Some(chars("c"))));
    assert_eq!(split_blocks(&chars("a\nb")), (chars("a\nb"), None));
    assert_eq!(split_blocks(&chars("a\n\n")), (chars("a"), Some(chars(""))));
    assert_eq!(split_blocks(&chars("\n\n\nx")), (chars(""), Some(chars("\nx"))));
    assert_eq!(split_blocks(&chars("")), (chars(""), None));
}

#[test]
fn day05_sort_merge_sum() {
    let ranges = vec![
        Range { start: 10, end: 14 },
        Range { start: 3, end: 5 },
        Range { start: 16, end: 20 },
        Range { start: 12, end: 18 },
        Range { start: 3, end: 4 },
        Range { start: 6, end: 6 },
    ];
    let sorted = sort_ranges(&ranges);
    assert_eq!(
        sorted,
        vec![
            Range { start: 3, end: 4 },
            Range { start: 3, end: 5 },
            Range { start: 6, end: 6 },
            Range { start: 10, end: 14 },
            Range { start: 12, end: 18 },
            Range { start: 16, end: 20 },
        ]
    );
    let merged = merge_ranges(&sorted);
    assert_eq!(merged, vec![Range { start: 3, end: 6 }, Range { start: 10, end: 20 }]);
    assert_eq!(sum_sizes(&merged), Some(15));
    assert_eq!(sum_sizes(&Vec::new()), Some(0));
    assert_eq!(sum_sizes(&vec![Range { start: 5, end: 3 }]), None);
}

#[test]
fn day05_missing_parts() {
    // No second block: the ranges alone can still be counted.
    assert_eq!(part1("3-5"), None);
    assert_eq!(part2("3-5"), Some(3));
    assert_eq!(part1("3-5\n\n"), Some(0));
    assert_eq!(part1("3-5\n\n4\nx"), None);
    assert_eq!(part2("5-3\n\n4"), None);
    assert_eq!(part2(""), Some(0));
    assert_eq!(part1("\n\n7"), Some(0));
}
