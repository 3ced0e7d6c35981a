use aoc_2025::day02::{
    add_counted, decimal_digits, is_sequence_repeated, is_sequence_repeated_several, part1, part2,
};

#[test]
fn day02_test_part1_example1() {
    let input = "\
test
input
here";
    let result = part1(input);
    assert_eq!(result, None);
    assert_eq!(result.unwrap_or(0), 0);
}

#[test]
fn day02_test_part1_example2() {
    let input = "\
another
test
case";
    let result = part1(input);
    assert_eq!(result, None);
    assert_eq!(result.unwrap_or(0), 0);
}

#[test]
fn day02_test_part2_example1() {
    let input = "\
part2
test
input";
    let result = part2(input);
    assert_eq!(result, None);
    assert_eq!(result.unwrap_or(0), 0);
}

#[test]
fn day02_test_part2_example2() {
    let input = "\
95-115";
    let result = part2(input);
    assert_eq!(result, Some(99 + 111));
}

#[test]
fn day02_test_part2_edge_case() {
    let input = "\
edge
case
test";
    let result = part2(input);
    assert_eq!(result, None);
    assert_eq!(result.unwrap_or(0), 0);
}

#[test]
fn day02_product_ranges() {
    let input = "11-22,95-115,998-1012,1188511880-1188511890,222220-222224,\
1698522-1698528,446443-446449,38593856-38593862,565653-565659,\
824824821-824824827,2121212118-2121212124";
    assert_eq!(part1(input), Some(1227775554));
    assert_eq!(part2(input), Some(4174379265));
}

#[test]
fn day02_repeated_twice() {
    assert!(is_sequence_repeated("11"));
    assert!(is_sequence_repeated("6464"));
    assert!(is_sequence_repeated("123123"));
    assert!(is_sequence_repeated(""));
    assert!(!is_sequence_repeated("1"));
    assert!(!is_sequence_repeated("111"));
    assert!(!is_sequence_repeated("1231"));
    assert!(!is_sequence_repeated("101"));
    assert!(is_sequence_repeated("éé"));
}

#[test]
fn day02_repeated_several_times() {
    assert!(is_sequence_repeated_several("11"));
    assert!(is_sequence_repeated_several("111"));
    assert!(is_sequence_repeated_several("121212"));
    assert!(is_sequence_repeated_several("123123"));
    assert!(!is_sequence_repeated_several("1"));
    assert!(!is_sequence_repeated_several(""));
    assert!(!is_sequence_repeated_several("1231"));
    assert!(!is_sequence_repeated_several("12312"));
    assert!(!is_sequence_repeated_several("1\n1\n"));
}

#[test]
fn day02_decimal_digits() {
    assert_eq!(decimal_digits(0), vec!['0']);
    assert_eq!(decimal_digits(7), vec!['7']);
    assert_eq!(decimal_digits(1020), vec!['1', '0', '2', '0']);
    let all: String = decimal_digits(usize::MAX).into_iter().collect();
    assert_eq!(all, usize::MAX.to_string());
}

#[test]
fn day02_add_counted() {
    assert_eq!(add_counted(5, 7, true), Some(12));
    assert_eq!(add_counted(5, 7, false), Some(5));
    assert_eq!(add_counted(usize::MAX, 1, true), None);
    assert_eq!(add_counted(usize::MAX, 1, false), Some(usize::MAX));
}

#[test]
fn day02_ranges_as_written() {
    assert_eq!(part1("  11-22\n"), Some(11 + 22));
    assert_eq!(part1("22-11"), Some(0));
    assert_eq!(part1("11-11,11-11"), Some(22));
    assert_eq!(part1("11-22-33"), Some(33));
    assert_eq!(part1("11-22, 33-44"), None);
    assert_eq!(part1("11-22,"), None);
    assert_eq!(part1(""), None);
    assert_eq!(part2("1-22"), Some(11 + 22));
    assert_eq!(part2("110-112"), Some(111));
}

fn repeats(s: &str) -> bool {
    let b = s.as_bytes();
    (1..b.len()).any(|p| b.len() % p == 0 && (0..b.len() - p).all(|i| b[i] == b[i + p]))
}

#[test]
fn day02_regex_means_a_repeated_sequence() {
    for n in (0..3000usize).chain(99_990..101_020).chain(12_121_200..12_121_300) {
        let s = n.to_string();
        assert_eq!(is_sequence_repeated_several(&s), repeats(&s), "{s}");
    }
    for s in ["abab", "ababa", "aaaaaaaaaaaaaaaaaaaa", "aaaaaaaaaaaaaaaaaaab", "xyzxyzxyz", "é", "éé"] {
        assert_eq!(is_sequence_repeated_several(s), repeats(s), "{s}");
    }
    assert!(is_sequence_repeated_several(&usize::MAX.to_string()) == repeats(&usize::MAX.to_string()));
}
