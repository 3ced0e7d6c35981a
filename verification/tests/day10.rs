use aoc_2025::day10::{
    add_presses, counter_rows, counter_targets, part1, part2, total_presses, Machine,
};

#[test]
fn day10_test_part1_example1() {
    let input = r#"
[.##.] (3) (1,3) (2) (2,3) (0,2) (0,1) {3,5,4,7}
"#.trim();
    let result = part1(input);
    assert_eq!(result, Some(2));
}

#[test]
fn day10_test_part1_example2() {
    let input =
        r#"
[...#.] (0,2,3,4) (2,3) (0,4) (0,1,2) (1,2,3,4) {7,5,12,7,2}
[.###.#] (0,1,2,3,4) (0,3,4) (0,1,2,4,5) (1,2) {10,11,11,5,10,5}
"#.trim();
    let result = part1(input);
    assert_eq!(result, Some(3 + 2));
}

#[test]
fn day10_test_part2_example1() {
    let input = r#"
[.##.] (3) (1,3) (2) (2,3) (0,2) (0,1) {3,5,4,7}
"#.trim();
    let result = part2(input);
    assert_eq!(result, Some(10));
}

#[test]
fn day10_test_part2_example2() {
    let input = r#"
[...#.] (0,2,3,4) (2,3) (0,4) (0,1,2) (1,2,3,4) {7,5,12,7,2}
"#.trim();
    let result = part2(input);
    assert_eq!(result, Some(12));
}

#[test]
fn day10_test_part2_edge_case() {
    let input = r#"
edge
case
test
"#.trim();
    let result = part2(input);
    assert_eq!(result, None);
    assert_eq!(result.unwrap_or(0), 0);
}

#[test]
fn day10_machine_from_str() {
    let m = Machine::from_str("[.##.] (3) (1,3) (2) (2,3) (0,2) (0,1) {3,5,4,7}").unwrap();
    assert_eq!(m.wanted_lights, 0b0110);
    assert_eq!(m.buttons, vec![0b0001, 0b0101, 0b0010, 0b0011, 0b1010, 0b1100]);
    assert_eq!(m.voltages, vec![3, 5, 4, 7]);
    let m = Machine::from_str("  [#a.]\t(x,0,) 1 {1,+2}").unwrap();
    assert_eq!(m.wanted_lights, 0b10);
    assert_eq!(m.buttons, vec![0b10, 0b01]);
    assert_eq!(m.voltages, vec![1, 2]);
    // A list is read as it stands unless it has both of its brackets.
    let m = Machine::from_str("[#] (0 7").unwrap();
    assert_eq!(m.buttons, vec![0]);
    assert_eq!(m.voltages, vec![7]);
}

#[test]
fn day10_lines_that_are_no_machine() {
    assert!(Machine::from_str("").is_none());
    assert!(Machine::from_str("[.#]").is_none());
    assert!(Machine::from_str("[] {}").is_none());
    assert!(Machine::from_str("[.#] {1}").is_none());
    assert!(Machine::from_str("[.#] {1,2,3}").is_none());
    assert!(Machine::from_str("[.#] (2) {1,2}").is_none());
    assert!(Machine::from_str("[.#] (0) {1,2}").is_some());
    let wide = format!("[{}] {{{}}}", "#".repeat(65), vec!["1"; 65].join(","));
    assert!(Machine::from_str(&wide).is_none());
    assert_eq!(part1("[.#] (0) {1,2}\nnothing"), None);
}

#[test]
fn day10_fewest_presses_for_lights() {
    let m = Machine { wanted_lights: 0b0110, buttons: vec![1, 5, 2, 3, 10, 12], voltages: vec![] };
    assert_eq!(m.compute_xor_button_presses(), Some(2));
    assert_eq!(m.compute_min_presses_for_xor(0), Some(0));
    assert_eq!(m.compute_min_presses_for_xor(1), Some(1));
    assert_eq!(m.compute_min_presses_for_xor(15), Some(2));
    assert_eq!(m.compute_min_presses_for_xor(16), None);
    assert_eq!(m.compute_min_presses_for_xor(65535), None);
    let none = Machine { wanted_lights: 0, buttons: vec![], voltages: vec![] };
    assert_eq!(none.compute_min_presses_for_xor(0), Some(0));
    assert_eq!(none.compute_min_presses_for_xor(3), None);
    // Patterns beyond the table are passed over.
    let big = Machine { wanted_lights: 1, buttons: vec![65536, 65537, 1 << 20], voltages: vec![] };
    assert_eq!(big.compute_xor_button_presses(), None);
    // Lights that no button shows add nothing to the sum.
    assert_eq!(part1("[#.] (1) {1,2}\n[#.] (0) {1,2}"), Some(1));
    let far = format!("[{}#] (0) {{{}}}", "#".repeat(16), vec!["1"; 17].join(","));
    assert_eq!(part1(&far), None);
}

#[test]
fn day10_rows_of_counters() {
    let m = Machine::from_str("[.##.] (3) (1,3) (2) (2,3) (0,2) (0,1) {3,5,4,7}").unwrap();
    assert_eq!(
        counter_rows(&m),
        Some(vec![vec![4, 5], vec![1, 5], vec![2, 3, 4], vec![0, 1, 3]])
    );
    assert_eq!(counter_targets(&m.voltages), vec![3, 5, 4, 7]);
    assert_eq!(counter_targets(&vec![0, (1 << 32) + 5, usize::MAX]), vec![0, 5, -1]);
    let none = Machine { wanted_lights: 0, buttons: vec![], voltages: vec![1, 2] };
    assert_eq!(counter_rows(&none), Some(vec![vec![], vec![]]));
}

#[test]
fn day10_presses_for_joltages() {
    let m = Machine::from_str("[.##.] (3) (1,3) (2) (2,3) (0,2) (0,1) {3,5,4,7}").unwrap();
    let presses = m.compute_sum_button_presses().unwrap();
    assert_eq!(presses.len(), 6);
    assert_eq!(total_presses(&presses), 10);
    let rows = counter_rows(&m).unwrap();
    for (row, target) in rows.iter().zip(&m.voltages) {
        assert_eq!(row.iter().map(|&j| presses[j]).sum::<usize>(), *target);
    }
    let stuck = Machine::from_str("[##] (0) (0) {1,1}").unwrap();
    assert_eq!(stuck.compute_sum_button_presses(), None);
    assert_eq!(part2("[##] (0) (0) {1,1}\n[##] (0,1) {4,4}"), Some(4));
}

#[test]
fn day10_summing_presses() {
    assert_eq!(total_presses(&vec![]), 0);
    assert_eq!(total_presses(&vec![1, 0, 3]), 4);
    assert_eq!(total_presses(&vec![usize::MAX, usize::MAX]), 2 * (usize::MAX as u128));
    assert_eq!(add_presses(5, &None), Some(5));
    assert_eq!(add_presses(5, &Some(vec![1, 2])), Some(8));
    assert_eq!(add_presses(u128::MAX, &Some(vec![1])), None);
    assert_eq!(add_presses(u128::MAX, &Some(vec![0])), Some(u128::MAX));
}
