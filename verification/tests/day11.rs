use aoc_2025::day11::{part1, part2, DAG};

fn chars(s: &str) -> Vec<char> {
    s.chars().collect()
}

#[test]
fn day11_test_part1_example1() {
    let input = r#"
you: out
"#.trim();
    let result = part1(input);
    assert_eq!(result, Some(1));
}

#[test]
fn day11_test_part1_example2() {
    let input = r#"
another
test
case
"#.trim();
    let result = part1(input);
    assert_eq!(result, None);
    assert_eq!(result.unwrap_or(0), 0);
}

#[test]
fn day11_test_part2_example1() {
    let input =
        r#"
svr: aaa bbb
aaa: fft
fft: ccc
bbb: tty
tty: ccc
ccc: ddd eee
ddd: hub
hub: fff
eee: dac
dac: fff
fff: ggg hhh
ggg: out
hhh: out
"#.trim();
    let result = part2(input);
    assert_eq!(result, Some(2));
}

#[test]
fn day11_test_part2_example2() {
    let input = r#"
another
part2
case
"#.trim();
    let result = part2(input);
    assert_eq!(result, None);
    assert_eq!(result.unwrap_or(0), 0);
}

#[test]
fn day11_test_part2_edge_case() {
    let input = r#"
edge
case
test
"#.trim();
    let result = part2(input);
    assert_eq!(result, None);
    assert_eq!(result.unwrap_or(0), 0);
}

#[test]
fn day11_paths_from_you_to_out() {
    let input = "\
aaa: you hhh
you: bbb ccc
bbb: ddd eee
ccc: ddd eee fff
ddd: ggg
eee: out
fff: out
ggg: out
hhh: ccc fff iii
iii: out";
    assert_eq!(part1(input), Some(5));
}

#[test]
fn day11_devices_in_order_of_first_mention() {
    let mut dag = DAG::new();
    assert_eq!(dag.node_count(), 0);
    assert_eq!(dag.get_or_create_node(&chars("a")), 0);
    assert_eq!(dag.get_or_create_node(&chars("b")), 1);
    assert_eq!(dag.get_or_create_node(&chars("a")), 0);
    dag.add_edges(&chars("c"), &vec![chars("a"), chars("d"), chars("a")]);
    assert_eq!(dag.node_count(), 4);
    assert_eq!(dag.find(&chars("c")), Some(2));
    assert_eq!(dag.find(&chars("d")), Some(3));
    assert_eq!(dag.find(&chars("e")), None);
    assert_eq!(dag._successors(2), &vec![0, 3]);
    assert_eq!(dag._predecessors(0), &vec![2]);
    assert_eq!(dag._predecessors(3), &vec![2]);
    assert_eq!(dag._successors(0), &Vec::<usize>::new());
    dag._add_edge(&chars("a"), &chars("e"));
    assert_eq!(dag._successors(0), &vec![4]);
    assert_eq!(dag._predecessors(4), &vec![0]);
}

#[test]
fn day11_reading_a_wiring() {
    let dag = DAG::from_str("a: b c\nno colon here\n x :  c  \nd: e: f\nb:c");
    assert_eq!(dag.node_count(), 4);
    assert_eq!(dag.find(&chars("a")), Some(0));
    assert_eq!(dag.find(&chars("b")), Some(1));
    assert_eq!(dag.find(&chars("c")), Some(2));
    assert_eq!(dag.find(&chars("x")), Some(3));
    assert_eq!(dag._successors(0), &vec![1, 2]);
    assert_eq!(dag._successors(3), &vec![2]);
    assert_eq!(dag._successors(1), &vec![2]);
    // Two spaces in a row name a device without a name.
    let dag = DAG::from_str("a: b  c");
    assert_eq!(dag.node_count(), 4);
    assert_eq!(dag.find(&chars("")), Some(2));
}

#[test]
fn day11_all_paths_pass_no_device_twice() {
    let dag = DAG::from_str("a: b c\nb: c a d\nc: d\nd: a");
    let (a, d) = (0, 3);
    assert_eq!(
        dag.all_paths(a, d),
        vec![vec![0, 1, 2, 3], vec![0, 1, 3], vec![0, 2, 3]]
    );
    assert_eq!(dag.all_paths(a, a), vec![vec![0]]);
    assert_eq!(dag.all_paths(d, 1), vec![vec![3, 0, 1]]);
    let apart = DAG::from_str("a: b\nc: d");
    assert_eq!(apart.all_paths(0, 3), Vec::<Vec<usize>>::new());
}

#[test]
fn day11_total_paths() {
    let dag = DAG::from_str("a: b c\nb: d\nc: d\nd: e f\ne: g\nf: g");
    assert_eq!(dag.total_paths(0, 6), Some(4));
    assert_eq!(dag.total_paths(0, 3), Some(2));
    assert_eq!(dag.total_paths(3, 0), Some(0));
    assert_eq!(dag.total_paths(2, 2), Some(1));
    assert_eq!(dag.routes(0, 3, 4, 6), Some(2));
    assert_eq!(dag.routes(0, 4, 3, 6), Some(0));
}

#[test]
fn day11_wiring_in_a_circle() {
    let dag = DAG::from_str("a: b\nb: c\nc: a d");
    assert_eq!(dag.total_paths(0, 3), None);
    assert_eq!(dag.all_paths(0, 3), vec![vec![0, 1, 2, 3]]);
    // A circle that no way from the start leads into does no harm.
    let dag = DAG::from_str("a: d\nb: c\nc: b d");
    let d = dag.find(&chars("d")).unwrap();
    assert_eq!(dag.total_paths(0, d), Some(1));
    assert_eq!(part2("svr: dac\ndac: fft svr\nfft: out"), None);
}

#[test]
fn day11_routes_in_both_orders() {
    assert_eq!(part2("svr: dac fft\ndac: fft out\nfft: dac out"), None);
    assert_eq!(part2("svr: dac\ndac: fft\nfft: out"), Some(1));
    assert_eq!(part2("svr: fft x\nx: fft\nfft: dac\ndac: out y\ny: out"), Some(4));
    assert_eq!(part2("svr: dac\ndac: out"), None);
    assert_eq!(part1("you: a b\na: out\nb: out"), Some(2));
    assert_eq!(part1("you: a"), None);
}
