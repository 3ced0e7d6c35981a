use aoc_2025::day06::{do_the_math, part1, part2, tokens, Operator, Problem};

fn chars(s: &str) -> Vec<char> {
    s.chars().collect()
}

#[test]
fn day06_test_part1_example1() {
    let input = "\
test
input
here";
    let result = part1(input);
    assert_eq!(result, Some(0));
}

#[test]
fn day06_test_part1_example2() {
    let input = "\
another
test
case";
    let result = part1(input);
    assert_eq!(result, Some(0));
}

#[test]
fn day06_test_part2_example1() {
    let input = "\
64 
23 
314
+  ";
    let result = part2(input);
    assert_eq!(result, Some(623 + 431 + 4));
}

#[test]
fn day06_test_part2_example2() {
    let input = r#"
  1
 42
869
*  "#;
    let result = part2(input);
    assert_eq!(result, Some(8 * 46 * 129));
}

#[test]
fn day06_test_part2_edge_case() {
    let input = "\
edge
case
test";
    let result = part2(input);
    assert_eq!(result, Some(0));
}

#[test]
fn day06_worksheet() {
    let input = "123 328  51 64 \n 45 64  387 23 \n  6 98  215 314\n*   +   *   +  ";
    assert_eq!(part1(input), Some(4277556));
    assert_eq!(part2(input), Some(3263827));
}

#[test]
fn day06_operator_from_str() {
    assert_eq!(Operator::from_str("+"), Some(Operator::Add));
    assert_eq!(Operator::from_str("-"), Some(Operator::Subtract));
    assert_eq!(Operator::from_str("*"), Some(Operator::Multiply));
    assert_eq!(Operator::from_str("/"), Some(Operator::Divide));
    assert_eq!(Operator::from_str(""), None);
    assert_eq!(Operator::from_str("++"), None);
    assert_eq!(Operator::from_str("x"), None);
    assert_eq!(Operator::from_char('*'), Some(Operator::Multiply));
    assert_eq!(Operator::from_char(' '), None);
}

#[test]
fn day06_do_the_math() {
    assert_eq!(do_the_math(Operator::Add, &vec![1, 2, 3]), Some(6));
    assert_eq!(do_the_math(Operator::Add, &vec![]), Some(0));
    assert_eq!(do_the_math(Operator::Add, &vec![usize::MAX, 1]), None);
    assert_eq!(do_the_math(Operator::Multiply, &vec![2, 3, 4]), Some(24));
    assert_eq!(do_the_math(Operator::Multiply, &vec![]), Some(1));
    assert_eq!(do_the_math(Operator::Multiply, &vec![usize::MAX, 2, 0]), None);
    assert_eq!(do_the_math(Operator::Multiply, &vec![usize::MAX, 0, 2]), Some(0));
    assert_eq!(do_the_math(Operator::Subtract, &vec![]), Some(0));
    assert_eq!(do_the_math(Operator::Subtract, &vec![0, 0]), Some(0));
    assert_eq!(do_the_math(Operator::Subtract, &vec![0, 1]), None);
    assert_eq!(do_the_math(Operator::Divide, &vec![]), Some(1));
    assert_eq!(do_the_math(Operator::Divide, &vec![1, 1]), Some(1));
    assert_eq!(do_the_math(Operator::Divide, &vec![2]), Some(0));
    assert_eq!(do_the_math(Operator::Divide, &vec![1, 0]), None);
}

#[test]
fn day06_problem_columns() {
    let mut pb = Problem::new();
    assert_eq!(pb.solve(), Some(0));
    pb.add_number(2, 5);
    pb.add_number(2, 7);
    assert_eq!(pb.solve(), Some(0));
    pb.set_operator(2, Operator::Add);
    assert_eq!(pb.solve(), Some(12));
    pb.set_operator(2, Operator::Multiply);
    assert_eq!(pb.solve(), Some(35));
    pb.set_operator(0, Operator::Multiply);
    assert_eq!(pb.solve(), Some(36));
    pb.add_number(0, 10);
    pb.add_number(7, 99);
    assert_eq!(pb.solve(), Some(45));
    pb.set_operator(7, Operator::Subtract);
    assert_eq!(pb.solve(), None);
}

#[test]
fn day06_tokens() {
    assert_eq!(tokens(&chars("  12 \t+  x\r")), vec![chars("12"), chars("+"), chars("x")]);
    assert_eq!(tokens(&chars("")), Vec::<Vec<char>>::new());
    assert_eq!(tokens(&chars("   ")), Vec::<Vec<char>>::new());
    assert_eq!(tokens(&chars("a\u{b}b")), vec![chars("a\u{b}b")]);
    assert_eq!(tokens(&chars("a\u{a0}b c")), vec![chars("a\u{a0}b"), chars("c")]);
}

#[test]
fn day06_columns_by_token_place() {
    // The operator that a column saw last is the one that counts; what is
    // neither operator nor number is passed over.
    assert_eq!(part1("1 2\n3 4\n+ *\n* x"), Some(3 + 8));
    assert_eq!(part1("1 2\n+"), Some(1));
    assert_eq!(part1("+5 2\n* *"), Some(7));
    assert_eq!(part1("1\n-"), None);
    assert_eq!(part1("0\n/"), None);
    assert_eq!(part1(""), Some(0));
}

#[test]
fn day06_columns_by_character_place() {
    assert_eq!(part2(""), None);
    assert_eq!(part2("+"), Some(0));
    assert_eq!(part2("12\n34\n+ "), Some(13 + 24));
    assert_eq!(part2("12\n34\n +"), Some(24));
    assert_eq!(part2("12\n34\n**"), Some(13 + 24));
    assert_eq!(part2("12\n3\n* "), Some(13 * 2));
    // After a final line feed the operator line counts among the rows of
    // digits: the first place then reads `13*`, which is no number.
    assert_eq!(part2("12\n3\n* \n"), Some(2));
}
