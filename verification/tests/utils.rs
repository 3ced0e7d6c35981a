use aoc_2025::compress::{compress, insert_sorted, search};
use aoc_2025::pairs::create_pairs;
use aoc_2025::text::{
    char_is_whitespace, chars_of, lines, parse_i32, parse_unsigned_max, split, trim,
};
use aoc_2025::{Direction, Grid, GridError, Position, PositionError};

fn chars(s: &str) -> Vec<char> {
    s.chars().collect()
}

#[test]
fn direction_delta() {
    assert_eq!(Direction::North.delta(), (0, -1));
    assert_eq!(Direction::NorthEast.delta(), (1, -1));
    assert_eq!(Direction::East.delta(), (1, 0));
    assert_eq!(Direction::SouthEast.delta(), (1, 1));
    assert_eq!(Direction::South.delta(), (0, 1));
    assert_eq!(Direction::SouthWest.delta(), (-1, 1));
    assert_eq!(Direction::West.delta(), (-1, 0));
    assert_eq!(Direction::NorthWest.delta(), (-1, -1));
}

#[test]
fn direction_lists() {
    assert_eq!(
        Direction::all(),
        vec![
            Direction::North,
            Direction::NorthEast,
            Direction::East,
            Direction::SouthEast,
            Direction::South,
            Direction::SouthWest,
            Direction::West,
            Direction::NorthWest,
        ]
    );
    assert_eq!(
        Direction::cardinals(),
        vec![Direction::North, Direction::East, Direction::South, Direction::West]
    );
    assert_eq!(
        Direction::diagonals(),
        vec![
            Direction::NorthEast,
            Direction::SouthEast,
            Direction::SouthWest,
            Direction::NorthWest,
        ]
    );
}

#[test]
fn position_new_and_adjacent() {
    let p = Position::new(3, -4);
    assert_eq!(p, Position { x: 3, y: -4 });
    assert_eq!(p.get_adjacent(&Direction::North), Position { x: 3, y: -5 });
    assert_eq!(p.get_adjacent(&Direction::SouthWest), Position { x: 2, y: -3 });
    assert_eq!(p.get_adjacent(&Direction::East), Position { x: 4, y: -4 });
}

#[test]
fn position_from_str() {
    assert_eq!(Position::from_str("7,1"), Ok(Position { x: 7, y: 1 }));
    assert_eq!(Position::from_str(" 7 ,\t-1 "), Ok(Position { x: 7, y: -1 }));
    assert_eq!(Position::from_str("-2147483648,2147483647"), Ok(Position { x: i32::MIN, y: i32::MAX }));
    assert_eq!(Position::from_str("7"), Err(PositionError::FieldCount));
    assert_eq!(Position::from_str("7,1,2"), Err(PositionError::FieldCount));
    assert_eq!(Position::from_str(""), Err(PositionError::FieldCount));
    assert_eq!(Position::from_str("7,"), Err(PositionError::Coordinate));
    assert_eq!(Position::from_str("a,1"), Err(PositionError::Coordinate));
    assert_eq!(Position::from_str("1,- 1"), Err(PositionError::Coordinate));
    assert_eq!(Position::from_str("-2147483649,0"), Err(PositionError::Coordinate));
    assert_eq!(Position::from_chars(&chars("12,34")), Ok(Position { x: 12, y: 34 }));
}

#[test]
fn grid_from_str() {
    let grid = Grid::from_str("ab\ncd\nef").unwrap();
    assert_eq!(grid.rows, 3);
    assert_eq!(grid.cols, 2);
    assert_eq!(grid.data, chars("abcdef"));
    let grid = Grid::from_str("abc\r\nd\n").unwrap();
    assert_eq!(grid.rows, 2);
    assert_eq!(grid.cols, 3);
    assert_eq!(grid.data, chars("abcd"));
    // The width is counted in bytes, the cells in characters.
    let grid = Grid::from_str("é.\n..").unwrap();
    assert_eq!(grid.cols, 3);
    assert_eq!(grid.data.len(), 4);
    assert_eq!(Grid::from_str("").err(), Some(GridError::Empty));
}

#[test]
fn grid_lookup() {
    let grid = Grid::from_str("abc\ndef").unwrap();
    assert!(grid.is_pos_valid(&Position::new(0, 0)));
    assert!(grid.is_pos_valid(&Position::new(2, 1)));
    assert!(!grid.is_pos_valid(&Position::new(3, 0)));
    assert!(!grid.is_pos_valid(&Position::new(0, 2)));
    assert!(!grid.is_pos_valid(&Position::new(-1, 0)));
    assert!(!grid.is_pos_valid(&Position::new(0, -1)));
    assert_eq!(grid.get_index(&Position::new(2, 1)), Some(5));
    assert_eq!(grid.get_index(&Position::new(1, 0)), Some(1));
    assert_eq!(grid.get_index(&Position::new(3, 1)), None);
    assert_eq!(grid.get(&Position::new(1, 1)), Some('e'));
    assert_eq!(grid.get(&Position::new(1, 2)), None);
    assert_eq!(grid.get_position_index(5), Position::new(2, 1));
    assert_eq!(grid.get_position_index(3), Position::new(0, 1));
    assert_eq!(grid.check_position(&Position::new(1, 1), &Direction::NorthEast), Some('c'));
    assert_eq!(grid.check_position(&Position::new(1, 1), &Direction::South), None);
}

#[test]
fn grid_set() {
    let mut grid = Grid::from_str("abc\ndef").unwrap();
    grid.set(&Position::new(2, 0), 'x');
    assert_eq!(grid.data, chars("abxdef"));
    grid.set(&Position::new(3, 0), 'y');
    grid.set(&Position::new(0, 2), 'y');
    assert_eq!(grid.data, chars("abxdef"));
    assert_eq!(grid.rows, 2);
    assert_eq!(grid.cols, 3);
}

#[test]
fn grid_check_all_directions() {
    let grid = Grid::from_str("abc\ndef\nghi").unwrap();
    assert_eq!(grid.check_all_directions(&Position::new(1, 1)), chars("bcfihgda"));
    assert_eq!(grid.check_all_directions(&Position::new(0, 0)), chars("bed"));
    assert_eq!(grid.check_all_directions(&Position::new(2, 2)), chars("fhe"));
    assert_eq!(grid.check_all_directions(&Position::new(5, 5)), chars(""));
    assert!(grid.are_surroundings_covered(&Position::new(1, 1)));
    let ragged = Grid::from_str("abc\nd").unwrap();
    assert!(!ragged.are_surroundings_covered(&Position::new(0, 0)));
    assert!(!ragged.are_surroundings_covered(&Position::new(i32::MAX, 0)));
}

#[test]
fn pairs_of_items() {
    let items = vec![10, 20, 30, 40];
    let pairs = create_pairs(&items);
    assert_eq!(
        pairs,
        vec![(&10, &20), (&10, &30), (&10, &40), (&20, &30), (&20, &40), (&30, &40)]
    );
    assert_eq!(create_pairs(&vec![1]).len(), 0);
    assert_eq!(create_pairs(&Vec::<u8>::new()).len(), 0);
    assert_eq!(create_pairs(&vec![7, 7]), vec![(&7, &7)]);
    let many: Vec<usize> = (0..25).collect();
    let pairs = create_pairs(&many);
    assert_eq!(pairs.len(), 25 * 24 / 2);
    assert!(pairs.iter().all(|(a, b)| a < b));
}

#[test]
fn compressed_axis() {
    assert_eq!(compress(&vec![7, 11, 11, 9, 9, 2, 2, 7]), vec![2, 7, 9, 11]);
    assert_eq!(compress(&vec![]), Vec::<i32>::new());
    assert_eq!(compress(&vec![5, -5, 5, i32::MIN, i32::MAX]), vec![i32::MIN, -5, 5, i32::MAX]);
    let axis = vec![2, 7, 9, 11];
    assert_eq!(search(&axis, 2), Ok(0));
    assert_eq!(search(&axis, 11), Ok(3));
    assert_eq!(search(&axis, 1), Err(0));
    assert_eq!(search(&axis, 8), Err(2));
    assert_eq!(search(&axis, 12), Err(4));
    let mut axis = vec![2, 9];
    insert_sorted(&mut axis, 7);
    insert_sorted(&mut axis, 9);
    insert_sorted(&mut axis, 1);
    assert_eq!(axis, vec![1, 2, 7, 9]);
}

#[test]
fn text_lines_and_fields() {
    assert_eq!(chars_of("aé"), vec!['a', 'é']);
    assert_eq!(lines(&chars("a\nb\r\n\nc")), vec![chars("a"), chars("b"), chars(""), chars("c")]);
    assert_eq!(lines(&chars("a\n")), vec![chars("a")]);
    assert_eq!(lines(&chars("a\r")), vec![chars("a\r")]);
    assert_eq!(lines(&chars("\n")), vec![chars("")]);
    assert_eq!(lines(&chars("")), Vec::<Vec<char>>::new());
    assert_eq!(split(&chars("a,b,,c"), ','), vec![chars("a"), chars("b"), chars(""), chars("c")]);
    assert_eq!(split(&chars(""), ','), vec![chars("")]);
    assert_eq!(split(&chars("a,"), ','), vec![chars("a"), chars("")]);
    assert_eq!(trim(&chars(" \t a b \n")), chars("a b"));
    assert_eq!(trim(&chars("\u{a0}x\u{3000}")), chars("x"));
    assert_eq!(trim(&chars("   ")), chars(""));
    assert!(char_is_whitespace(' ') && char_is_whitespace('\u{2028}'));
    assert!(!char_is_whitespace('x') && !char_is_whitespace('\u{200b}'));
}

#[test]
fn text_numbers() {
    assert_eq!(parse_i32(&chars("0")), Some(0));
    assert_eq!(parse_i32(&chars("-0")), Some(0));
    assert_eq!(parse_i32(&chars("+17")), Some(17));
    assert_eq!(parse_i32(&chars("0042")), Some(42));
    assert_eq!(parse_i32(&chars("2147483647")), Some(i32::MAX));
    assert_eq!(parse_i32(&chars("-2147483648")), Some(i32::MIN));
    assert_eq!(parse_i32(&chars("2147483648")), None);
    assert_eq!(parse_i32(&chars("")), None);
    assert_eq!(parse_i32(&chars("-")), None);
    assert_eq!(parse_i32(&chars("+-1")), None);
    assert_eq!(parse_i32(&chars("1 ")), None);
    assert_eq!(parse_unsigned_max(&chars("18446744073709551615"), u64::MAX), Some(u64::MAX));
    assert_eq!(parse_unsigned_max(&chars("18446744073709551616"), u64::MAX), None);
    assert_eq!(parse_unsigned_max(&chars("256"), 255), None);
    assert_eq!(parse_unsigned_max(&chars("-1"), 255), None);
    assert_eq!(parse_unsigned_max(&chars("+255"), 255), Some(255));
}
