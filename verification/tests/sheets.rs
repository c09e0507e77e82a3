use puzzles::columns::{grand_total, ColumnsError};
use puzzles::grid::Grid;
use puzzles::homework::{parse_line, parse_operations, Input, Operation, ReadError};
use puzzles::manifold::{count_splits, count_timelines, TimelineError};
use puzzles::shelf::Shelf;

fn lines(rows: &[&str]) -> Vec<Vec<u8>> {
    rows.iter().map(|r| r.as_bytes().to_vec()).collect()
}

fn grid(rows: &[&str]) -> Grid<char> {
    Grid { width: rows[0].chars().count(), height: rows.len(), cells: rows.iter().flat_map(|r| r.chars()).collect() }
}

#[test]
fn sheet_is_read_and_added_up() {
    let input = Input::from_lines(&lines(&["123 328  51 64", "45 64  387 23", "6 98  215 314", "*   +   *   +"])).unwrap();
    assert_eq!(input.width, 4);
    assert_eq!(input.height, 3);
    assert_eq!(input.numbers.len(), 12);
    assert_eq!(input.grand_total(), Some(4277556));
    assert!(matches!(Input::from_lines(&lines(&["1 x"])), Err(ReadError::Number)));
    assert!(matches!(Input::from_lines(&lines(&["+ -"])), Err(ReadError::Operation(_))));
}

#[test]
fn sheet_total_that_does_not_fit() {
    let input = Input {
        width: 1,
        height: 2,
        numbers: vec![u64::MAX, 2],
        operations: vec![Operation::Multiply],
    };
    assert_eq!(input.grand_total(), None);
}

#[test]
fn words_of_a_line_are_read() {
    assert_eq!(parse_line(&b" 12  7 ".to_vec()), Some(vec![12, 7]));
    assert_eq!(parse_line(&b"".to_vec()), Some(vec![]));
    assert_eq!(parse_line(&b"1 -2".to_vec()), None);
    let ops = parse_operations(&b"* +".to_vec()).unwrap();
    assert!(matches!(ops[0], Operation::Multiply));
    assert!(matches!(ops[1], Operation::Add));
    assert_eq!(parse_operations(&b"* /".to_vec()).unwrap_err().0, b"/".to_vec());
    assert_eq!(Operation::Add.checked(u64::MAX, 1), None);
    assert_eq!(Operation::Multiply.checked(6, 7), Some(42));
}

#[test]
fn columns_are_read_from_the_top() {
    assert_eq!(grand_total(&grid(&["1 4", "2 5", "+  "])), Ok(57));
    assert_eq!(grand_total(&grid(&["34", "* "])), Ok(12));
    assert_eq!(grand_total(&grid(&["34 21", "*  + "])), Ok(12 + 3));
    assert_eq!(grand_total(&grid(&["   ", "   "])), Ok(0));
    assert_eq!(grand_total(&grid(&["3", " "])), Err(ColumnsError::Empty));
    assert_eq!(grand_total(&grid(&["3", "-"])), Err(ColumnsError::Operation));
    assert_eq!(grand_total(&grid(&["9", "9", "9", "9", "9", "9", "9", "9", "9", "9", "9", "9", "9", "9", "9", "9", "9", "9", "9", "9", "9", "+"])), Err(ColumnsError::Number));
}

#[test]
fn beam_is_split_and_counted() {
    let mut g = grid(&[".S.", ".^.", "..."]);
    assert_eq!(count_splits(&mut g), 1);
    assert_eq!(g.cells, ".S.|^||.|".chars().collect::<Vec<char>>());
    let mut g = grid(&["..S..", "..^..", ".^.^.", "....."]);
    assert_eq!(count_splits(&mut g), 3);
}

#[test]
fn timelines_are_counted() {
    assert_eq!(count_timelines(&grid(&[".S.", ".^.", "..."])), Ok(2));
    assert_eq!(count_timelines(&grid(&["..S..", "..^..", ".^.^.", "....."])), Ok(4));
    assert_eq!(count_timelines(&grid(&["S"])), Ok(1));
    assert_eq!(count_timelines(&grid(&["^"])), Err(TimelineError::Splitter));
}

#[test]
fn rolls_are_taken_round_by_round() {
    let mut shelf = Shelf { data: "@@@@@@@@@".chars().collect(), width: 3, height: 3 };
    assert_eq!(shelf.count_accessible(), 4);
    assert!(shelf.is_accessible(0, 0));
    assert!(!shelf.is_accessible(1, 1));
    let mut once = Shelf { data: shelf.data.clone(), width: 3, height: 3 };
    assert_eq!(once.remove_accessible(), 4);
    assert_eq!(once.data, ".@.@@@.@.".chars().collect::<Vec<char>>());
    assert_eq!(shelf.remove_all(), 9);
    assert_eq!(shelf.data, vec!['.'; 9]);
    let mut empty = Shelf { data: vec![], width: 0, height: 0 };
    assert_eq!(empty.remove_all(), 0);
}

#[test]
fn results_that_do_not_fit() {
    let digits = "18446744073709551615";
    let mut rows: Vec<String> = digits.chars().map(|c| format!("{c} ")).collect();
    rows[0] = format!("{}1", &digits[0..1]);
    rows.push("+ ".to_string());
    let rows: Vec<&str> = rows.iter().map(|r| r.as_str()).collect();
    assert_eq!(grand_total(&grid(&rows)), Err(ColumnsError::Overflow));
    let width = 141;
    let mut rows = vec![format!("{}S{}", ".".repeat(70), ".".repeat(70))];
    for _ in 0..64 {
        rows.push("^".repeat(width));
    }
    let rows: Vec<&str> = rows.iter().map(|r| r.as_str()).collect();
    assert_eq!(count_timelines(&grid(&rows)), Err(TimelineError::Overflow));
    let rows: Vec<&str> = rows[0..64].to_vec();
    assert_eq!(count_timelines(&grid(&rows)), Ok(1u64 << 63));
}
