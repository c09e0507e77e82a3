use puzzles::battery::{find_max, largest_joltage};
use puzzles::dial::{count_clicks, count_stops, land, read_turn, Turn};
use puzzles::intervals::{
    add_range, contains, count_fresh, parse_range, read_data, total_extent, until_empty, ParseRangeError,
    ReadError,
};
use puzzles::patterns;
use puzzles::repeats;

#[test]
fn ranges_are_merged_when_they_touch() {
    let mut v: Vec<(u64, u64)> = Vec::new();
    add_range(&mut v, &(10, 14));
    add_range(&mut v, &(3, 5));
    assert_eq!(v, vec![(3, 5), (10, 14)]);
    add_range(&mut v, &(16, 20));
    add_range(&mut v, &(12, 18));
    assert_eq!(v, vec![(3, 5), (10, 20)]);
    add_range(&mut v, &(6, 9));
    assert_eq!(v, vec![(3, 5), (6, 9), (10, 20)]);
    add_range(&mut v, &(5, 6));
    assert_eq!(v, vec![(3, 9), (10, 20)]);
    add_range(&mut v, &(0, 100));
    assert_eq!(v, vec![(0, 100)]);
}

#[test]
fn values_are_found_in_ranges() {
    let v = vec![(3u64, 5u64), (10, 14), (16, 20)];
    assert!(contains(&v, 3));
    assert!(contains(&v, 5));
    assert!(contains(&v, 12));
    assert!(!contains(&v, 2));
    assert!(!contains(&v, 15));
    assert!(!contains(&v, 21));
    assert!(!contains(&vec![], 1));
    assert_eq!(count_fresh(&v, &vec![1, 5, 8, 11, 17, 32]), 3);
    assert_eq!(total_extent(&v), Some(13));
    assert_eq!(total_extent(&vec![(0, u64::MAX)]), None);
}

#[test]
fn ranges_are_read_from_lines() {
    assert_eq!(parse_range(&b"3-5".to_vec()), Ok((3, 5)));
    assert_eq!(parse_range(&b"10-".to_vec()), Err(ParseRangeError::End));
    assert_eq!(parse_range(&b"-10".to_vec()), Err(ParseRangeError::Start));
    assert_eq!(parse_range(&b"10".to_vec()), Err(ParseRangeError::Format));
    assert_eq!(parse_range(&b"1-2-3".to_vec()), Err(ParseRangeError::End));
    let lines: Vec<Vec<u8>> = ["3-5", "10-14", "16-20", "12-18", "", "1", "5", "8", "11", "17", "32"]
        .iter()
        .map(|l| l.as_bytes().to_vec())
        .collect();
    let (intervals, numbers) = read_data(&lines).unwrap();
    assert_eq!(intervals, vec![(3, 5), (10, 20)]);
    assert_eq!(numbers, vec![1, 5, 8, 11, 17, 32]);
    assert_eq!(count_fresh(&intervals, &numbers), 3);
    assert_eq!(total_extent(&intervals), Some(14));
    assert_eq!(read_data(&vec![b"5-3".to_vec()]), Err(ReadError::Backwards));
    assert_eq!(read_data(&vec![b"x".to_vec()]), Err(ReadError::Range(ParseRangeError::Format)));
    assert_eq!(read_data(&vec![b"".to_vec(), b"x".to_vec()]), Err(ReadError::Number));
}

#[test]
fn dial_stops_and_clicks() {
    let turns: Vec<Turn> = ["L68", "L30", "R48", "L5", "R60", "L55", "L1", "L99", "R14", "L82"]
        .iter()
        .map(|l| read_turn(l).unwrap().unwrap())
        .collect();
    assert_eq!(turns[0], Turn { right: false, steps: 68 });
    assert_eq!(turns[2], Turn { right: true, steps: 48 });
    assert_eq!(count_stops(&turns), 3);
    assert_eq!(count_clicks(&turns), 6);
    assert_eq!(land(50, &Turn { right: false, steps: 68 }), -18);
    assert_eq!(land(-18, &Turn { right: true, steps: 118 }), 0);
    assert_eq!(count_clicks(&vec![Turn { right: true, steps: 1000 }]), 10);
}

#[test]
fn turns_are_read_from_lines() {
    assert_eq!(read_turn("R5"), Ok(Some(Turn { right: true, steps: 5 })));
    assert_eq!(read_turn("|7"), Ok(Some(Turn { right: false, steps: 7 })));
    assert_eq!(read_turn("xxL12yy"), Ok(Some(Turn { right: false, steps: 12 })));
    assert_eq!(read_turn("nothing"), Ok(None));
    assert!(read_turn("R99999999999").is_err());
}

#[test]
fn doubled_numbers_are_summed() {
    assert_eq!(repeats::count_invalid(11, 22, 2), Some(33));
    assert_eq!(repeats::count_invalid(95, 99, 2), Some(99));
    assert_eq!(repeats::count_invalid(1000, 1012, 4), Some(1010));
    assert_eq!(repeats::count_invalid(5, 4, 2), Some(0));
    assert_eq!(repeats::sum_of_range(11, 2, 22, 2), Some(33));
    assert_eq!(repeats::sum_of_range(95, 2, 115, 3), Some(99));
    assert_eq!(repeats::sum_of_range(998, 3, 1012, 4), Some(1010));
    assert_eq!(repeats::sum_of_range(1188511880, 10, 1188511890, 10), Some(1188511885));
    assert_eq!(repeats::power_of_ten(0), 1);
    assert_eq!(repeats::power_of_ten(19), 10_000_000_000_000_000_000);
}

#[test]
fn repeated_numbers_are_summed() {
    assert_eq!(patterns::count_invalid(11, 22, 2), Some(33));
    assert_eq!(patterns::count_invalid(100, 115, 3), Some(111));
    assert_eq!(patterns::count_invalid(1, 9, 1), Some(0));
    assert_eq!(patterns::sum_of_range(95, 2, 115, 3), Some(210));
    assert_eq!(patterns::sum_of_range(998, 3, 1012, 4), Some(999 + 1010));
    assert_eq!(patterns::sum_of_range(565653, 6, 565659, 6), Some(565656));
    assert_eq!(patterns::sum_of_range(2121212118, 10, 2121212124, 10), Some(2121212121));
    assert!(patterns::is_invalid(123123, 6));
    assert!(patterns::is_invalid(121212, 6));
    assert!(!patterns::is_invalid(123124, 6));
    assert!(patterns::is_written(7777, 4, 4));
}

#[test]
fn largest_digits_are_picked_from_the_left() {
    let digits = |s: &str| s.chars().collect::<Vec<char>>();
    assert_eq!(largest_joltage(&digits("987654321111111")), 98);
    assert_eq!(largest_joltage(&digits("811111111111119")), 89);
    assert_eq!(largest_joltage(&digits("234234234234278")), 78);
    assert_eq!(largest_joltage(&digits("818181911112111")), 92);
    assert_eq!(largest_joltage(&digits("11")), 11);
    assert_eq!(find_max(&digits("1929"), 0, 3), (1, 9));
    assert_eq!(find_max(&digits("1929"), 2, 2), (3, 9));
    assert_eq!(find_max(&digits("1929"), 2, 0), (2, 2));
}

#[test]
fn ranges_are_read_from_a_text() {
    let ranges = repeats::parse_ranges(&b" 11-22,95-115,+7-8-9\n".to_vec()).unwrap();
    assert_eq!(ranges.len(), 3);
    assert_eq!(ranges[1], repeats::Range { first: 95, first_digits: 2, last: 115, last_digits: 3 });
    assert_eq!(ranges[2], repeats::Range { first: 7, first_digits: 2, last: 8, last_digits: 1 });
    assert_eq!(repeats::parse_ranges(&b"11".to_vec()), Err(repeats::ParseRangesError::Format));
    assert_eq!(repeats::parse_ranges(&b"x-1".to_vec()), Err(repeats::ParseRangesError::Start));
    assert_eq!(repeats::parse_ranges(&b"1-2,3-".to_vec()), Err(repeats::ParseRangesError::End));
    assert_eq!(
        repeats::parse_ranges(&b"00000000000000000001-2".to_vec()),
        Err(repeats::ParseRangesError::Length)
    );
    assert_eq!(repeats::parse_ranges(&b"".to_vec()), Err(repeats::ParseRangesError::Format));
}

#[test]
fn lines_are_taken_up_to_the_first_empty_one() {
    let lines = vec![b"1-2".to_vec(), b"3-4".to_vec(), b"".to_vec(), b"5".to_vec(), b"".to_vec()];
    assert_eq!(until_empty(&lines), vec![b"1-2".to_vec(), b"3-4".to_vec()]);
    assert_eq!(until_empty(&vec![b"x".to_vec()]), vec![b"x".to_vec()]);
    assert_eq!(until_empty(&vec![]), Vec::<Vec<u8>>::new());
}
