use puzzles::text::{parse_number, split, split_words};

#[test]
fn numbers_are_read_with_or_without_a_plus() {
    assert_eq!(parse_number(&b"0".to_vec(), u64::MAX), Some(0));
    assert_eq!(parse_number(&b"007".to_vec(), u64::MAX), Some(7));
    assert_eq!(parse_number(&b"+42".to_vec(), u64::MAX), Some(42));
    assert_eq!(parse_number(&b"18446744073709551615".to_vec(), u64::MAX), Some(u64::MAX));
    assert_eq!(parse_number(&b"18446744073709551616".to_vec(), u64::MAX), None);
    assert_eq!(parse_number(&b"4294967296".to_vec(), 0xffff_ffff), None);
    assert_eq!(parse_number(&b"4294967295".to_vec(), 0xffff_ffff), Some(4294967295));
    assert_eq!(parse_number(&b"".to_vec(), u64::MAX), None);
    assert_eq!(parse_number(&b"+".to_vec(), u64::MAX), None);
    assert_eq!(parse_number(&b"-1".to_vec(), u64::MAX), None);
    assert_eq!(parse_number(&b"1a".to_vec(), u64::MAX), None);
    assert_eq!(parse_number(&b"9".to_vec(), 5), None);
}

#[test]
fn text_is_cut_at_separators() {
    assert_eq!(split(&b"a,b,,c".to_vec(), b','), vec![b"a".to_vec(), b"b".to_vec(), b"".to_vec(), b"c".to_vec()]);
    assert_eq!(split(&b"".to_vec(), b','), vec![b"".to_vec()]);
    assert_eq!(split(&b",".to_vec(), b','), vec![b"".to_vec(), b"".to_vec()]);
}

#[test]
fn text_is_cut_into_words() {
    assert_eq!(split_words(&b"  12 \t 3\n".to_vec()), vec![b"12".to_vec(), b"3".to_vec()]);
    assert_eq!(split_words(&b"".to_vec()), Vec::<Vec<u8>>::new());
    assert_eq!(split_words(&b"x".to_vec()), vec![b"x".to_vec()]);
}
