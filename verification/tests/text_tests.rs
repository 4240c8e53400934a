use advent2023::text::{digit_value, parse_decimal, split_fields, split_lines, split_words, to_vec};

#[test]
fn lines_end_at_newlines() {
    assert_eq!(split_lines(b"ab\ncd\n"), vec![b"ab".to_vec(), b"cd".to_vec()]);
    assert_eq!(split_lines(b"ab\ncd"), vec![b"ab".to_vec(), b"cd".to_vec()]);
    assert_eq!(split_lines(b"ab\n\ncd"), vec![b"ab".to_vec(), b"".to_vec(), b"cd".to_vec()]);
    assert_eq!(split_lines(b""), Vec::<Vec<u8>>::new());
    assert_eq!(split_lines(b"\n"), vec![b"".to_vec()]);
}

#[test]
fn lines_drop_the_carriage_return_before_a_newline() {
    assert_eq!(split_lines(b"ab\r\ncd\r\n"), vec![b"ab".to_vec(), b"cd".to_vec()]);
    assert_eq!(split_lines(b"a\rb\n"), vec![b"a\rb".to_vec()]);
}

#[test]
fn lines_agree_with_the_standard_library() {
    for text in ["one\ntwo\nthree", "one\r\ntwo\n\nthree\n", "\n\n", "x", "a\n"] {
        let want: Vec<Vec<u8>> = text.lines().map(|l| l.as_bytes().to_vec()).collect();
        assert_eq!(split_lines(text.as_bytes()), want);
    }
}

#[test]
fn fields_keep_empty_parts() {
    assert_eq!(split_fields(b"a,b,,c", b','), vec![b"a".to_vec(), b"b".to_vec(), b"".to_vec(), b"c".to_vec()]);
    assert_eq!(split_fields(b"", b','), vec![b"".to_vec()]);
    assert_eq!(split_fields(b",", b','), vec![b"".to_vec(), b"".to_vec()]);
    assert_eq!(split_fields(b"abc", b','), vec![b"abc".to_vec()]);
}

#[test]
fn words_skip_all_white_space() {
    assert_eq!(split_words(b"  12  7\t x \n"), vec![b"12".to_vec(), b"7".to_vec(), b"x".to_vec()]);
    assert_eq!(split_words(b"   "), Vec::<Vec<u8>>::new());
    assert_eq!(split_words(b"one"), vec![b"one".to_vec()]);
}

#[test]
fn decimal_numbers() {
    assert_eq!(parse_decimal(b"0"), Some(0));
    assert_eq!(parse_decimal(b"007"), Some(7));
    assert_eq!(parse_decimal(b"18446744073709551615"), Some(u64::MAX));
    assert_eq!(parse_decimal(b"18446744073709551616"), None);
    assert_eq!(parse_decimal(b"99999999999999999999999"), None);
    assert_eq!(parse_decimal(b""), None);
    assert_eq!(parse_decimal(b"12a"), None);
    assert_eq!(parse_decimal(b"-5"), None);
    assert_eq!(parse_decimal(b"952408144115"), Some(952408144115));
}

#[test]
fn digits_and_copies() {
    assert_eq!(digit_value(b'0'), Some(0));
    assert_eq!(digit_value(b'9'), Some(9));
    assert_eq!(digit_value(b'/'), None);
    assert_eq!(digit_value(b':'), None);
    assert_eq!(to_vec(b"abc"), b"abc".to_vec());
}
