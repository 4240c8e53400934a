use advent2023::calibration::{
    begins_with, spelled, sum_of_all_digits, sum_of_written_digits, NumberType,
};

fn parse(text: &str) -> Vec<Vec<NumberType>> {
    text.lines().map(|l| NumberType::parse_line(l.as_bytes())).collect()
}

#[test]
fn written_digits_add_up_to_142() {
    let lines = parse("1abc2\npqr3stu8vwx\na1b2c3d4e5f\ntreb7uchet");
    assert_eq!(sum_of_written_digits(&lines), 142);
}

#[test]
fn spelled_digits_add_up_to_281() {
    let lines = parse(
        "two1nine\neightwothree\nabcone2threexyz\nxtwone3four\n4nineeightseven2\nzoneight234\n7pqrstsixteen",
    );
    assert_eq!(sum_of_all_digits(&lines), 281);
}

#[test]
fn spellings_may_overlap() {
    assert_eq!(
        NumberType::parse_line(b"eightwo1"),
        vec![NumberType::Spelled(8), NumberType::Spelled(2), NumberType::Digit(1)]
    );
    assert_eq!(
        NumberType::parse_line(b"oneight"),
        vec![NumberType::Spelled(1), NumberType::Spelled(8)]
    );
    assert_eq!(NumberType::parse_line(b"xyz"), vec![]);
    assert_eq!(NumberType::parse_line(b""), vec![]);
}

#[test]
fn parse_next_looks_at_the_start_only() {
    let (found, rest) = NumberType::parse_next(b"seven7");
    assert_eq!(found, Some(NumberType::Spelled(7)));
    assert_eq!(rest, b"even7");
    let (found, rest) = NumberType::parse_next(b"7seven");
    assert_eq!(found, Some(NumberType::Digit(7)));
    assert_eq!(rest, b"seven");
    let (found, rest) = NumberType::parse_next(b"xseven");
    assert_eq!(found, None);
    assert_eq!(rest, b"seven");
    let (found, rest) = NumberType::parse_next(b"0");
    assert_eq!(found, Some(NumberType::Digit(0)));
    assert_eq!(rest, b"");
}

#[test]
fn every_digit_has_its_spelling() {
    let words = ["", "one", "two", "three", "four", "five", "six", "seven", "eight", "nine", ""];
    for n in 0..=10u8 {
        assert_eq!(spelled(n), words[n as usize].as_bytes().to_vec());
    }
    for n in 1..=9u8 {
        let mut text = words[n as usize].as_bytes().to_vec();
        text.push(b'x');
        assert_eq!(NumberType::parse_next(&text).0, Some(NumberType::Spelled(n)));
    }
}

#[test]
fn values_and_prefixes() {
    assert_eq!(NumberType::Digit(4).get_value(), 4);
    assert_eq!(NumberType::Spelled(9).get_value(), 9);
    assert!(begins_with(b"three", b"thr"));
    assert!(begins_with(b"three", b""));
    assert!(!begins_with(b"th", b"thr"));
    assert!(!begins_with(b"thxee", b"thr"));
}

#[test]
fn a_line_without_written_digits_counts_zero() {
    let lines = parse("one\n5\nabc");
    assert_eq!(sum_of_written_digits(&lines), 55);
}
