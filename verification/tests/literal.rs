use aoc01::literal::{parse_i32, parse_usize, LiteralError};
use std::num::IntErrorKind;

fn chars(text: &str) -> Vec<char> {
    text.chars().collect()
}

fn kind_of(kind: &IntErrorKind) -> LiteralError {
    match kind {
        IntErrorKind::Empty => LiteralError::Empty,
        IntErrorKind::InvalidDigit => LiteralError::InvalidDigit,
        IntErrorKind::PosOverflow => LiteralError::PosOverflow,
        IntErrorKind::NegOverflow => LiteralError::NegOverflow,
        other => panic!("unexpected kind {:?}", other),
    }
}

fn samples() -> Vec<String> {
    let mut all: Vec<String> = vec![
        "", "+", "-", "0", "-0", "+0", "7", "+7", "-7", "007", "-007", "+007", "12", "1969",
        "100756", "2147483647", "2147483648", "+2147483647", "+2147483648", "-2147483647",
        "-2147483648", "-2147483649", "4294967295", "4294967296", "9223372036854775807",
        "9223372036854775808", "-9223372036854775808", "-9223372036854775809",
        "18446744073709551615", "18446744073709551616", "018446744073709551615",
        "00000000000000000000000000000000000001", "-00000000000000000000000000000000000001",
        "99999999999999999999999999999999999999", "-99999999999999999999999999999999999999",
        "99999999999999999999x", "-99999999999999999999x", "9x9999999999999999999", "2147483648x",
        "214748364x", "1a", "a1", "a", " 1", "1 ", " ", "+-1", "-+1", "--1", "++1", "1-", "1+",
        "1_000", "0x10", "1.0", "1e3", "\t5", "5\r", "5\n", "\u{0661}", "\u{ff11}", "1\u{0661}",
        "/", ":", "0/", "0:", "é", "-é", "+ 1", "٣",
    ]
    .into_iter()
    .map(String::from)
    .collect();
    for n in -25i64..=25 {
        all.push(n.to_string());
        all.push(format!("+{}", n));
        all.push(format!("{}0", n));
    }
    all
}

#[test]
fn parse_i32_agrees_with_std() {
    for text in samples() {
        let expected = text.parse::<i32>().map_err(|e| kind_of(e.kind()));
        assert_eq!(parse_i32(&chars(&text)), expected, "text {:?}", text);
    }
}

#[test]
fn parse_usize_agrees_with_std() {
    for text in samples() {
        let expected = text.parse::<usize>().map_err(|e| kind_of(e.kind()));
        assert_eq!(parse_usize(&chars(&text)), expected, "text {:?}", text);
    }
}

#[test]
fn parse_i32_reads_signed_numbers() {
    assert_eq!(parse_i32(&chars("+1")), Ok(1));
    assert_eq!(parse_i32(&chars("-2")), Ok(-2));
    assert_eq!(parse_i32(&chars("3")), Ok(3));
    assert_eq!(parse_i32(&chars("-0")), Ok(0));
    assert_eq!(parse_i32(&chars("0012")), Ok(12));
    assert_eq!(parse_i32(&chars("2147483647")), Ok(i32::MAX));
    assert_eq!(parse_i32(&chars("-2147483648")), Ok(i32::MIN));
}

#[test]
fn parse_i32_gives_each_error() {
    assert_eq!(parse_i32(&chars("")), Err(LiteralError::Empty));
    assert_eq!(parse_i32(&chars("+")), Err(LiteralError::InvalidDigit));
    assert_eq!(parse_i32(&chars("-")), Err(LiteralError::InvalidDigit));
    assert_eq!(parse_i32(&chars("12a")), Err(LiteralError::InvalidDigit));
    assert_eq!(parse_i32(&chars("2147483648")), Err(LiteralError::PosOverflow));
    assert_eq!(parse_i32(&chars("-2147483649")), Err(LiteralError::NegOverflow));
}

#[test]
fn parse_i32_reports_what_comes_first() {
    assert_eq!(parse_i32(&chars("99999999999x")), Err(LiteralError::PosOverflow));
    assert_eq!(parse_i32(&chars("-99999999999x")), Err(LiteralError::NegOverflow));
    assert_eq!(parse_i32(&chars("9x9999999999")), Err(LiteralError::InvalidDigit));
    assert_eq!(parse_i32(&chars("214748364x")), Err(LiteralError::InvalidDigit));
}

#[test]
fn parse_usize_takes_no_minus() {
    assert_eq!(parse_usize(&chars("14")), Ok(14));
    assert_eq!(parse_usize(&chars("+14")), Ok(14));
    assert_eq!(parse_usize(&chars("-14")), Err(LiteralError::InvalidDigit));
    assert_eq!(parse_usize(&chars("-0")), Err(LiteralError::InvalidDigit));
    assert_eq!(parse_usize(&chars("")), Err(LiteralError::Empty));
}

#[test]
fn parse_usize_ends_at_the_word_size() {
    assert_eq!(parse_usize(&chars(&usize::MAX.to_string())), Ok(usize::MAX));
    let above = format!("{}", usize::MAX as u128 + 1);
    assert_eq!(parse_usize(&chars(&above)), Err(LiteralError::PosOverflow));
}
