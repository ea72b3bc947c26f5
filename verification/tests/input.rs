use aoc01::input::{read_deltas, read_masses};
use aoc01::literal::LiteralError;

#[test]
fn read_deltas_reads_every_line() {
    assert_eq!(read_deltas("+1\n-2\n+3\n+1\n"), (vec![1, -2, 3, 1], None));
    assert_eq!(read_deltas("+1\r\n-2\r\n3"), (vec![1, -2, 3], None));
    assert_eq!(read_deltas(""), (vec![], None));
}

#[test]
fn read_deltas_stops_at_the_first_bad_line() {
    assert_eq!(read_deltas("+1\nx\n+3\n"), (vec![1], Some(LiteralError::InvalidDigit)));
    assert_eq!(read_deltas("+1\n\n+3\n"), (vec![1], Some(LiteralError::Empty)));
    assert_eq!(read_deltas("\n"), (vec![], Some(LiteralError::Empty)));
    assert_eq!(read_deltas("1\n2\n3000000000"), (vec![1, 2], Some(LiteralError::PosOverflow)));
    assert_eq!(read_deltas("1\n-3000000000\nx"), (vec![1], Some(LiteralError::NegOverflow)));
    assert_eq!(read_deltas("1\n2\r"), (vec![1], Some(LiteralError::InvalidDigit)));
    assert_eq!(read_deltas("1 2"), (vec![], Some(LiteralError::InvalidDigit)));
}

#[test]
fn read_masses_reads_every_line() {
    assert_eq!(read_masses("12\n14\n1969\n100756\n"), (vec![12, 14, 1969, 100756], None));
    assert_eq!(read_masses("+12\n0"), (vec![12, 0], None));
    assert_eq!(read_masses(""), (vec![], None));
}

#[test]
fn read_masses_stops_at_the_first_bad_line() {
    assert_eq!(read_masses("12\n-14\n1969\n"), (vec![12], Some(LiteralError::InvalidDigit)));
    assert_eq!(read_masses("12\n14\n\n"), (vec![12, 14], Some(LiteralError::Empty)));
    assert_eq!(
        read_masses("340282366920938463463374607431768211456"),
        (vec![], Some(LiteralError::PosOverflow))
    );
}
