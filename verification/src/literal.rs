//! Decimal integer literals: an optional sign followed by digits.

use vstd::prelude::*;

verus! {

/// Why a text is no integer literal of the wanted kind.
#[derive(Clone, Copy, Debug, PartialEq, Eq, Structural)]
pub enum LiteralError {
    /// The text holds no character.
    Empty,
    /// A character is no decimal digit, or a sign stands alone.
    InvalidDigit,
    /// The number is above the largest value wanted.
    PosOverflow,
    /// The number is below the smallest value wanted.
    NegOverflow,
}

/// Whether `c` is one of the ten decimal digits.
pub open spec fn is_digit(c: char) -> bool {
    '0' <= c && c <= '9'
}

/// The number that a decimal digit stands for.
pub open spec fn digit_value(c: char) -> int {
    c as int - '0' as int
}

/// The number that a string of decimal digits stands for, most significant
/// digit first. The empty string stands for zero.
pub open spec fn decimal(digits: Seq<char>) -> int
    decreases digits.len(),
{
    if digits.len() == 0 {
        0
    } else {
        10 * decimal(digits.drop_last()) + digit_value(digits.last())
    }
}

/// Whether every character of `digits` is a decimal digit.
pub open spec fn all_digits(digits: Seq<char>) -> bool {
    forall|i: int| 0 <= i < digits.len() ==> is_digit(#[trigger] digits[i])
}

/// Whether `text` starts with a sign. A minus is a sign only where negative
/// numbers are wanted.
pub open spec fn has_sign(text: Seq<char>, signed: bool) -> bool {
    text.len() > 0 && (text[0] == '+' || (signed && text[0] == '-'))
}

/// Whether `text` starts with a minus sign that counts as one.
pub open spec fn is_negative(text: Seq<char>, signed: bool) -> bool {
    signed && text.len() > 0 && text[0] == '-'
}

/// What follows the sign of `text`, or all of it where it has none.
pub open spec fn digits_of(text: Seq<char>, signed: bool) -> Seq<char> {
    if has_sign(text, signed) {
        text.skip(1)
    } else {
        text
    }
}

/// The number that `digits` stand for under a sign.
pub open spec fn number(digits: Seq<char>, negative: bool) -> int {
    if negative {
        -decimal(digits)
    } else {
        decimal(digits)
    }
}

/// The number that `text` stands for, where it is a well-formed literal.
pub open spec fn value_of(text: Seq<char>, signed: bool) -> int {
    number(digits_of(text, signed), is_negative(text, signed))
}

/// Whether `text` is an optional sign followed by at least one digit and
/// nothing else.
pub open spec fn well_formed(text: Seq<char>, signed: bool) -> bool {
    digits_of(text, signed).len() > 0 && all_digits(digits_of(text, signed))
}

/// Whether `digits` can be read as a number within `lo..=hi`: they are all
/// digits, and the number that they stand for under the sign is in the range.
pub open spec fn readable(digits: Seq<char>, negative: bool, lo: int, hi: int) -> bool {
    all_digits(digits) && lo <= number(digits, negative) <= hi
}

/// What is wrong with digits that cannot be read, going from the left: the
/// first character that is no digit, or the first digit with which the
/// number leaves the range, whichever comes first. Where there is no
/// character at all, a digit is missing.
pub open spec fn fault_in(digits: Seq<char>, negative: bool, lo: int, hi: int) -> LiteralError
    decreases digits.len(),
{
    if digits.len() == 0 {
        LiteralError::InvalidDigit
    } else if !readable(digits.drop_last(), negative, lo, hi) {
        fault_in(digits.drop_last(), negative, lo, hi)
    } else if !is_digit(digits.last()) {
        LiteralError::InvalidDigit
    } else if negative {
        LiteralError::NegOverflow
    } else {
        LiteralError::PosOverflow
    }
}

/// What `text` is as an integer literal within `lo..=hi`: the number of a
/// well-formed literal in the range, and else what is wrong with it.
pub open spec fn literal(text: Seq<char>, signed: bool, lo: int, hi: int) -> Result<
    int,
    LiteralError,
> {
    if text.len() == 0 {
        Err(LiteralError::Empty)
    } else if well_formed(text, signed) && lo <= value_of(text, signed) <= hi {
        Ok(value_of(text, signed))
    } else {
        Err(fault_in(digits_of(text, signed), is_negative(text, signed), lo, hi))
    }
}

/// A frequency change as a literal: signed, within 32 bits.
pub open spec fn delta_literal(text: Seq<char>) -> Result<int, LiteralError> {
    literal(text, true, i32::MIN as int, i32::MAX as int)
}

/// A mass as a literal: unsigned, within a machine word.
pub open spec fn mass_literal(text: Seq<char>) -> Result<int, LiteralError> {
    literal(text, false, 0, usize::MAX as int)
}

/// A string of digits stands for no negative number.
proof fn lemma_decimal_not_negative(digits: Seq<char>)
    requires
        all_digits(digits),
    ensures
        decimal(digits) >= 0,
    decreases digits.len(),
{
    if digits.len() > 0 {
        lemma_all_digits_front(digits);
        lemma_decimal_not_negative(digits.drop_last());
    }
}

/// Digits without the last of them are digits still.
proof fn lemma_all_digits_front(digits: Seq<char>)
    requires
        all_digits(digits),
        digits.len() > 0,
    ensures
        all_digits(digits.drop_last()),
        is_digit(digits.last()),
{
    let front = digits.drop_last();
    assert forall|i: int| 0 <= i < front.len() implies is_digit(#[trigger] front[i]) by {
        assert(front[i] == digits[i]);
    }
}

/// Digits followed by a digit are digits.
proof fn lemma_all_digits_push(digits: Seq<char>)
    requires
        digits.len() > 0,
        all_digits(digits.drop_last()),
        is_digit(digits.last()),
    ensures
        all_digits(digits),
{
    let front = digits.drop_last();
    assert forall|i: int| 0 <= i < digits.len() implies is_digit(#[trigger] digits[i]) by {
        if i < front.len() {
            assert(digits[i] == front[i]);
        }
    }
}

/// Digits that can be read can be read without the last of them.
proof fn lemma_readable_front(digits: Seq<char>, negative: bool, lo: int, hi: int)
    requires
        lo <= 0 <= hi,
        digits.len() > 0,
        readable(digits, negative, lo, hi),
    ensures
        readable(digits.drop_last(), negative, lo, hi),
{
    lemma_all_digits_front(digits);
}

/// What is wrong with the first `k` digits is what is wrong with all of
/// them: nothing that follows a fault mends it.
proof fn lemma_fault_stays(digits: Seq<char>, negative: bool, lo: int, hi: int, k: int)
    requires
        lo <= 0 <= hi,
        0 <= k <= digits.len(),
        !readable(digits.take(k), negative, lo, hi),
    ensures
        !readable(digits, negative, lo, hi),
        fault_in(digits, negative, lo, hi) == fault_in(digits.take(k), negative, lo, hi),
    decreases digits.len(),
{
    if k == digits.len() {
        assert(digits.take(k) =~= digits);
    } else {
        let front = digits.drop_last();
        assert(front.take(k) =~= digits.take(k));
        lemma_fault_stays(front, negative, lo, hi, k);
        if readable(digits, negative, lo, hi) {
            lemma_readable_front(digits, negative, lo, hi);
        }
    }
}

/// Reads `text` as an integer literal within `lo..=hi`.
fn read_literal(text: &[char], signed: bool, lo: i128, hi: i128) -> (r: Result<i128, LiteralError>)
    requires
        i64::MIN <= lo <= 0 <= hi <= u64::MAX,
    ensures
        match r {
            Ok(v) => literal(text@, signed, lo as int, hi as int) == Ok::<int, LiteralError>(
                v as int,
            ),
            Err(e) => literal(text@, signed, lo as int, hi as int) == Err::<int, LiteralError>(e),
        },
{
    let n: usize = text.len();
    if n == 0 {
        return Err(LiteralError::Empty);
    }
    let negative = signed && text[0] == '-';
    let start: usize = if negative || text[0] == '+' {
        1
    } else {
        0
    };
    if start == n {
        return Err(LiteralError::InvalidDigit);
    }
    let ghost digits = digits_of(text@, signed);
    let mut value: i128 = 0;
    let mut i: usize = start;
    while i < n
        invariant
            start <= i <= n,
            n == text.len(),
            digits == text@.skip(start as int),
            digits == digits_of(text@, signed),
            negative == is_negative(text@, signed),
            i64::MIN <= lo <= 0 <= hi <= u64::MAX,
            lo <= value <= hi,
            readable(digits.take(i - start), negative, lo as int, hi as int),
            value == number(digits.take(i - start), negative),
        decreases n - i,
    {
        let c = text[i];
        let ghost read = digits.take(i - start + 1);
        proof {
            assert(read.drop_last() =~= digits.take(i - start) && read.last() == c);
            lemma_decimal_not_negative(read.drop_last());
            if is_digit(c) {
                lemma_all_digits_push(read);
            }
        }
        if c < '0' || c > '9' {
            proof {
                lemma_fault_stays(digits, negative, lo as int, hi as int, read.len() as int);
            }
            return Err(LiteralError::InvalidDigit);
        }
        let digit: i128 = (c as u32 - '0' as u32) as i128;
        let next: i128 = if negative {
            10 * value - digit
        } else {
            10 * value + digit
        };
        if next > hi {
            proof {
                lemma_fault_stays(digits, negative, lo as int, hi as int, read.len() as int);
            }
            return Err(LiteralError::PosOverflow);
        }
        if next < lo {
            proof {
                lemma_fault_stays(digits, negative, lo as int, hi as int, read.len() as int);
            }
            return Err(LiteralError::NegOverflow);
        }
        value = next;
        i = i + 1;
    }
    assert(digits.take(n - start) =~= digits);
    Ok(value)
}

/// Reads `text` as a frequency change.
pub fn parse_i32(text: &[char]) -> (r: Result<i32, LiteralError>)
    ensures
        match r {
            Ok(v) => delta_literal(text@) == Ok::<int, LiteralError>(v as int),
            Err(e) => delta_literal(text@) == Err::<int, LiteralError>(e),
        },
{
    match read_literal(text, true, i32::MIN as i128, i32::MAX as i128) {
        Ok(v) => Ok(v as i32),
        Err(e) => Err(e),
    }
}

/// Reads `text` as a mass.
pub fn parse_usize(text: &[char]) -> (r: Result<usize, LiteralError>)
    ensures
        match r {
            Ok(v) => mass_literal(text@) == Ok::<int, LiteralError>(v as int),
            Err(e) => mass_literal(text@) == Err::<int, LiteralError>(e),
        },
{
    match read_literal(text, false, 0, usize::MAX as i128) {
        Ok(v) => Ok(v as usize),
        Err(e) => Err(e),
    }
}

} // verus!
