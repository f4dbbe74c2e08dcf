//! The timespan of a correlation rule as text: a number and a unit, one of
//! `s`, `m`, `h` and `d`.
use vstd::prelude::*;
use crate::text::{all_digits, chars_of, decimal, digit_value, is_digit, parse_u64, to_u64};

verus! {

/// Why a text is no timespan.
#[derive(Debug, Clone, Copy, PartialEq, Eq, Structural)]
pub enum TimespanError {
    /// The text is empty.
    Empty,
    /// What stands before the unit is no number that fits in 64 bits.
    InvalidNumber,
    /// The last character is none of `s`, `m`, `h`, `d`.
    InvalidUnit,
    /// The timespan has more seconds than fit in 64 bits.
    TooLong,
}

/// The seconds of one unit.
pub open spec fn unit_seconds(unit: char) -> Option<u64> {
    if unit == 's' {
        Some(1u64)
    } else if unit == 'm' {
        Some(60u64)
    } else if unit == 'h' {
        Some(3600u64)
    } else if unit == 'd' {
        Some(86400u64)
    } else {
        None
    }
}

/// The seconds that a text writes: the number before the last character
/// times the seconds of the unit that the last character names.
pub open spec fn timespan_seconds(s: Seq<char>) -> Result<u64, TimespanError> {
    if s.len() == 0 {
        Err(TimespanError::Empty)
    } else {
        match parse_u64(s.drop_last()) {
            None => Err(TimespanError::InvalidNumber),
            Some(n) => match unit_seconds(s.last()) {
                None => Err(TimespanError::InvalidUnit),
                Some(unit) => if n * unit > u64::MAX {
                    Err(TimespanError::TooLong)
                } else {
                    Ok((n * unit) as u64)
                },
            },
        }
    }
}

/// Reads a timespan.
pub fn parse_timespan(value: &str) -> (r: Result<u64, TimespanError>)
    ensures
        r == timespan_seconds(value@),
{
    let chars = chars_of(value);
    let n = chars.len();
    if n == 0 {
        return Err(TimespanError::Empty);
    }
    assert(value@.subrange(0, n - 1) == value@.drop_last());
    let number = match to_u64(value.substring_char(0, n - 1)) {
        None => {
            return Err(TimespanError::InvalidNumber);
        },
        Some(number) => number,
    };
    let unit = chars[n - 1];
    let seconds: u64 = if unit == 's' {
        1
    } else if unit == 'm' {
        60
    } else if unit == 'h' {
        3600
    } else if unit == 'd' {
        86400
    } else {
        return Err(TimespanError::InvalidUnit);
    };
    if number > u64::MAX / seconds {
        assert(number * seconds > u64::MAX) by (nonlinear_arith)
            requires
                number > u64::MAX / seconds,
                seconds > 0,
        ;
        return Err(TimespanError::TooLong);
    }
    assert(number * seconds <= u64::MAX) by (nonlinear_arith)
        requires
            number <= u64::MAX / seconds,
            seconds > 0,
    ;
    Ok(number * seconds)
}

/// The character of a decimal digit.
pub open spec fn digit_char(d: nat) -> char {
    if d == 0 {
        '0'
    } else if d == 1 {
        '1'
    } else if d == 2 {
        '2'
    } else if d == 3 {
        '3'
    } else if d == 4 {
        '4'
    } else if d == 5 {
        '5'
    } else if d == 6 {
        '6'
    } else if d == 7 {
        '7'
    } else if d == 8 {
        '8'
    } else {
        '9'
    }
}

/// A number written in decimal digits, without leading zeros.
pub open spec fn decimal_text(n: nat) -> Seq<char>
    decreases n,
{
    if n < 10 {
        seq![digit_char(n)]
    } else {
        decimal_text(n / 10).push(digit_char(n % 10))
    }
}

/// A timespan as text: its seconds and the unit `s`.
pub open spec fn timespan_text(seconds: u64) -> Seq<char> {
    decimal_text(seconds as nat).push('s')
}

/// The text of one decimal digit.
fn digit_text(d: u64) -> (r: &'static str)
    requires
        d < 10,
    ensures
        r@ == seq![digit_char(d as nat)],
{
    proof {
        reveal_strlit("0");
        reveal_strlit("1");
        reveal_strlit("2");
        reveal_strlit("3");
        reveal_strlit("4");
        reveal_strlit("5");
        reveal_strlit("6");
        reveal_strlit("7");
        reveal_strlit("8");
        reveal_strlit("9");
    }
    let r = if d == 0 {
        "0"
    } else if d == 1 {
        "1"
    } else if d == 2 {
        "2"
    } else if d == 3 {
        "3"
    } else if d == 4 {
        "4"
    } else if d == 5 {
        "5"
    } else if d == 6 {
        "6"
    } else if d == 7 {
        "7"
    } else if d == 8 {
        "8"
    } else {
        "9"
    };
    assert(r@ =~= seq![digit_char(d as nat)]);
    r
}

/// Writes a number in decimal digits.
pub fn write_decimal(n: u64) -> (r: String)
    ensures
        r@ == decimal_text(n as nat),
    decreases n,
{
    if n < 10 {
        String::from_str(digit_text(n))
    } else {
        let mut out = write_decimal(n / 10);
        out.append(digit_text(n % 10));
        assert(out@ =~= decimal_text((n / 10) as nat).push(digit_char((n % 10) as nat)));
        out
    }
}

/// Writes a timespan: its seconds and the unit `s`.
pub fn format_timespan(seconds: u64) -> (r: String)
    ensures
        r@ == timespan_text(seconds),
{
    let mut out = write_decimal(seconds);
    proof {
        reveal_strlit("s");
    }
    out.append("s");
    assert(out@ =~= decimal_text(seconds as nat).push('s'));
    out
}

/// The decimal text of a number is made of digits, is not empty, and
/// writes that number.
pub proof fn lemma_decimal_text(n: nat)
    ensures
        decimal_text(n).len() > 0,
        all_digits(decimal_text(n)),
        decimal(decimal_text(n)) == n,
    decreases n,
{
    if n < 10 {
        let t = decimal_text(n);
        assert(t.len() == 1);
        assert(t.drop_last().len() == 0);
        assert(t.last() == digit_char(n));
        assert(is_digit(digit_char(n)));
        assert(digit_value(digit_char(n)) == n);
        assert(decimal(t.drop_last()) == 0);
        assert(decimal(t) == decimal(t.drop_last()) * 10 + digit_value(t.last()));
    } else {
        lemma_decimal_text(n / 10);
        let t = decimal_text(n);
        let d = n % 10;
        assert(t.drop_last() == decimal_text(n / 10));
        assert(t.last() == digit_char(d));
        assert(is_digit(digit_char(d)));
        assert(digit_value(digit_char(d)) == d);
        assert(decimal(t) == decimal(t.drop_last()) * 10 + digit_value(t.last()));
        assert forall|i: int| 0 <= i < t.len() implies is_digit(#[trigger] t[i]) by {
            if i < t.len() - 1 {
                assert(t[i] == decimal_text(n / 10)[i]);
            }
        }
    }
}

/// Round trip: a timespan written as text reads back as the same number
/// of seconds.
pub proof fn lemma_timespan_round_trip(seconds: u64)
    ensures
        timespan_seconds(timespan_text(seconds)) == Ok::<u64, TimespanError>(seconds),
{
    let digits = decimal_text(seconds as nat);
    let t = timespan_text(seconds);
    lemma_decimal_text(seconds as nat);
    assert(t.drop_last() == digits);
    assert(t.last() == 's');
    assert(is_digit(digits[0]));
    assert(digits[0] != '+');
    assert(parse_u64(digits) == Some(seconds));
    assert(unit_seconds('s') == Some(1u64));
    assert(seconds * 1 == seconds);
}

} // verus!
