use sigmars::correlation::timespan::{format_timespan, parse_timespan, write_decimal, TimespanError};
use sigmars::rule::Status;
use sigmars::text::{has_infix, has_prefix, has_suffix, split_text, to_i64, to_u64};
use sigmars::value::{get_terminal_from_dotted_path, Number, Value};

fn chars(s: &str) -> Vec<char> {
    s.chars().collect()
}

fn tobj(entries: Vec<(&str, Value)>) -> Value {
    Value::Object(entries.into_iter().map(|(k, v)| (k.to_string(), v)).collect())
}

fn tstr(s: &str) -> Value {
    Value::String(s.to_string())
}

#[test]
fn split_keeps_empty_pieces() {
    assert_eq!(split_text("a.b.c", '.'), vec!["a", "b", "c"]);
    assert_eq!(split_text("", '.'), vec![""]);
    assert_eq!(split_text("a..b", '.'), vec!["a", "", "b"]);
    assert_eq!(split_text(".a.", '.'), vec!["", "a", ""]);
    assert_eq!(split_text("foo|re|i", '|'), vec!["foo", "re", "i"]);
}

#[test]
fn prefix_suffix_infix() {
    assert!(has_prefix(&chars("barbaz"), &chars("bar")));
    assert!(!has_prefix(&chars("barbaz"), &chars("baz")));
    assert!(has_suffix(&chars("barbaz"), &chars("baz")));
    assert!(!has_suffix(&chars("barbaz"), &chars("bar")));
    assert!(has_infix(&chars("foobarbaz"), &chars("bar")));
    assert!(!has_infix(&chars("foobarbaz"), &chars("rab")));
    assert!(has_infix(&chars("abc"), &chars("")));
    assert!(has_infix(&chars(""), &chars("")));
    assert!(!has_infix(&chars("ab"), &chars("abc")));
    assert!(has_prefix(&chars("ab"), &chars("")));
}

#[test]
fn signed_numbers_are_read_as_the_standard_library_reads_them() {
    let cases = [
        "0", "42", "-42", "+42", "", "-", "+", "4 2", " 42", "42 ", "--1", "+-1", "007",
        "9223372036854775807", "9223372036854775808", "-9223372036854775808",
        "-9223372036854775809", "18446744073709551616", "1e3", "0x10", "٣",
    ];
    for case in cases {
        assert_eq!(to_i64(case), case.parse::<i64>().ok(), "{:?}", case);
        assert_eq!(to_u64(case), case.parse::<u64>().ok(), "{:?}", case);
    }
    assert_eq!(to_i64("-9223372036854775808"), Some(i64::MIN));
    assert_eq!(to_u64("18446744073709551615"), Some(u64::MAX));
}

#[test]
fn timespans_are_seconds() {
    assert_eq!(parse_timespan("30s"), Ok(30));
    assert_eq!(parse_timespan("10m"), Ok(600));
    assert_eq!(parse_timespan("5m"), Ok(300));
    assert_eq!(parse_timespan("1h"), Ok(3600));
    assert_eq!(parse_timespan("2d"), Ok(172800));
    assert_eq!(parse_timespan("0s"), Ok(0));
}

#[test]
fn timespans_that_are_none() {
    assert_eq!(parse_timespan(""), Err(TimespanError::Empty));
    assert_eq!(parse_timespan("m"), Err(TimespanError::InvalidNumber));
    assert_eq!(parse_timespan("-1m"), Err(TimespanError::InvalidNumber));
    assert_eq!(parse_timespan("1.5h"), Err(TimespanError::InvalidNumber));
    assert_eq!(parse_timespan("10"), Err(TimespanError::InvalidUnit));
    assert_eq!(parse_timespan("+5m"), Ok(300));
    assert_eq!(parse_timespan("10x"), Err(TimespanError::InvalidUnit));
    assert_eq!(parse_timespan("10M"), Err(TimespanError::InvalidUnit));
    assert_eq!(parse_timespan("18446744073709551615d"), Err(TimespanError::TooLong));
    assert_eq!(parse_timespan("18446744073709551615s"), Ok(u64::MAX));
}

#[test]
fn timespan_round_trip() {
    assert_eq!(format_timespan(600), "600s");
    assert_eq!(format_timespan(0), "0s");
    assert_eq!(write_decimal(1234567890), "1234567890");
    for seconds in [0u64, 1, 9, 10, 59, 600, 86400, u64::MAX] {
        assert_eq!(parse_timespan(&format_timespan(seconds)), Ok(seconds));
    }
    for text in ["10m", "1h", "2d"] {
        let seconds = parse_timespan(text).unwrap();
        assert_eq!(parse_timespan(&format_timespan(seconds)), Ok(seconds));
    }
}

#[test]
fn dotted_paths() {
    let log = tobj(vec![
        ("foo", tobj(vec![("bar", tstr("baz")), ("", tstr("empty"))])),
        ("list", Value::Array(vec![tstr("x")])),
        ("a.b", tstr("dotted key")),
    ]);
    assert!(get_terminal_from_dotted_path("foo.bar", &log).unwrap().same(&tstr("baz")));
    assert!(get_terminal_from_dotted_path("foo", &log).unwrap().get("bar").is_some());
    assert!(get_terminal_from_dotted_path("foo.quux", &log).is_none());
    assert!(get_terminal_from_dotted_path("foo.bar.baz", &log).is_none());
    assert!(get_terminal_from_dotted_path("list.0", &log).is_none());
    assert!(get_terminal_from_dotted_path("a.b", &log).is_none());
    assert!(get_terminal_from_dotted_path("foo.", &log).unwrap().same(&tstr("empty")));
    assert!(get_terminal_from_dotted_path("", &log).is_none());
}

#[test]
fn first_entry_of_a_key_wins() {
    let log = tobj(vec![("k", tstr("first")), ("k", tstr("second"))]);
    assert!(log.get("k").unwrap().same(&tstr("first")));
}

#[test]
fn values_compare_by_content() {
    let one = Value::Number(Number::PosInt(1));
    assert!(one.same(&Value::Number(Number::NegInt(1))));
    assert!(!one.same(&Value::Number(Number::Float(1.0f64.to_bits()))));
    assert!(!one.same(&tstr("1")));
    let zero = Value::Number(Number::Float(0.0f64.to_bits()));
    let minus_zero = Value::Number(Number::Float((-0.0f64).to_bits()));
    assert!(zero.same(&minus_zero));
    assert!(Value::Null.same(&Value::Null));
    assert!(!Value::Bool(true).same(&Value::Bool(false)));
    let a = Value::Array(vec![tstr("x"), tobj(vec![("k", Value::Null)])]);
    assert!(a.same(&a.duplicate()));
    assert!(!a.same(&Value::Array(vec![tstr("x")])));
    let ab = tobj(vec![("a", tstr("1")), ("b", tstr("2"))]);
    let ba = tobj(vec![("b", tstr("2")), ("a", tstr("1"))]);
    assert!(!ab.same(&ba));
    assert!(ab.same(&ab.duplicate()));
}

#[test]
fn numbers_as_integers() {
    assert_eq!(Number::PosInt(7).as_i64(), Some(7));
    assert_eq!(Number::NegInt(-7).as_i64(), Some(-7));
    assert_eq!(Number::PosInt(u64::MAX).as_i64(), None);
    assert_eq!(Number::PosInt(i64::MAX as u64).as_i64(), Some(i64::MAX));
    assert_eq!(Number::Float(7.0f64.to_bits()).as_i64(), None);
    assert_eq!(tstr("7").as_i64(), None);
}

#[test]
fn status_words() {
    assert_eq!(Status::from_name("stable"), Status::Stable);
    assert_eq!(Status::from_name("test"), Status::Test);
    assert_eq!(Status::from_name("experimental"), Status::Experimental);
    assert_eq!(Status::from_name("deprecated"), Status::Deprecated);
    assert_eq!(Status::from_name("unsupported"), Status::Unsupported);
    assert_eq!(Status::from_name("Stable"), Status::Unsupported);
    assert_eq!(Status::from_name(""), Status::Unsupported);
    assert_eq!(Status::from("deprecated"), Status::Deprecated);
    assert_eq!(Status::from("nothing"), Status::Unsupported);
}
