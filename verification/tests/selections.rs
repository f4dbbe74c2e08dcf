use sigmars::detection::detection::Detection;
use sigmars::detection::selection::{
    default_match, range_covers, wildcard_match, DetectionError, Field, IpRange, Modifier,
    Selection,
};
use sigmars::value::{Number, Value};
use sigmars::yaml::Yaml;

fn sy(s: &str) -> Yaml {
    Yaml::String(s.to_string())
}

fn sn(n: i64) -> Yaml {
    if n >= 0 {
        Yaml::Number(Number::PosInt(n as u64))
    } else {
        Yaml::Number(Number::NegInt(n))
    }
}

fn smap(entries: Vec<(&str, Yaml)>) -> Yaml {
    Yaml::Mapping(entries.into_iter().map(|(k, v)| (sy(k), v)).collect())
}

fn sv(s: &str) -> Value {
    Value::String(s.to_string())
}

fn si(n: i64) -> Value {
    if n >= 0 {
        Value::Number(Number::PosInt(n as u64))
    } else {
        Value::Number(Number::NegInt(n))
    }
}

fn sobj(entries: Vec<(&str, Value)>) -> Value {
    Value::Object(entries.into_iter().map(|(k, v)| (k.to_string(), v)).collect())
}

fn field_holds(key: &str, value: Yaml, log: &Value) -> bool {
    Field::new(key.to_string(), &value).unwrap().is_match(log)
}

fn detection_error(detection: Yaml) -> DetectionError {
    Detection::new(&detection).unwrap_err()
}

fn with_selection(selection: Yaml) -> Yaml {
    smap(vec![("selection", selection), ("condition", sy("selection"))])
}

#[test]
fn default_match_ignores_case() {
    let log = sobj(vec![("foo", sv("BarBaz"))]);
    assert!(field_holds("foo", sy("barbaz"), &log));
    assert!(field_holds("foo", sy("BARBAZ"), &log));
    assert!(field_holds("foo", sy("BAR*"), &log));
    assert!(field_holds("foo", sy("*baz"), &log));
    assert!(field_holds("foo", sy("*RB*"), &log));
    assert!(!field_holds("foo", sy("bar"), &log));
    assert!(!field_holds("foo", sy("baz*"), &log));
    assert!(!field_holds("foo", sy("*bar"), &log));
    assert!(!field_holds("foo", sy("*x*"), &log));
}

#[test]
fn wildcards_stand_at_the_ends_only() {
    assert!(wildcard_match("*", "anything"));
    assert!(wildcard_match("*", ""));
    assert!(wildcard_match("**", "anything"));
    assert!(wildcard_match("", ""));
    assert!(!wildcard_match("", "x"));
    assert!(!wildcard_match("a*c", "abc"));
    assert!(wildcard_match("a*c", "A*C"));
    assert!(wildcard_match("ÄB*", "äbc"));
}

#[test]
fn default_match_of_numbers_and_null() {
    let log = sobj(vec![
        ("n", si(42)),
        ("s", sv("42")),
        ("b", Value::Bool(true)),
        ("null", Value::Null),
        ("f", Value::Number(Number::Float(4.2f64.to_bits()))),
    ]);
    assert!(field_holds("n", sn(42), &log));
    assert!(!field_holds("n", sn(43), &log));
    assert!(!field_holds("n", sy("42"), &log));
    assert!(!field_holds("s", sn(42), &log));
    assert!(field_holds("s", sy("42"), &log));
    assert!(!field_holds("b", Yaml::Bool(true), &log));
    assert!(field_holds("null", Yaml::Null, &log));
    assert!(field_holds("missing", Yaml::Null, &log));
    assert!(!field_holds("n", Yaml::Null, &log));
    assert!(!field_holds("missing", sy("x"), &log));
    assert!(field_holds("f", Yaml::Number(Number::Float(4.2f64.to_bits())), &log));
    assert!(!field_holds("f", Yaml::Number(Number::Float(4.3f64.to_bits())), &log));
    assert!(field_holds("n", Yaml::Sequence(vec![sn(1), sn(42)]), &log));
    assert!(!field_holds("n", Yaml::Sequence(vec![]), &log));
    assert!(default_match(&Value::Null, None));
    assert!(!default_match(&sv("x"), None));
}

#[test]
fn a_number_that_is_not_finite_stands_for_null() {
    let log = sobj(vec![("foo", sv("bar"))]);
    assert!(field_holds("missing", Yaml::Number(Number::Float(f64::NAN.to_bits())), &log));
    assert!(field_holds("missing", Yaml::Number(Number::Float(f64::INFINITY.to_bits())), &log));
    assert!(!field_holds("missing", Yaml::Number(Number::Float(f64::MAX.to_bits())), &log));
}

#[test]
fn string_modifiers() {
    let log = sobj(vec![("foo", sv("BarBaz")), ("n", si(5))]);
    assert!(field_holds("foo|startswith", sy("Bar"), &log));
    assert!(!field_holds("foo|startswith", sy("bar"), &log));
    assert!(field_holds("foo|endswith", sy("Baz"), &log));
    assert!(!field_holds("foo|endswith", sy("Bar"), &log));
    assert!(field_holds("foo|contains", sy("rB"), &log));
    assert!(!field_holds("foo|contains", sy("rb"), &log));
    assert!(field_holds("foo|cased", sy("BarBaz"), &log));
    assert!(!field_holds("foo|cased", sy("barbaz"), &log));
    assert!(!field_holds("n|contains", sy("5"), &log));
    assert!(!field_holds("foo|contains", sn(5), &log));
    assert!(field_holds("foo|contains", Yaml::Sequence(vec![sy("Bar"), sy("Baz")]), &log));
    assert!(field_holds("foo|contains", Yaml::Sequence(vec![sy("nothing"), sy("Baz")]), &log));
    assert!(!field_holds("foo|contains", Yaml::Sequence(vec![sy("nothing"), sy("no")]), &log));
    assert!(!field_holds("foo|contains", Yaml::Sequence(vec![]), &log));
    assert!(field_holds("foo|contains|startswith", sy("Bar"), &log));
    assert!(!field_holds("foo|contains|endswith", sy("Bar"), &log));
}

#[test]
fn the_values_of_a_field_are_alternatives() {
    let detection = Detection::new(&with_selection(smap(vec![(
        "foo|contains",
        Yaml::Sequence(vec![sy("bar"), sy("baz")]),
    )])))
    .unwrap();
    assert!(detection.is_match(&sobj(vec![("foo", sv("xbazx"))])));
    assert!(detection.is_match(&sobj(vec![("foo", sv("xbarx"))])));
    assert!(!detection.is_match(&sobj(vec![("foo", sv("xquuxx"))])));
    let log = sobj(vec![("n", si(7)), ("s", sv("abc"))]);
    assert!(field_holds("n|gt", Yaml::Sequence(vec![sn(10), sn(5)]), &log));
    assert!(!field_holds("n|gt", Yaml::Sequence(vec![sn(10), sn(7)]), &log));
    assert!(field_holds("s|startswith|endswith", Yaml::Sequence(vec![sy("ab"), sy("abc")]), &log));
    assert!(!field_holds("s|startswith|endswith", Yaml::Sequence(vec![sy("ab"), sy("bc")]), &log));
    assert!(field_holds("s|cased", Yaml::Sequence(vec![sy("ABC"), sy("abc")]), &log));
    assert!(field_holds("s|re", sy("^a"), &log));
}

#[test]
fn all_asks_for_every_value() {
    let log = sobj(vec![
        ("tags", Value::Array(vec![sv("a"), sv("b"), sv("c")])),
        ("s", sv("abc")),
    ]);
    assert!(field_holds("tags|all", Yaml::Sequence(vec![sy("a"), sy("c")]), &log));
    assert!(!field_holds("tags|all", Yaml::Sequence(vec![sy("a"), sy("d")]), &log));
    assert!(field_holds("tags|all", Yaml::Sequence(vec![sy("b")]), &log));
    assert!(field_holds("tags|all", sy("b"), &log));
    assert!(!field_holds("tags|all", sy("d"), &log));
    assert!(field_holds("tags|all", Yaml::Sequence(vec![]), &log));
    assert!(!field_holds("s|all", Yaml::Sequence(vec![sy("abc")]), &log));
    assert!(field_holds("tags|all|exists", Yaml::Sequence(vec![sy("a"), sy("b")]), &log));
    assert!(!field_holds("tags|all|contains", Yaml::Sequence(vec![sy("a"), sy("b")]), &log));
}

#[test]
fn exists_asks_for_a_value() {
    let log = sobj(vec![("foo", sv("bar")), ("null", Value::Null)]);
    assert!(field_holds("foo|exists", Yaml::Bool(true), &log));
    assert!(!field_holds("missing|exists", Yaml::Bool(true), &log));
    assert!(!field_holds("null|exists", Yaml::Bool(true), &log));
}

#[test]
fn comparisons_read_numbers_in_strings() {
    let log = sobj(vec![("n", si(56)), ("s", sv("56")), ("neg", sv("-3")), ("t", sv("x"))]);
    assert!(field_holds("n|gt", sn(42), &log));
    assert!(!field_holds("n|gt", sn(56), &log));
    assert!(field_holds("n|gte", sn(56), &log));
    assert!(field_holds("n|lt", sn(57), &log));
    assert!(!field_holds("n|lt", sn(56), &log));
    assert!(field_holds("n|lte", sn(56), &log));
    assert!(field_holds("s|gt", sn(42), &log));
    assert!(field_holds("s|lte", sn(56), &log));
    assert!(field_holds("neg|lt", sn(-2), &log));
    assert!(!field_holds("t|gt", sn(0), &log));
    assert!(!field_holds("missing|lt", sn(100), &log));
    assert!(!field_holds("n|gt", sy("42"), &log));
}

#[test]
fn networks() {
    let log = sobj(vec![
        ("ip", sv("10.0.1.2")),
        ("net", sv("10.0.1.0/24")),
        ("wide", sv("10.0.0.0/8")),
        ("six", sv("2001:db8::1")),
        ("any", sv("any")),
        ("text", sv("not an address")),
        ("n", si(10)),
    ]);
    assert!(field_holds("ip|cidr", sy("10.0.0.0/16"), &log));
    assert!(field_holds("ip|cidr", sy("10.0.1.2"), &log));
    assert!(!field_holds("ip|cidr", sy("10.0.1.3"), &log));
    assert!(field_holds("net|cidr", sy("10.0.0.0/16"), &log));
    assert!(field_holds("net|cidr", sy("10.0.1.0/24"), &log));
    assert!(!field_holds("net|cidr", sy("10.0.1.0/25"), &log));
    assert!(!field_holds("wide|cidr", sy("10.0.0.0/16"), &log));
    assert!(field_holds("six|cidr", sy("2001:db8::/32"), &log));
    assert!(!field_holds("six|cidr", sy("10.0.0.0/8"), &log));
    assert!(!field_holds("ip|cidr", sy("2001:db8::/32"), &log));
    assert!(field_holds("ip|cidr", sy("any"), &log));
    assert!(field_holds("six|cidr", sy("any"), &log));
    assert!(!field_holds("any|cidr", sy("any"), &log));
    assert!(!field_holds("any|cidr", sy("10.0.0.0/8"), &log));
    assert!(!field_holds("text|cidr", sy("10.0.0.0/8"), &log));
    assert!(!field_holds("ip|cidr", sy("nonsense"), &log));
    assert!(!field_holds("ip|cidr", sy("10.0.0.1/8"), &log));
    assert!(!field_holds("n|cidr", sy("10.0.0.0/8"), &log));
    assert!(!field_holds("missing|cidr", sy("10.0.0.0/8"), &log));
}

#[test]
fn ranges_cover_by_their_ends() {
    let outer = IpRange::V4 { first: 10, last: 20 };
    assert!(range_covers(&outer, &IpRange::V4 { first: 10, last: 20 }));
    assert!(range_covers(&outer, &IpRange::V4 { first: 12, last: 12 }));
    assert!(!range_covers(&outer, &IpRange::V4 { first: 9, last: 12 }));
    assert!(!range_covers(&outer, &IpRange::V4 { first: 12, last: 21 }));
    assert!(!range_covers(&outer, &IpRange::V6 { first: 12, last: 12 }));
    assert!(range_covers(&IpRange::Any, &outer));
    assert!(!range_covers(&outer, &IpRange::Any));
    assert!(!range_covers(&IpRange::Any, &IpRange::Any));
}

#[test]
fn field_references() {
    let log = sobj(vec![
        ("a", sv("x")),
        ("b", sv("x")),
        ("c", sv("y")),
        ("n", Value::Null),
        ("deep", sobj(vec![("a", sv("x"))])),
    ]);
    assert!(field_holds("a|fieldref", sy("b"), &log));
    assert!(!field_holds("a|fieldref", sy("c"), &log));
    assert!(field_holds("a|fieldref", sy("deep.a"), &log));
    assert!(!field_holds("a|fieldref", sy("missing"), &log));
    assert!(field_holds("missing|fieldref", sy("n"), &log));
    assert!(!field_holds("missing|fieldref", sy("other"), &log));
    assert!(!field_holds("a|fieldref", sn(1), &log));
}

#[test]
fn regular_expressions_and_their_flags() {
    let log = sobj(vec![("foo", sv("first\nSecond")), ("n", si(1))]);
    assert!(field_holds("foo|re", sy("first"), &log));
    assert!(!field_holds("foo|re", sy("^Second"), &log));
    assert!(field_holds("foo|re|m", sy("^Second$"), &log));
    assert!(!field_holds("foo|re", sy("first.Second"), &log));
    assert!(field_holds("foo|re|s", sy("first.Second"), &log));
    assert!(!field_holds("foo|re|s", sy("FIRST.second"), &log));
    assert!(field_holds("foo|re|s|i", sy("FIRST.second"), &log));
    assert!(field_holds("foo|re|i|s|m", sy("^second$"), &log));
    assert!(field_holds("foo|regex|i", sy("^FIRST"), &log));
    assert!(!field_holds("n|re", sy("1"), &log));
    assert!(!field_holds("missing|re", sy(".*"), &log));
}

#[test]
fn modifiers_that_are_reserved_never_hold() {
    let log = sobj(vec![("foo", sv("bar"))]);
    assert!(!field_holds("foo|base64", sy("bar"), &log));
    assert!(!field_holds("foo|base64offset", sy("bar"), &log));
    assert!(!field_holds("foo|expand", sy("bar"), &log));
    assert!(!Modifier::Base64(None).eval(&"foo".to_string(), &sv("bar"), &log));
    assert!(Modifier::Cased.eval(&"foo".to_string(), &sv("bar"), &log));
}

#[test]
fn keywords_ask_for_a_part_of_the_event() {
    let selection = Selection::new(&Yaml::Sequence(vec![sy("alpha"), sy("beta")])).unwrap();
    assert!(selection.is_match(&sv("alpha and beta")));
    assert!(!selection.is_match(&sv("alpha only")));
    assert!(!selection.is_match(&sobj(vec![("alpha", sv("beta"))])));
    let mixed = Selection::new(&Yaml::Sequence(vec![
        smap(vec![("foo", sy("bar"))]),
        smap(vec![("baz", sy("quux"))]),
    ]))
    .unwrap();
    assert!(mixed.is_match(&sobj(vec![("foo", sv("bar")), ("baz", sv("quux"))])));
    assert!(!mixed.is_match(&sobj(vec![("foo", sv("bar"))])));
    assert!(Selection::new(&Yaml::Sequence(vec![])).unwrap().is_match(&Value::Null));
}

#[test]
fn what_is_wrong_with_a_detection() {
    assert_eq!(detection_error(sy("selection")), DetectionError::InvalidDetection);
    assert_eq!(
        detection_error(smap(vec![("selection", smap(vec![("foo", sy("bar"))]))])),
        DetectionError::InvalidDetection
    );
    assert_eq!(
        detection_error(smap(vec![
            ("selection", smap(vec![("foo", sy("bar"))])),
            ("condition", sn(1)),
        ])),
        DetectionError::InvalidDetection
    );
    assert_eq!(
        detection_error(Yaml::Mapping(vec![
            (sn(1), smap(vec![("foo", sy("bar"))])),
            (sy("condition"), sy("selection")),
        ])),
        DetectionError::InvalidDetection
    );
    assert_eq!(
        detection_error(with_selection(Yaml::Mapping(vec![(sn(1), sy("bar"))]))),
        DetectionError::InvalidKey
    );
    assert_eq!(
        detection_error(with_selection(smap(vec![("foo|bar", sy("baz"))]))),
        DetectionError::InvalidModifier
    );
    assert_eq!(
        detection_error(with_selection(smap(vec![("foo|contains|nope", sy("baz"))]))),
        DetectionError::InvalidModifier
    );
    assert_eq!(
        detection_error(with_selection(smap(vec![("foo|re|q", sy("^[a-z]+$"))]))),
        DetectionError::InvalidRegexFlag
    );
    assert_eq!(
        detection_error(with_selection(smap(vec![("foo|re", sy("(unclosed"))]))),
        DetectionError::InvalidRegex
    );
    assert_eq!(
        detection_error(with_selection(smap(vec![("foo|re", sn(1))]))),
        DetectionError::InvalidRegex
    );
    assert_eq!(
        detection_error(with_selection(smap(vec![("foo", smap(vec![("a", sy("b"))]))]))),
        DetectionError::InvalidValueType
    );
    assert_eq!(
        detection_error(with_selection(smap(vec![(
            "foo",
            Yaml::Sequence(vec![sy("a"), Yaml::Null]),
        )]))),
        DetectionError::InvalidValueType
    );
    assert_eq!(
        detection_error(with_selection(smap(vec![(
            "foo",
            Yaml::Sequence(vec![Yaml::Sequence(vec![sy("a")])]),
        )]))),
        DetectionError::InvalidValueType
    );
    assert_eq!(detection_error(with_selection(sy("scalar"))), DetectionError::InvalidSelection);
    assert_eq!(
        detection_error(with_selection(Yaml::Sequence(vec![sn(1)]))),
        DetectionError::InvalidSelection
    );
    assert_eq!(
        detection_error(smap(vec![
            ("selection", smap(vec![("foo", sy("bar"))])),
            ("condition", sy("selection and")),
        ])),
        DetectionError::InvalidCondition(13)
    );
    assert_eq!(
        detection_error(smap(vec![
            ("selection", smap(vec![("foo|bar", sy("baz"))])),
            ("condition", sy("selection and")),
        ])),
        DetectionError::InvalidModifier
    );
}

#[test]
fn the_condition_may_stand_anywhere() {
    let detection = Detection::new(&smap(vec![
        ("condition", sy("first and not second")),
        ("first", smap(vec![("foo", sy("bar"))])),
        ("second", smap(vec![("foo", sy("baz"))])),
    ]))
    .unwrap();
    assert!(detection.is_match(&sobj(vec![("foo", sv("bar"))])));
    assert!(!detection.is_match(&sobj(vec![("foo", sv("baz"))])));
}
