use sigmars::detection::detection::Detection;
use sigmars::value::{Number, Value};
use sigmars::yaml::Yaml;

fn ys(s: &str) -> Yaml {
    Yaml::String(s.to_string())
}

fn yi(n: u64) -> Yaml {
    Yaml::Number(Number::PosInt(n))
}

fn yf(f: f64) -> Yaml {
    Yaml::Number(Number::Float(f.to_bits()))
}

fn ymap(entries: Vec<(&str, Yaml)>) -> Yaml {
    Yaml::Mapping(entries.into_iter().map(|(k, v)| (ys(k), v)).collect())
}

fn js(s: &str) -> Value {
    Value::String(s.to_string())
}

fn ji(n: u64) -> Value {
    Value::Number(Number::PosInt(n))
}

fn jf(f: f64) -> Value {
    Value::Number(Number::Float(f.to_bits()))
}

fn jobj(entries: Vec<(&str, Value)>) -> Value {
    Value::Object(entries.into_iter().map(|(k, v)| (k.to_string(), v)).collect())
}

#[test]
fn test_detection() {
    let detection = ymap(vec![
        ("selection", ymap(vec![("foo", ys("bar"))])),
        ("condition", ys("selection")),
    ]);

    let detection = Detection::new(&detection).unwrap();

    let log = jobj(vec![("foo", js("bar"))]);

    assert_eq!(detection.is_match(&log), true);
}

#[test]
fn test_detection_fail() {
    let detection = ymap(vec![
        ("selection", ymap(vec![("foo", ys("bar"))])),
        ("condition", ys("selection")),
    ]);

    let detection = Detection::new(&detection).unwrap();

    let log = jobj(vec![("foo", js("baz"))]);

    assert_eq!(detection.is_match(&log), false);
}

#[test]
fn test_detection_nested() {
    let detection = ymap(vec![
        ("selection", ymap(vec![("foo.bar", ys("baz"))])),
        ("condition", ys("selection")),
    ]);

    let detection = Detection::new(&detection).unwrap();

    let log = jobj(vec![("foo", jobj(vec![("bar", js("baz"))]))]);

    assert_eq!(detection.is_match(&log), true);
}

#[test]
fn test_detection_list() {
    let detection = ymap(vec![
        (
            "selection",
            ymap(vec![("foo", Yaml::Sequence(vec![ys("bar"), ys("baz")]))]),
        ),
        ("condition", ys("selection")),
    ]);

    let detection = Detection::new(&detection).unwrap();

    let log = jobj(vec![("foo", js("bar"))]);

    assert_eq!(detection.is_match(&log), true);
}

#[test]
fn test_detection_map_is_and() {
    let detection = ymap(vec![
        (
            "selection",
            ymap(vec![("foo", ys("bar")), ("baz", ys("quux"))]),
        ),
        ("condition", ys("selection")),
    ]);

    let detection = Detection::new(&detection).unwrap();

    let log = jobj(vec![("foo", js("bar"))]);

    assert_eq!(detection.is_match(&log), false);

    let log = jobj(vec![("foo", js("bar")), ("baz", js("quux"))]);

    assert_eq!(detection.is_match(&log), true);
}

#[test]
fn test_modifiers() {
    let detection = ymap(vec![
        ("selection", ymap(vec![("foo|contains", ys("baz"))])),
        ("condition", ys("selection")),
    ]);

    let detection = Detection::new(&detection).unwrap();

    let log = jobj(vec![("foo", js("barbaz"))]);

    assert_eq!(detection.is_match(&log), true);
}

#[test]
fn test_wildcards() {
    let detection = ymap(vec![
        ("selection1", ymap(vec![("foo", ys("bar*"))])),
        ("selection2", ymap(vec![("bar", ys("*foo"))])),
        ("selection3", ymap(vec![("baz", ys("*bar*"))])),
        (
            "condition",
            ys("selection1 and selection2 and selection3"),
        ),
    ]);

    let detection = Detection::new(&detection).unwrap();

    let log = jobj(vec![
        ("foo", js("barbaz")),
        ("bar", js("bazfoo")),
        ("baz", js("foobarbaz")),
    ]);

    assert_eq!(detection.is_match(&log), true);
}

#[test]
fn test_invalid_modifiers() {
    let detection = ymap(vec![
        ("selection", ymap(vec![("foo|bar", ys("baz"))])),
        ("condition", ys("selection")),
    ]);

    let detection = Detection::new(&detection);

    assert_eq!(detection.is_err(), true);
}

#[test]
fn test_fieldref() {
    let detection = ymap(vec![
        (
            "selection",
            ymap(vec![("foo.bar|fieldref", ys("baz.quux"))]),
        ),
        ("condition", ys("selection")),
    ]);

    let detection = Detection::new(&detection).unwrap();

    let log = jobj(vec![
        ("foo", jobj(vec![("bar", js("abc"))])),
        ("baz", jobj(vec![("quux", js("abc"))])),
    ]);
    assert_eq!(detection.is_match(&log), true);
}

#[test]
fn test_cidr() {
    let detection = ymap(vec![
        ("selection", ymap(vec![("foo|cidr", ys("10.0.0.0/16"))])),
        ("condition", ys("selection")),
    ]);

    let detection = Detection::new(&detection).unwrap();

    let log = jobj(vec![("foo", js("10.0.1.2"))]);
    assert_eq!(detection.is_match(&log), true);

    let log = jobj(vec![("foo", js("10.1.2.3"))]);
    assert_eq!(detection.is_match(&log), false);
}

#[test]
fn test_cidr_to_cidr() {
    let detection = ymap(vec![
        ("selection", ymap(vec![("foo|cidr", ys("10.0.0.0/16"))])),
        ("condition", ys("selection")),
    ]);

    let detection = Detection::new(&detection).unwrap();

    let log = jobj(vec![("foo", js("10.0.1.0/24"))]);
    assert_eq!(detection.is_match(&log), true);

    let log = jobj(vec![("foo", js("10.1.0.0/24"))]);
    assert_eq!(detection.is_match(&log), false);
}

#[test]
fn test_all() {
    let detection = ymap(vec![
        (
            "selection",
            ymap(vec![("foo|all", Yaml::Sequence(vec![ys("bar"), ys("baz")]))]),
        ),
        ("condition", ys("selection")),
    ]);

    let detection = Detection::new(&detection).unwrap();

    let log = jobj(vec![("foo", Value::Array(vec![js("bar"), js("baz")]))]);
    assert_eq!(detection.is_match(&log), true);

    let log = jobj(vec![("foo", Value::Array(vec![js("bar"), js("quux")]))]);
    assert_eq!(detection.is_match(&log), false);

    let log = jobj(vec![("foo", Value::Array(vec![js("bar")]))]);
    assert_eq!(detection.is_match(&log), false);
}

#[test]
fn test_all_map_implicit() {
    let detection = ymap(vec![
        (
            "selection",
            ymap(vec![
                ("foo", ys("test1")),
                ("bar", ys("test2")),
                ("baz", ys("test3")),
            ]),
        ),
        ("condition", ys("selection")),
    ]);

    let detection = Detection::new(&detection).unwrap();

    let log = jobj(vec![
        ("foo", js("test1")),
        ("bar", js("test2")),
        ("baz", js("test3")),
    ]);
    assert_eq!(detection.is_match(&log), true);

    let log = jobj(vec![
        ("foo", js("test1")),
        ("bar", js("test2")),
        ("baz", js("test4")),
    ]);
    assert_eq!(detection.is_match(&log), false);

    let log = jobj(vec![("foo", js("test1")), ("bar", js("test2"))]);
    assert_eq!(detection.is_match(&log), false);
}

#[test]
fn test_numbers() {
    let detection = ymap(vec![
        ("selection1", ymap(vec![("foo", yi(42))])),
        ("selection2", ymap(vec![("bar", yf(4.2))])),
        ("condition", ys("selection1 and selection2")),
    ]);

    let detection = Detection::new(&detection).unwrap();

    let log = jobj(vec![("foo", ji(42)), ("bar", jf(4.2))]);
    assert_eq!(detection.is_match(&log), true);
}

#[test]
fn test_gt() {
    let detection = ymap(vec![
        ("selection", ymap(vec![("foo|gt", yi(42))])),
        ("condition", ys("selection")),
    ]);

    let detection = Detection::new(&detection).unwrap();

    let log = jobj(vec![("foo", ji(56))]);
    assert_eq!(detection.is_match(&log), true);
}

#[test]
fn test_regex() {
    let detection = ymap(vec![
        ("selection", ymap(vec![("foo|re", ys("^[a-z]+$"))])),
        ("condition", ys("selection")),
    ]);

    let detection = Detection::new(&detection).unwrap();

    let log = jobj(vec![("foo", js("bar"))]);
    assert_eq!(detection.is_match(&log), true);
}

#[test]
fn test_regex_is_case_sensitive() {
    let detection = ymap(vec![
        ("selection", ymap(vec![("foo|re", ys("^[a-z]+$"))])),
        ("condition", ys("selection")),
    ]);

    let detection = Detection::new(&detection).unwrap();

    let log = jobj(vec![("foo", js("BAR"))]);
    assert_eq!(detection.is_match(&log), false);
}

#[test]
fn test_case_insensitive_regex() {
    let detection = ymap(vec![
        ("selection", ymap(vec![("foo|re|i", ys("^[a-z]+$"))])),
        ("condition", ys("selection")),
    ]);

    let detection = Detection::new(&detection).unwrap();

    let log = jobj(vec![("foo", js("BAR"))]);
    assert_eq!(detection.is_match(&log), true);
}

#[test]
fn test_regex_invalid_modifier() {
    let detection = ymap(vec![
        ("selection", ymap(vec![("foo|re|q", ys("^[a-z]+$"))])),
        ("condition", ys("selection")),
    ]);

    let detection = Detection::new(&detection);

    assert_eq!(detection.is_err(), true);
}

#[test]
fn test_nof() {
    let log = jobj(vec![("foo", js("bar"))]);

    let detection = ymap(vec![
        ("selection1", ymap(vec![("foo", ys("bar"))])),
        ("selection2", ymap(vec![("foo", ys("baz"))])),
        ("condition", ys("1 of selection*")),
    ]);

    let detection = Detection::new(&detection).unwrap();

    assert_eq!(detection.is_match(&log), true);

    let detection = ymap(vec![
        ("selection1", ymap(vec![("foo", ys("bar"))])),
        ("selection2", ymap(vec![("foo", ys("baz"))])),
        ("selection3", ymap(vec![("foo", ys("quux"))])),
        ("condition", ys("2 of selection*")),
    ]);

    let detection = Detection::new(&detection).unwrap();

    assert_eq!(detection.is_match(&log), false);

    let detection = ymap(vec![
        ("selection1", ymap(vec![("foo", ys("x"))])),
        ("selection2", ymap(vec![("foo", ys("y"))])),
        ("condition", ys("1 of selection*")),
    ]);

    let detection = Detection::new(&detection).unwrap();

    assert_eq!(detection.is_match(&log), false);
}

#[test]
fn test_allof() {
    let log = jobj(vec![("foo", js("bar")), ("baz", js("quux"))]);

    let detection = ymap(vec![
        ("selection1", ymap(vec![("foo", ys("bar"))])),
        ("selection2", ymap(vec![("baz", ys("quux"))])),
        ("condition", ys("all of selection*")),
    ]);

    let detection = Detection::new(&detection).unwrap();

    assert_eq!(detection.is_match(&log), true);

    let detection = ymap(vec![
        ("selection1", ymap(vec![("foo", ys("bar"))])),
        ("selection2", ymap(vec![("baz", ys("x"))])),
        ("condition", ys("all of selection*")),
    ]);

    let detection = Detection::new(&detection).unwrap();

    assert_eq!(detection.is_match(&log), false);
}

#[test]
fn test_null() {
    let log = jobj(vec![("foo", js("bar"))]);

    let detection = ymap(vec![
        ("selection", ymap(vec![("baz", Yaml::Null)])),
        ("condition", ys("selection")),
    ]);

    let detection = Detection::new(&detection).unwrap();

    assert_eq!(detection.is_match(&log), true);
}
