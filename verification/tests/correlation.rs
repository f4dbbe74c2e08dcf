use sigmars::collection::SigmaCollection;
use sigmars::correlation::rule::{
    Condition, ConditionOrList, Correlation, CorrelationRule, CorrelationType, EventCount,
    ValueCondition, ValueCount,
};
use sigmars::correlation::state::MemBackend;
use sigmars::detection::DetectionRule;
use sigmars::event::{Event, LogSource};
use sigmars::rule::{RuleType, SigmaRule};
use sigmars::value::Value;
use sigmars::yaml::Yaml;

fn rys(s: &str) -> Yaml {
    Yaml::String(s.to_string())
}

fn rymap(entries: Vec<(&str, Yaml)>) -> Yaml {
    Yaml::Mapping(entries.into_iter().map(|(k, v)| (rys(k), v)).collect())
}

fn rjobj(entries: Vec<(&str, &str)>) -> Value {
    Value::Object(
        entries.into_iter().map(|(k, v)| (k.to_string(), Value::String(v.to_string()))).collect(),
    )
}

fn rule_detecting(title: &str, id: &str, name: &str, category: &str, field: &str, value: &str) -> SigmaRule {
    let detection = rymap(vec![
        ("selection", rymap(vec![(field, rys(value))])),
        ("condition", rys("selection")),
    ]);
    let body = DetectionRule::new(LogSource::default().category(category), detection).unwrap();
    let mut rule = SigmaRule::new(title.to_string(), id.to_string(), RuleType::Detection(body));
    rule.name = Some(name.to_string());
    rule.description = Some(title.to_string());
    rule
}

fn rule_correlating(
    title: &str,
    id: &str,
    name: &str,
    kind: CorrelationType,
    rules: Vec<&str>,
    group_by: &str,
) -> SigmaRule {
    let inner = Correlation {
        correlation_type: kind,
        rules: rules.into_iter().map(|r| r.to_string()).collect(),
        timespan: 600,
        group_by: vec![group_by.to_string()],
        id: id.to_string(),
    };
    let body = CorrelationRule { inner, extra: Vec::new() };
    let mut rule = SigmaRule::new(title.to_string(), id.to_string(), RuleType::Correlation(body));
    rule.name = Some(name.to_string());
    rule.description = Some(title.to_string());
    rule
}

fn counting_rules() -> Vec<SigmaRule> {
    let mut first =
        rule_detecting("event count detection", "0", "event_count_detection", "correlation", "foo", "bar");
    first.date = Some("2023-06-16".to_string());
    let mut second =
        rule_detecting("value count detection", "1", "value_count_detection", "correlation", "baz", "quux");
    second.date = Some("2023-06-16".to_string());
    vec![
        first,
        second,
        rule_correlating(
            "event correlation",
            "2",
            "event_correlation",
            CorrelationType::EventCount(EventCount {
                condition: ConditionOrList::Condition(Condition::Gte(2)),
            }),
            vec!["0"],
            "correlation_group_by",
        ),
        rule_correlating(
            "value correlation",
            "3",
            "value_correlation",
            CorrelationType::ValueCount(ValueCount {
                condition: ValueCondition {
                    condition: Condition::Gte(2),
                    field: "correlation_field".to_string(),
                },
            }),
            vec!["1"],
            "correlation_group_by",
        ),
    ]
}

fn temporal_rules(kind: CorrelationType) -> Vec<SigmaRule> {
    vec![
        rule_correlating(
            "Temporal ordered final",
            "ba5f2f8d-9446-4703-b29e-0b576d0b418a",
            "final",
            kind,
            vec![
                "8ff4fb25-c92c-475e-a3d7-3b13c0b879cf",
                "36b4c55f-fe9b-4454-858d-7ce8a38f6126",
            ],
            "test",
        ),
        rule_detecting(
            "Temporal ordered second",
            "36b4c55f-fe9b-4454-858d-7ce8a38f6126",
            "second",
            "test",
            "second",
            "secondvalue",
        ),
        rule_detecting(
            "Temporal ordered first",
            "8ff4fb25-c92c-475e-a3d7-3b13c0b879cf",
            "first",
            "test",
            "first",
            "firstvalue",
        ),
    ]
}

#[test]
fn test_event_count() {
    let mut backend = MemBackend::new();
    let collection = SigmaCollection::try_from(counting_rules()).unwrap();
    collection.init(&mut backend).unwrap();

    let event = Event::new(rjobj(vec![("foo", "bar"), ("correlation_group_by", "test")]));

    let res = collection.get_matches(&mut backend, &event).unwrap();
    assert!(res.len() == 1);

    let res = collection.get_matches(&mut backend, &event).unwrap();
    assert!(res.len() == 2);
}

#[test]
fn test_event_count_no_matching_groupby() {
    let mut backend = MemBackend::new();
    let collection = SigmaCollection::try_from(counting_rules()).unwrap();
    collection.init(&mut backend).unwrap();

    let event = Event::new(rjobj(vec![("foo", "bar"), ("correlation_group_by", "test")]));

    let res = collection.get_matches(&mut backend, &event).unwrap();
    assert!(res.len() == 1);

    let event = Event::new(rjobj(vec![("foo", "bar"), ("correlation_group_by", "test2")]));

    let res = collection.get_matches(&mut backend, &event).unwrap();
    assert!(res.len() == 1);
}

#[test]
fn test_event_count_no_groupby() {
    let mut backend = MemBackend::new();
    let collection = SigmaCollection::try_from(counting_rules()).unwrap();
    collection.init(&mut backend).unwrap();

    let event = Event::new(rjobj(vec![("foo", "bar")]));

    let res = collection.get_matches(&mut backend, &event).unwrap();
    assert!(res.len() == 1);

    let res = collection.get_matches(&mut backend, &event).unwrap();
    assert!(res.len() == 1);
}

#[test]
fn test_value_count() {
    let mut backend = MemBackend::new();
    let collection = SigmaCollection::try_from(counting_rules()).unwrap();
    collection.init(&mut backend).unwrap();

    let event = Event::new(rjobj(vec![
        ("baz", "quux"),
        ("correlation_group_by", "test"),
        ("correlation_field", "first"),
    ]));

    let res = collection.get_matches(&mut backend, &event).unwrap();
    assert!(res.len() == 1);

    let event = Event::new(rjobj(vec![
        ("baz", "quux"),
        ("correlation_group_by", "test"),
        ("correlation_field", "second"),
    ]));

    let res = collection.get_matches(&mut backend, &event).unwrap();

    assert!(res.len() == 2);
}

#[test]
fn test_value_count_unmatched_groupby() {
    let mut backend = MemBackend::new();
    let collection = SigmaCollection::try_from(counting_rules()).unwrap();
    collection.init(&mut backend).unwrap();

    let event = Event::new(rjobj(vec![
        ("baz", "quux"),
        ("correlation_group_by", "first"),
        ("correlation_field", "first"),
    ]));

    let res = collection.get_matches(&mut backend, &event).unwrap();
    assert!(res.len() == 1);

    let event = Event::new(rjobj(vec![
        ("baz", "quux"),
        ("correlation_group_by", "second"),
        ("correlation_field", "second"),
    ]));

    let res = collection.get_matches(&mut backend, &event).unwrap();

    assert!(res.len() == 1);
}

#[test]
fn test_temporal() {
    let mut backend = MemBackend::new();
    let collection = SigmaCollection::try_from(temporal_rules(CorrelationType::Temporal)).unwrap();
    collection.init(&mut backend).unwrap();

    let firstevent = Event {
        logsource: LogSource::default(),
        metadata: Vec::new(),
        data: rjobj(vec![("test", "yes"), ("first", "firstvalue")]),
    };

    let res = collection.get_matches(&mut backend, &firstevent).unwrap();
    assert!(res.len() == 1);

    let secondevent = Event {
        logsource: LogSource::default(),
        metadata: Vec::new(),
        data: rjobj(vec![("test", "yes"), ("second", "secondvalue")]),
    };

    let res = collection.get_matches(&mut backend, &secondevent).unwrap();
    assert!(res.len() == 2);

    let collection = SigmaCollection::try_from(temporal_rules(CorrelationType::Temporal)).unwrap();
    let mut backend = MemBackend::new();
    collection.init(&mut backend).unwrap();

    let res = collection.get_matches(&mut backend, &secondevent).unwrap();
    assert!(res.len() == 1);

    let res = collection.get_matches(&mut backend, &firstevent).unwrap();
    assert!(
        res.len() == 2,
        "out-of-order events should match temporal correlations"
    );
}

#[test]
fn test_temporal_ordered() {
    let mut backend = MemBackend::new();
    let collection =
        SigmaCollection::try_from(temporal_rules(CorrelationType::TemporalOrdered)).unwrap();
    collection.init(&mut backend).unwrap();

    let firstevent = Event {
        logsource: LogSource::default(),
        metadata: Vec::new(),
        data: rjobj(vec![("test", "yes"), ("first", "firstvalue")]),
    };

    let res = collection.get_matches(&mut backend, &firstevent).unwrap();
    assert!(res.len() == 1);

    let secondevent = Event {
        logsource: LogSource::default(),
        metadata: Vec::new(),
        data: rjobj(vec![("test", "yes"), ("second", "secondvalue")]),
    };

    let res = collection.get_matches(&mut backend, &secondevent).unwrap();
    assert!(res.len() == 2);

    let collection =
        SigmaCollection::try_from(temporal_rules(CorrelationType::TemporalOrdered)).unwrap();
    let mut backend = MemBackend::new();
    collection.init(&mut backend).unwrap();

    let res = collection.get_matches(&mut backend, &secondevent).unwrap();
    assert!(res.len() == 1);

    let res = collection.get_matches(&mut backend, &firstevent).unwrap();
    assert!(
        res.len() == 1,
        "out-of-order events should not match temporal ordered correlations"
    );
}

#[test]
fn the_same_rules_in_another_order_correlate_alike() {
    let forward = SigmaCollection::try_from(counting_rules()).unwrap();
    let mut reversed = counting_rules();
    reversed.reverse();
    let backward = SigmaCollection::try_from(reversed).unwrap();
    let mut one = MemBackend::new();
    forward.init(&mut one).unwrap();
    let mut other = MemBackend::new();
    backward.init(&mut other).unwrap();

    let events = vec![
        (vec![("foo", "bar"), ("correlation_group_by", "test")], vec!["0"]),
        (vec![("foo", "bar"), ("correlation_group_by", "test")], vec!["0", "2"]),
        (
            vec![
                ("foo", "bar"),
                ("baz", "quux"),
                ("correlation_group_by", "test"),
                ("correlation_field", "x"),
            ],
            vec!["0", "1", "2"],
        ),
        (
            vec![
                ("foo", "bar"),
                ("baz", "quux"),
                ("correlation_group_by", "test"),
                ("correlation_field", "y"),
            ],
            vec!["0", "1", "2", "3"],
        ),
        (vec![("baz", "quux"), ("correlation_group_by", "elsewhere")], vec!["1"]),
    ];
    for (fields, expected) in events {
        let event = Event::new(rjobj(fields));
        let mut a = forward.get_matches(&mut one, &event).unwrap();
        let mut b = backward.get_matches(&mut other, &event).unwrap();
        a.sort();
        b.sort();
        assert_eq!(a, expected);
        assert_eq!(b, expected);
    }
}

#[test]
fn the_same_rules_in_another_order_expire_alike() {
    let forward = SigmaCollection::try_from(counting_rules()).unwrap();
    let mut reversed = counting_rules();
    reversed.reverse();
    let backward = SigmaCollection::try_from(reversed).unwrap();
    let mut one = MemBackend::new();
    forward.init(&mut one).unwrap();
    let mut other = MemBackend::new();
    backward.init(&mut other).unwrap();

    let history = vec![
        (0, vec!["0"]),
        (100, vec!["0", "2"]),
        (599, vec!["0", "2"]),
        (600, vec!["0", "2"]),
        (700, vec!["0", "2"]),
        (1300, vec!["0"]),
    ];
    for (now, expected) in history {
        one.advance(now);
        other.advance(now);
        let event = Event::new(rjobj(vec![("foo", "bar"), ("correlation_group_by", "test")]));
        let mut a = forward.get_matches(&mut one, &event).unwrap();
        let mut b = backward.get_matches(&mut other, &event).unwrap();
        a.sort();
        b.sort();
        assert_eq!(a, expected, "at {}", now);
        assert_eq!(b, expected, "at {}", now);
    }
}
