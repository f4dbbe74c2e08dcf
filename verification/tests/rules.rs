use sigmars::collection::{CollectionError, SigmaCollection};
use sigmars::correlation::rule::{
    Condition, ConditionOrList, Correlation, CorrelationRule, CorrelationType, EventCount,
    ValueCondition, ValueCount,
};
use sigmars::correlation::state::{BackendError, MemBackend};
use sigmars::detection::filter::{axis_match, Filter};
use sigmars::detection::DetectionRule;
use sigmars::event::{Event, LogSource};
use sigmars::rule::{RuleType, SigmaRule};
use sigmars::value::Value;
use sigmars::yaml::Yaml;

fn text(s: &str) -> Yaml {
    Yaml::String(s.to_string())
}

fn mapping(entries: Vec<(&str, Yaml)>) -> Yaml {
    Yaml::Mapping(entries.into_iter().map(|(k, v)| (text(k), v)).collect())
}

fn object(entries: Vec<(&str, &str)>) -> Value {
    Value::Object(
        entries.into_iter().map(|(k, v)| (k.to_string(), Value::String(v.to_string()))).collect(),
    )
}

fn detecting(id: &str, logsource: LogSource, field: &str, value: &str) -> SigmaRule {
    let detection = mapping(vec![
        ("selection", mapping(vec![(field, text(value))])),
        ("condition", text("selection")),
    ]);
    let body = DetectionRule::new(logsource, detection).unwrap();
    SigmaRule::new(id.to_string(), id.to_string(), RuleType::Detection(body))
}

fn counting(id: &str, rules: Vec<&str>, at_least: i64) -> SigmaRule {
    let inner = Correlation {
        correlation_type: CorrelationType::EventCount(EventCount {
            condition: ConditionOrList::Condition(Condition::Gte(at_least)),
        }),
        rules: rules.into_iter().map(|r| r.to_string()).collect(),
        timespan: 600,
        group_by: vec!["user".to_string()],
        id: id.to_string(),
    };
    SigmaRule::new(
        id.to_string(),
        id.to_string(),
        RuleType::Correlation(CorrelationRule { inner, extra: Vec::new() }),
    )
}

fn named(mut rule: SigmaRule, name: &str) -> SigmaRule {
    rule.name = Some(name.to_string());
    rule
}

fn r1() -> SigmaRule {
    detecting("r1", LogSource::default().category("test"), "foo", "bar")
}

fn sorted(mut ids: Vec<String>) -> Vec<String> {
    ids.sort();
    ids
}

#[test]
fn simple_detection() {
    let mut collection = SigmaCollection::new();
    collection.add(r1()).unwrap();
    let source = LogSource::default().category("test");
    let event = Event::new(object(vec![("foo", "bar")])).logsource(source.clone());
    assert_eq!(collection.get_detection_matches(&event), vec!["r1"]);
    let event = Event::new(object(vec![("foo", "baz")])).logsource(source);
    assert!(collection.get_detection_matches(&event).is_empty());
}

#[test]
fn filtered_out_by_logsource() {
    let mut collection = SigmaCollection::new();
    collection.add(r1()).unwrap();
    let event = Event::new(object(vec![("foo", "bar")]))
        .logsource(LogSource::default().category("other"));
    assert!(collection.get_detection_matches(&event).is_empty());
    assert_eq!(collection.get_detection_matches_unfiltered(&event), vec!["r1"]);
}

#[test]
fn a_product_admits_its_own_events_and_events_without_a_logsource() {
    let mut collection = SigmaCollection::new();
    collection.add(detecting("w", LogSource::default().product("windows"), "foo", "bar")).unwrap();
    let data = || object(vec![("foo", "bar")]);
    let from = |source: LogSource| Event::new(data()).logsource(source);
    assert!(collection.get_detection_matches(&from(LogSource::default().product("linux"))).is_empty());
    assert_eq!(collection.get_detection_matches(&from(LogSource::default().product("windows"))), vec!["w"]);
    assert_eq!(collection.get_detection_matches(&Event::new(data())), vec!["w"]);
    assert_eq!(collection.get_detection_matches(&from(LogSource::default().category("any"))), vec!["w"]);
    assert!(collection
        .get_detection_matches(&from(LogSource::default().category("any").product("linux")))
        .is_empty());
}

#[test]
fn a_logsource_is_read_from_a_value() {
    let source = LogSource::from_value(&Value::Object(vec![
        ("category".to_string(), Value::String("process_creation".to_string())),
        ("product".to_string(), Value::Bool(true)),
        ("other".to_string(), Value::String("x".to_string())),
    ]));
    assert_eq!(source.category, Some("process_creation".to_string()));
    assert_eq!(source.product, None);
    assert_eq!(source.service, None);
    let none = LogSource::from_value(&Value::String("category".to_string()));
    assert_eq!(none.category, None);
    let made = LogSource::new(Some("c".to_string()), None, Some("s".to_string()));
    assert_eq!(made.category, Some("c".to_string()));
    assert_eq!(made.product, None);
    assert_eq!(made.service, Some("s".to_string()));
    let built = LogSource::default().category("a").product("b").service("c").category("d");
    assert_eq!(built.category, Some("d".to_string()));
    assert_eq!(built.product, Some("b".to_string()));
    assert_eq!(built.service, Some("c".to_string()));
}

#[test]
fn the_filter_lists_the_rules_that_a_logsource_admits() {
    let mut filter = Filter::new();
    filter.add(&detecting("all", LogSource::default(), "a", "b"));
    filter.add(&detecting("win", LogSource::default().product("windows"), "a", "b"));
    filter.add(&detecting(
        "winsec",
        LogSource::default().product("windows").service("security"),
        "a",
        "b",
    ));
    filter.add(&detecting("lin", LogSource::default().product("linux"), "a", "b"));
    filter.add(&counting("corr", vec!["all"], 1));
    assert_eq!(filter.entries.len(), 4);
    assert_eq!(filter.filter(&LogSource::default()), vec!["all", "win", "winsec", "lin"]);
    assert_eq!(
        filter.filter(&LogSource::default().product("windows")),
        vec!["all", "win", "winsec"]
    );
    assert_eq!(filter.filter(&LogSource::default().product("linux")), vec!["all", "lin"]);
    assert_eq!(filter.filter(&LogSource::default().product("mac")), vec!["all"]);
    assert_eq!(
        filter.filter(&LogSource::default().product("windows").service("dns")),
        vec!["all", "win"]
    );
    assert_eq!(
        filter.filter(&LogSource::default().service("security")),
        vec!["all", "win", "winsec", "lin"]
    );
    assert!(axis_match(&None, &Some("x".to_string())));
    assert!(axis_match(&Some("x".to_string()), &None));
    assert!(!axis_match(&Some("x".to_string()), &Some("X".to_string())));
}

#[test]
fn an_id_entered_twice_is_listed_under_both_logsources() {
    let mut filter = Filter::new();
    filter.add(&detecting("twice", LogSource::default().category("a").product("x"), "a", "b"));
    filter.add(&detecting("once", LogSource::default().category("a"), "a", "b"));
    filter.add(&detecting("twice", LogSource::default().category("b").product("y"), "a", "b"));
    let query = |category: &str, product: &str| {
        filter.filter(&LogSource::default().category(category).product(product))
    };
    assert_eq!(query("a", "x"), vec!["twice", "once"]);
    assert_eq!(query("b", "y"), vec!["twice"]);
    assert_eq!(query("a", "y"), vec!["twice", "once"]);
    assert_eq!(query("a", "z"), vec!["once"]);
    assert!(query("c", "x").is_empty());
    assert_eq!(filter.filter(&LogSource::default()), vec!["twice", "once"]);
}

#[test]
fn the_same_rules_in_another_order_match_the_same_set() {
    let rules = || {
        vec![
            detecting("a", LogSource::default(), "foo", "bar"),
            detecting("b", LogSource::default().product("windows"), "foo", "bar"),
            detecting("c", LogSource::default(), "foo", "baz"),
            detecting("d", LogSource::default().product("linux"), "foo", "*"),
        ]
    };
    let forward = SigmaCollection::try_from(rules()).unwrap();
    let mut reversed = rules();
    reversed.reverse();
    let backward = SigmaCollection::try_from(reversed).unwrap();
    for source in [LogSource::default(), LogSource::default().product("linux")] {
        let event = Event::new(object(vec![("foo", "bar")])).logsource(source);
        let one = forward.get_detection_matches(&event);
        let other = backward.get_detection_matches(&event);
        assert_ne!(one, other);
        assert_eq!(sorted(one.clone()), sorted(other));
        assert_eq!(forward.get_detection_matches(&event), one);
    }
}

#[test]
fn an_id_is_held_once() {
    let mut collection = SigmaCollection::new();
    collection.add(r1()).unwrap();
    let again = detecting("r1", LogSource::default(), "other", "rule");
    match collection.add(again) {
        Err(CollectionError::DuplicateId(id)) => assert_eq!(id, "r1"),
        other => panic!("{:?}", other),
    }
    assert_eq!(collection.len(), 1);
    let event = Event::new(object(vec![("other", "rule")]));
    assert!(collection.get_detection_matches(&event).is_empty());
    match SigmaCollection::try_from(vec![r1(), detecting("r2", LogSource::default(), "a", "b"), r1()]) {
        Err(CollectionError::DuplicateId(id)) => assert_eq!(id, "r1"),
        other => panic!("{:?}", other.map(|c| c.len())),
    }
}

#[test]
fn a_reference_has_to_mean_a_rule() {
    let mut collection = SigmaCollection::new();
    collection.add(r1()).unwrap();
    match collection.add(counting("c", vec!["r1", "nowhere"], 1)) {
        Err(CollectionError::DependencyMissing(rule, reference)) => {
            assert_eq!(rule, "c");
            assert_eq!(reference, "nowhere");
        }
        other => panic!("{:?}", other),
    }
    assert_eq!(collection.len(), 1);
    assert!(collection.get("c").is_none());
    collection.add(counting("c", vec!["r1"], 1)).unwrap();
    assert_eq!(collection.len(), 2);
    assert_eq!(collection.get("c").unwrap().id, "c");
    assert!(collection.get("r1").is_some());
    assert!(collection.get("R1").is_none());
}

#[test]
fn a_cycle_is_refused() {
    let mut collection = SigmaCollection::new();
    collection.add(r1()).unwrap();
    assert!(matches!(
        collection.add(counting("self", vec!["self"], 1)),
        Err(CollectionError::DependencyCycle)
    ));
    assert_eq!(collection.len(), 1);
    assert!(matches!(
        collection.add_all(vec![counting("a", vec!["b"], 1), counting("b", vec!["a"], 1)]),
        Err(CollectionError::DependencyCycle)
    ));
    assert_eq!(collection.len(), 1);
    assert!(matches!(
        collection.add_all(vec![
            counting("a", vec!["r1", "c"], 1),
            counting("b", vec!["a"], 1),
            counting("c", vec!["b"], 1),
        ]),
        Err(CollectionError::DependencyCycle)
    ));
    assert_eq!(collection.len(), 1);
    collection
        .add_all(vec![
            counting("c", vec!["b"], 1),
            counting("b", vec!["a"], 1),
            counting("a", vec!["r1"], 1),
        ])
        .unwrap();
    assert_eq!(collection.len(), 4);
    let ids: Vec<String> = collection.into_rules().into_iter().map(|r| r.id).collect();
    assert_eq!(ids, vec!["r1", "c", "b", "a"]);
}

#[test]
fn correlations_follow_their_dependencies() {
    let collection = SigmaCollection::try_from(vec![
        counting("third", vec!["second"], 1),
        counting("second", vec!["first"], 2),
        counting("first", vec!["r1"], 1),
        counting("apart", vec!["r2"], 1),
        r1(),
        detecting("r2", LogSource::default(), "never", "there"),
    ])
    .unwrap();
    let mut backend = MemBackend::new();
    collection.init(&mut backend).unwrap();
    let event = Event::new(object(vec![("foo", "bar"), ("user", "alice")]));
    assert_eq!(collection.get_matches(&mut backend, &event).unwrap(), vec!["r1", "first"]);
    assert_eq!(
        collection.get_matches(&mut backend, &event).unwrap(),
        vec!["r1", "first", "second", "third"]
    );
    let quiet = Event::new(object(vec![("foo", "none"), ("user", "alice")]));
    assert!(collection.get_matches(&mut backend, &quiet).unwrap().is_empty());
    assert_eq!(
        collection.get_matches_unfiltered(&mut backend, &event).unwrap(),
        vec!["r1", "first", "second", "third"]
    );
}

#[test]
fn event_count_by_group() {
    let collection = SigmaCollection::try_from(vec![
        detecting("d", LogSource::default(), "foo", "bar"),
        counting("c", vec!["d"], 2),
    ])
    .unwrap();
    let mut backend = MemBackend::new();
    collection.init(&mut backend).unwrap();
    let alice = Event::new(object(vec![("foo", "bar"), ("user", "alice")]));
    let bob = Event::new(object(vec![("foo", "bar"), ("user", "bob")]));
    assert_eq!(collection.get_matches(&mut backend, &alice).unwrap(), vec!["d"]);
    assert_eq!(collection.get_matches(&mut backend, &alice).unwrap(), vec!["d", "c"]);
    assert_eq!(collection.get_matches(&mut backend, &bob).unwrap(), vec!["d"]);
    backend.advance(600);
    assert_eq!(collection.get_matches(&mut backend, &alice).unwrap(), vec!["d"]);
}

#[test]
fn value_count_by_group() {
    let inner = Correlation {
        correlation_type: CorrelationType::ValueCount(ValueCount {
            condition: ValueCondition { condition: Condition::Gte(2), field: "user".to_string() },
        }),
        rules: vec!["d".to_string()],
        timespan: 600,
        group_by: vec!["host".to_string()],
        id: "c".to_string(),
    };
    let c = SigmaRule::new(
        "c".to_string(),
        "c".to_string(),
        RuleType::Correlation(CorrelationRule { inner, extra: Vec::new() }),
    );
    let collection =
        SigmaCollection::try_from(vec![detecting("d", LogSource::default(), "baz", "quux"), c])
            .unwrap();
    let mut backend = MemBackend::new();
    collection.init(&mut backend).unwrap();
    let event = |host: &str, user: &str| {
        Event::new(object(vec![("baz", "quux"), ("host", host), ("user", user)]))
    };
    assert_eq!(collection.get_matches(&mut backend, &event("h1", "u1")).unwrap(), vec!["d"]);
    assert_eq!(collection.get_matches(&mut backend, &event("h1", "u1")).unwrap(), vec!["d"]);
    assert_eq!(collection.get_matches(&mut backend, &event("h1", "u2")).unwrap(), vec!["d", "c"]);
    assert_eq!(collection.get_matches(&mut backend, &event("h2", "u3")).unwrap(), vec!["d"]);
}

#[test]
fn two_of_three_selections() {
    let detection = mapping(vec![
        ("s1", mapping(vec![("foo", text("bar"))])),
        ("s2", mapping(vec![("second", text("baz"))])),
        ("s3", mapping(vec![("third", text("quux"))])),
        ("condition", text("2 of s*")),
    ]);
    let body = DetectionRule::new(LogSource::default(), detection).unwrap();
    assert!(!body.is_match(&object(vec![("foo", "bar")])));
    assert!(body.is_match(&object(vec![("foo", "bar"), ("third", "quux")])));
    assert!(body.is_match(&object(vec![("foo", "bar"), ("second", "baz"), ("third", "quux")])));
    assert!(!body.is_match(&object(vec![("second", "nothing"), ("third", "quux")])));
}

#[test]
fn a_rule_may_be_referred_to_by_name() {
    let collection = SigmaCollection::try_from(vec![
        counting("c", vec!["login"], 1),
        named(detecting("d", LogSource::default(), "foo", "bar"), "login"),
    ])
    .unwrap();
    let mut backend = MemBackend::new();
    collection.init(&mut backend).unwrap();
    let event = Event::new(object(vec![("foo", "bar"), ("user", "alice")]));
    assert_eq!(collection.get_matches(&mut backend, &event).unwrap(), vec!["d", "c"]);
}

#[test]
fn an_id_goes_before_a_name_and_the_last_name_wins() {
    let collection = SigmaCollection::try_from(vec![
        named(detecting("x", LogSource::default(), "foo", "x"), "d"),
        detecting("d", LogSource::default(), "foo", "d"),
        named(detecting("first", LogSource::default(), "foo", "first"), "twice"),
        named(detecting("last", LogSource::default(), "foo", "last"), "twice"),
        counting("by_id", vec!["d"], 1),
        counting("by_name", vec!["twice"], 1),
    ])
    .unwrap();
    let mut backend = MemBackend::new();
    collection.init(&mut backend).unwrap();
    let event = |value: &str| Event::new(object(vec![("foo", value), ("user", "alice")]));
    assert_eq!(collection.get_matches(&mut backend, &event("d")).unwrap(), vec!["d", "by_id"]);
    assert_eq!(collection.get_matches(&mut backend, &event("x")).unwrap(), vec!["x"]);
    assert_eq!(
        collection.get_matches(&mut backend, &event("last")).unwrap(),
        vec!["last", "by_name"]
    );
    assert_eq!(collection.get_matches(&mut backend, &event("first")).unwrap(), vec!["first"]);
}

#[test]
fn the_backend_registers_each_correlation_once() {
    let collection = SigmaCollection::try_from(vec![
        r1(),
        counting("c1", vec!["r1"], 1),
        counting("c2", vec!["r1"], 1),
    ])
    .unwrap();
    let mut backend = MemBackend::new();
    let event = Event::new(object(vec![("foo", "bar"), ("user", "alice")]))
        .logsource(LogSource::default().category("test"));
    let failed = collection.get_matches(&mut backend, &event).unwrap_err();
    assert_eq!(failed.error, BackendError::StateError);
    assert_eq!(failed.detections, vec!["r1"]);
    assert_eq!(collection.init(&mut backend), Ok(()));
    assert_eq!(backend.states.len(), 2);
    assert_eq!(collection.init(&mut backend), Err(BackendError::StateError));
    assert_eq!(backend.states.len(), 2);
    let all = collection.get_matches(&mut backend, &event).unwrap();
    assert_eq!(all[0], "r1");
    assert_eq!(sorted(all), vec!["c1", "c2", "r1"]);
    let mut half = MemBackend::new();
    half.register_state(&"c2".to_string(), 1).unwrap();
    assert_eq!(collection.init(&mut half), Err(BackendError::StateError));
    assert_eq!(half.states.len(), 1);
}

#[test]
fn an_event_without_the_group_field_touches_no_state() {
    let collection =
        SigmaCollection::try_from(vec![r1(), counting("c", vec!["r1"], 1)]).unwrap();
    let mut backend = MemBackend::new();
    collection.init(&mut backend).unwrap();
    let event = Event::new(object(vec![("foo", "bar")]));
    assert_eq!(collection.get_matches(&mut backend, &event).unwrap(), vec!["r1"]);
    assert!(backend.store.pending.is_empty());
    let mut prior = vec!["r1".to_string()];
    let with_user = Event::new(object(vec![("user", "alice")]));
    collection.push_correlation_matches(&mut backend, &with_user, &mut prior).unwrap();
    assert_eq!(prior, vec!["r1", "c"]);
    let mut nothing: Vec<String> = Vec::new();
    collection.push_correlation_matches(&mut backend, &with_user, &mut nothing).unwrap();
    assert!(nothing.is_empty());
}

#[test]
fn severity_of_a_level() {
    let mut rule = r1();
    assert_eq!(rule.severity_id(), 0);
    for (level, id) in [
        ("informational", 1),
        ("low", 2),
        ("medium", 3),
        ("high", 4),
        ("critical", 5),
        ("unheard", 99),
        ("High", 99),
    ] {
        rule.level = Some(level.to_string());
        assert_eq!(rule.severity_id(), id);
    }
    assert!(rule.same_rule(&r1()));
    let c = counting("rule-id", vec!["r1"], 1);
    match &c.rule {
        RuleType::Correlation(body) => {
            assert_eq!(body.id(), "rule-id");
            assert_eq!(body.rules(), &vec!["r1".to_string()]);
        }
        RuleType::Detection(_) => panic!("a correlation was built"),
    }
    let inner = Correlation {
        correlation_type: CorrelationType::Temporal,
        rules: Vec::new(),
        timespan: 1,
        group_by: Vec::new(),
        id: String::new(),
    };
    let adopted = SigmaRule::new(
        "title".to_string(),
        "the-id".to_string(),
        RuleType::Correlation(CorrelationRule { inner, extra: Vec::new() }),
    );
    match &adopted.rule {
        RuleType::Correlation(body) => assert_eq!(body.id(), "the-id"),
        RuleType::Detection(_) => panic!("a correlation was built"),
    }
    assert!(!rule.same_rule(&detecting("r2", LogSource::default(), "a", "b")));
}
