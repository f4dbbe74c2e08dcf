use sigmars::collection::SigmaCollection;
use sigmars::correlation::rule::{
    Condition, ConditionOrList, Correlation, CorrelationRule, CorrelationType, EventCount,
    ValueCondition, ValueCount,
};
use sigmars::detection::DetectionRule;
use sigmars::event::{Event, LogSource};
use sigmars::rule::{RuleType, SigmaRule, Status};
use sigmars::value::{Number, Value};
use sigmars::yaml::Yaml;

fn cys(s: &str) -> Yaml {
    Yaml::String(s.to_string())
}

fn cyi(n: u64) -> Yaml {
    Yaml::Number(Number::PosInt(n))
}

fn cymap(entries: Vec<(&str, Yaml)>) -> Yaml {
    Yaml::Mapping(entries.into_iter().map(|(k, v)| (cys(k), v)).collect())
}

fn cjobj(entries: Vec<(&str, Value)>) -> Value {
    Value::Object(entries.into_iter().map(|(k, v)| (k.to_string(), v)).collect())
}

fn detection_rule(title: &str, id: &str, name: Option<&str>, logsource: LogSource, selection: Yaml) -> SigmaRule {
    let detection = cymap(vec![("selection", selection), ("condition", cys("selection"))]);
    let body = DetectionRule::new(logsource, detection).unwrap();
    let mut rule = SigmaRule::new(title.to_string(), id.to_string(), RuleType::Detection(body));
    rule.name = name.map(|n| n.to_string());
    rule
}

fn correlation_rule(
    title: &str,
    id: &str,
    name: Option<&str>,
    kind: CorrelationType,
    rules: Vec<&str>,
    group_by: Vec<&str>,
    timespan: u64,
) -> SigmaRule {
    let inner = Correlation {
        correlation_type: kind,
        rules: rules.into_iter().map(|r| r.to_string()).collect(),
        timespan,
        group_by: group_by.into_iter().map(|g| g.to_string()).collect(),
        id: id.to_string(),
    };
    let body = CorrelationRule { inner, extra: Vec::new() };
    let mut rule = SigmaRule::new(title.to_string(), id.to_string(), RuleType::Correlation(body));
    rule.name = name.map(|n| n.to_string());
    rule
}

fn windows_security() -> LogSource {
    LogSource::default().product("windows").service("security")
}

fn collection_rules() -> Vec<SigmaRule> {
    let mut first = correlation_rule(
        "Correlation - Multiple Failed Logins Followed by Successful Login",
        "b180ead8-d58f-40b2-ae54-c8940995b9b6",
        None,
        CorrelationType::TemporalOrdered,
        vec!["a8418a5a-5fc4-46b5-b23b-6c73beb19d41", "successful_login"],
        vec!["User"],
        600,
    );
    first.status = Some(Status::from_name("experimental"));
    first.description = Some(
        "Detects multiple failed logins by a single user followed by a successful login of that user"
            .to_string(),
    );
    first.references = Some(vec!["https://reference.com".to_string()]);
    first.author = Some("Florian Roth (Nextron Systems)".to_string());
    first.date = Some("2023-06-16".to_string());
    first.falsepositives = Some(vec!["Unlikely".to_string()]);
    first.level = Some("high".to_string());
    vec![
        first,
        correlation_rule(
            "Multiple failed logons",
            "a8418a5a-5fc4-46b5-b23b-6c73beb19d41",
            Some("multiple_failed_login"),
            CorrelationType::EventCount(EventCount {
                condition: ConditionOrList::Condition(Condition::Gte(2)),
            }),
            vec!["53ba33fd-3a50-4468-a5ef-c583635cfa92"],
            vec!["User"],
            600,
        ),
        correlation_rule(
            "Multiple user failed logons from one machine",
            "5ffc8414-16c3-488e-852c-ed64b9b177f6",
            Some("multiple_machine_failed_login"),
            CorrelationType::ValueCount(ValueCount {
                condition: ValueCondition { condition: Condition::Gte(2), field: "User".to_string() },
            }),
            vec!["53ba33fd-3a50-4468-a5ef-c583635cfa92"],
            vec!["Host"],
            600,
        ),
        detection_rule(
            "Single failed login",
            "53ba33fd-3a50-4468-a5ef-c583635cfa92",
            Some("failed_login"),
            windows_security(),
            cymap(vec![("EventID", Yaml::Sequence(vec![cyi(529), cyi(4625)]))]),
        ),
        detection_rule(
            "Successful login",
            "4d0a2c83-c62c-4ed4-b475-c7e23a9269b8",
            Some("successful_login"),
            windows_security(),
            cymap(vec![("EventID", Yaml::Sequence(vec![cyi(528), cyi(4624)]))]),
        ),
        correlation_rule(
            "Google Update Service Install and Run",
            "c3d98fc1-ecc8-44e1-9601-bb456834e0df",
            None,
            CorrelationType::Temporal,
            vec![
                "0c0b8c97-14c1-4f88-b304-0a2d77e0b1ba",
                "6c65378f-a59b-4a9c-ac8b-b1c5ff3ca111",
            ],
            vec!["Host"],
            300,
        ),
        detection_rule(
            "Google Update Service Install",
            "0c0b8c97-14c1-4f88-b304-0a2d77e0b1ba",
            None,
            windows_security(),
            cymap(vec![("EventID", cyi(7045)), ("ServiceName", cys("Google Update"))]),
        ),
        detection_rule(
            "Google Update Service Run",
            "6c65378f-a59b-4a9c-ac8b-b1c5ff3ca111",
            None,
            windows_security(),
            cymap(vec![(
                "Image",
                Yaml::Sequence(vec![cys("C:\\Program Files(x86)\\Google\\GoogleUpdate.exe")]),
            )]),
        ),
    ]
}

fn login_event(event_id: u64, logsource: Option<(&str, &str)>) -> Event {
    let data = cjobj(vec![
        ("EventID", Value::Number(Number::PosInt(event_id))),
        ("User", Value::String("test".to_string())),
    ]);
    match logsource {
        Some((axis, value)) => {
            let metadata = vec![(
                "logsource".to_string(),
                cjobj(vec![(axis, Value::String(value.to_string()))]),
            )];
            Event::new(data).logsource(LogSource::default().product(value)).metadata(metadata)
        }
        None => Event::new(data),
    }
}

#[test]
fn test_collection() {
    let collection = SigmaCollection::try_from(collection_rules()).unwrap();
    assert!(collection.len() == 8);
}

#[test]
fn test_filter_matching_metadata() {
    let collection = SigmaCollection::try_from(collection_rules()).unwrap();

    let event = login_event(4624, Some(("product", "windows")));

    let res = collection.get_detection_matches(&event);
    assert!(res.len() == 1);
}

#[test]
fn test_filter_no_match_with_metadata() {
    let collection = SigmaCollection::try_from(collection_rules()).unwrap();

    let event = login_event(4624, Some(("product", "linux")));
    let res = collection.get_detection_matches(&event);
    assert!(res.len() == 0);
}

#[test]
fn test_filter_no_metadata() {
    let collection = SigmaCollection::try_from(collection_rules()).unwrap();

    let event = login_event(4624, None);
    let res = collection.get_detection_matches(&event);
    assert!(res.len() == 1);
}

fn something_rule() -> SigmaRule {
    let mut rule = detection_rule(
        "Successful login",
        "4d0a2c83-c62c-4ed4-b475-c7e23a9269b8",
        Some("successful_login"),
        LogSource::default().category("something"),
        cymap(vec![("EventID", cyi(4624))]),
    );
    rule.description = Some("Detects a successful login".to_string());
    rule
}

#[test]
fn test_no_filter_with_metadata() {
    let collection = SigmaCollection::try_from(vec![something_rule()]).unwrap();

    let event = login_event(4624, Some(("product", "windows")));
    let res = collection.get_detection_matches(&event);
    assert!(res.len() == 1);
}

#[test]
fn test_no_filter_no_metadata() {
    let collection = SigmaCollection::try_from(vec![something_rule()]).unwrap();

    let event = login_event(4624, None);
    let res = collection.get_detection_matches(&event);
    assert!(res.len() == 1);
}

#[test]
fn test_filter_none_isolation() {
    let mut second = detection_rule(
        "Successful login",
        "4d0a2c83-c62c-4ed4-b475-c7e23a9269b8",
        Some("successful_login"),
        LogSource::default().product("windows"),
        cymap(vec![("EventID", cyi(4624))]),
    );
    second.description = Some("Detects a successful login".to_string());
    let collection = SigmaCollection::try_from(vec![
        detection_rule(
            "Single failed login",
            "53ba33fd-3a50-4468-a5ef-c583635cfa92",
            Some("failed_login"),
            windows_security(),
            cymap(vec![("EventID", cyi(4625))]),
        ),
        second,
    ])
    .unwrap();

    let event = login_event(4625, Some(("product", "windows")));
    let res = collection.get_detection_matches(&event);
    assert!(
        res.len() == 1,
        "a rule's filter in a collection should not affect another rule"
    );
}
