use sigmars::correlation::rule::{
    next_index, resolve_reference, Condition, ConditionOrList, Correlation, CorrelationRule,
    CorrelationType, EventCount, Lookup, ValueCondition, ValueCount,
};
use sigmars::correlation::state::{
    occurrences, same_group, BackendError, Discriminator, Key, MemBackend, MemBackendImpl,
    MemState,
};
use sigmars::value::{Number, Value};

fn group(user: &str) -> Vec<(String, Value)> {
    vec![("user".to_string(), Value::String(user.to_string()))]
}

fn events(user: &str) -> Key {
    Key::EventCount(group(user))
}

fn values(host: &str, user: &str) -> Key {
    Key::ValueCount(
        vec![("host".to_string(), Value::String(host.to_string()))],
        Discriminator::Field("user".to_string(), Value::String(user.to_string())),
    )
}

fn rule(kind: CorrelationType, rules: Vec<&str>, group_by: Vec<&str>) -> Correlation {
    Correlation {
        correlation_type: kind,
        rules: rules.into_iter().map(|r| r.to_string()).collect(),
        timespan: 600,
        group_by: group_by.into_iter().map(|g| g.to_string()).collect(),
        id: "c".to_string(),
    }
}

fn directory(list: Vec<(&str, Option<&str>)>) -> Vec<(String, Option<String>)> {
    list.into_iter().map(|(id, name)| (id.to_string(), name.map(|n| n.to_string()))).collect()
}

fn plain() -> Vec<(String, Option<String>)> {
    directory(vec![("d", None), ("e", None), ("c", None), ("first", None), ("second", None)])
}

fn names(list: Vec<&str>) -> Vec<String> {
    list.into_iter().map(|n| n.to_string()).collect()
}

fn data(entries: Vec<(&str, &str)>) -> Value {
    Value::Object(
        entries.into_iter().map(|(k, v)| (k.to_string(), Value::String(v.to_string()))).collect(),
    )
}

#[test]
fn event_count_counts_the_increments_of_a_group() {
    let mut state = MemBackendImpl::new();
    let id = "r".to_string();
    assert_eq!(state.count(&id, &events("alice")), 0);
    for n in 1..=5u64 {
        assert_eq!(state.incr(&id, 600, &events("alice")), n);
        assert_eq!(state.count(&id, &events("alice")), n);
    }
    assert_eq!(state.count(&id, &events("bob")), 0);
    assert_eq!(state.incr(&id, 600, &events("bob")), 1);
    assert_eq!(state.count(&"other".to_string(), &events("alice")), 0);
    assert_eq!(state.count(&id, &events("alice")), 5);
}

#[test]
fn value_count_counts_distinct_values() {
    let mut state = MemBackendImpl::new();
    let id = "r".to_string();
    assert_eq!(state.incr(&id, 600, &values("h1", "u1")), 1);
    assert_eq!(state.incr(&id, 600, &values("h1", "u1")), 1);
    assert_eq!(state.incr(&id, 600, &values("h1", "u2")), 2);
    assert_eq!(state.incr(&id, 600, &values("h1", "u1")), 2);
    assert_eq!(state.incr(&id, 600, &values("h2", "u1")), 1);
    assert_eq!(state.incr(&id, 600, &values("h1", "u3")), 3);
    assert_eq!(state.count(&id, &values("h1", "u1")), 3);
    assert_eq!(state.count(&id, &values("h1", "u2")), 1);
    assert_eq!(state.count(&id, &values("h1", "u9")), 0);
}

#[test]
fn values_are_told_apart_by_content() {
    let mut state = MemBackendImpl::new();
    let id = "r".to_string();
    let key = |v: Value| {
        Key::ValueCount(Vec::new(), Discriminator::Field("f".to_string(), v))
    };
    assert_eq!(state.incr(&id, 1, &key(Value::String("1".to_string()))), 1);
    assert_eq!(state.incr(&id, 1, &key(Value::Number(Number::PosInt(1)))), 2);
    assert_eq!(state.incr(&id, 1, &key(Value::Number(Number::NegInt(1)))), 2);
    assert_eq!(state.incr(&id, 1, &key(Value::Null)), 3);
    assert_eq!(
        state.incr(&id, 1, &Key::ValueCount(Vec::new(), Discriminator::Rule("f".to_string()))),
        4
    );
}

#[test]
fn increments_expire_after_the_timespan() {
    let mut state = MemBackendImpl::new();
    let id = "r".to_string();
    state.advance(100);
    assert_eq!(state.incr(&id, 10, &events("alice")), 1);
    state.advance(105);
    assert_eq!(state.incr(&id, 10, &events("alice")), 2);
    state.advance(109);
    assert_eq!(state.count(&id, &events("alice")), 2);
    state.advance(110);
    assert_eq!(state.count(&id, &events("alice")), 1);
    state.advance(114);
    assert_eq!(state.count(&id, &events("alice")), 1);
    state.advance(115);
    assert_eq!(state.count(&id, &events("alice")), 0);
    assert_eq!(state.pending.len(), 0);
    assert_eq!(state.incr(&id, 10, &events("alice")), 1);
}

#[test]
fn after_twice_the_timespan_a_counter_reads_zero() {
    let mut state = MemBackendImpl::new();
    let id = "r".to_string();
    let timespan = 600;
    state.advance(1000);
    state.incr(&id, timespan, &events("alice"));
    state.incr(&id, timespan, &values("h1", "u1"));
    state.advance(1000 + timespan - 1);
    assert_eq!(state.count(&id, &events("alice")), 1);
    state.incr(&"other".to_string(), 10 * timespan, &events("alice"));
    state.advance(1000 + 2 * timespan);
    assert_eq!(state.count(&id, &events("alice")), 0);
    assert_eq!(state.count(&id, &values("h1", "u1")), 0);
    assert_eq!(state.count(&"other".to_string(), &events("alice")), 1);
    assert_eq!(state.incr(&id, timespan, &values("h1", "u2")), 1);
}

#[test]
fn the_clock_does_not_run_backwards() {
    let mut state = MemBackendImpl::new();
    let id = "r".to_string();
    state.advance(50);
    state.advance(20);
    assert_eq!(state.now, 50);
    state.incr(&id, 10, &events("alice"));
    assert_eq!(state.pending[0].deadline, 60);
    state.advance(u64::MAX - 1);
    state.incr(&id, 10, &events("alice"));
    assert_eq!(state.pending[0].deadline, u64::MAX);
    assert_eq!(state.count(&id, &events("alice")), 1);
}

#[test]
fn a_rule_is_registered_once() {
    let mut backend = MemBackend::new();
    let body = CorrelationRule {
        inner: rule(CorrelationType::Temporal, vec!["a"], vec![]),
        extra: Vec::new(),
    };
    assert_eq!(backend.register(&body), Ok(()));
    assert_eq!(backend.register(&body), Err(BackendError::StateError));
    assert_eq!(backend.states.len(), 1);
    let state = backend.find_state("c").unwrap();
    assert_eq!(state.rule_id, "c");
    assert_eq!(state.timespan, 600);
    assert!(backend.find_state("d").is_none());
    let handle = MemState::new(&"c".to_string(), 5).unwrap();
    assert_eq!(handle.incr(&mut backend.store, &events("alice")), 1);
    assert_eq!(handle.count(&backend.store, &events("alice")), 1);
    backend.advance(5);
    assert_eq!(handle.count(&backend.store, &events("alice")), 0);
}

#[test]
fn a_rule_without_a_state_is_an_error() {
    let mut backend = MemBackend::new();
    let c = rule(
        CorrelationType::EventCount(EventCount {
            condition: ConditionOrList::Condition(Condition::Gte(1)),
        }),
        vec!["d"],
        vec!["user"],
    );
    let event = data(vec![("user", "alice")]);
    assert_eq!(c.is_match(&mut backend, &event, &names(vec!["d"]), &plain()), Err(BackendError::StateError));
    assert_eq!(c.is_match(&mut backend, &event, &names(vec![]), &plain()), Err(BackendError::StateError));
    assert_eq!(c.is_match(&mut backend, &data(vec![]), &names(vec!["d"]), &plain()), Ok(false));
    backend.register_state(&"c".to_string(), 600).unwrap();
    assert_eq!(c.is_match(&mut backend, &event, &names(vec![]), &plain()), Ok(false));
    assert_eq!(backend.store.pending.len(), 0);
    assert_eq!(c.is_match(&mut backend, &event, &names(vec!["d"]), &plain()), Ok(true));
    assert_eq!(backend.store.pending.len(), 1);
}

#[test]
fn a_reference_by_name_counts() {
    let mut backend = MemBackend::new();
    let c = rule(
        CorrelationType::EventCount(EventCount {
            condition: ConditionOrList::Condition(Condition::Gte(1)),
        }),
        vec!["n"],
        vec!["user"],
    );
    backend.register_state(&"c".to_string(), 600).unwrap();
    let event = data(vec![("user", "alice")]);
    let rules = directory(vec![("d", Some("n")), ("e", None), ("c", None)]);
    assert_eq!(c.is_match(&mut backend, &event, &names(vec!["e"]), &rules), Ok(false));
    assert_eq!(backend.store.pending.len(), 0);
    assert_eq!(c.is_match(&mut backend, &event, &names(vec!["d"]), &rules), Ok(true));
    assert_eq!(backend.store.pending.len(), 1);
    assert_eq!(c.is_match(&mut backend, &event, &names(vec!["n"]), &rules), Ok(false));
    assert_eq!(c.is_match(&mut backend, &event, &names(vec!["d"]), &plain()), Ok(false));
    assert_eq!(backend.store.pending.len(), 1);
}

#[test]
fn an_id_goes_before_a_name_and_the_last_rule_of_a_name_is_meant() {
    let rules = directory(vec![
        ("a", Some("x")),
        ("x", Some("a")),
        ("b", Some("twice")),
        ("c", Some("twice")),
    ]);
    let meant = |reference: &str| resolve_reference(&rules, reference).map(|id| id.as_str());
    assert_eq!(meant("x"), Some("x"));
    assert_eq!(meant("a"), Some("a"));
    assert_eq!(meant("twice"), Some("c"));
    assert_eq!(meant("nothing"), None);
    let c = rule(CorrelationType::Temporal, vec!["twice", "x", "nothing", "b"], vec![]);
    assert_eq!(c.present(&names(vec!["b", "x"]), &rules), vec!["x", "b"]);
    assert_eq!(c.present(&names(vec!["c", "a"]), &rules), vec!["twice"]);
    assert!(c.present(&names(vec![]), &rules).is_empty());
}

#[test]
fn the_order_of_the_fields_does_not_tell_groups_apart() {
    let pair = |k: &str, v: &str| (k.to_string(), Value::String(v.to_string()));
    let one = vec![pair("host", "h1"), pair("user", "alice")];
    let other = vec![pair("user", "alice"), pair("host", "h1")];
    let crossed = vec![pair("host", "alice"), pair("user", "h1")];
    let twice = vec![pair("host", "h1"), pair("host", "h1")];
    let mixed = vec![pair("host", "h1"), pair("user", "alice"), pair("host", "h1")];
    assert!(same_group(&one, &other));
    assert!(same_group(&one, &one));
    assert!(!same_group(&one, &crossed));
    assert!(!same_group(&one, &twice));
    assert!(!same_group(&one, &mixed));
    assert!(!same_group(&twice, &vec![pair("host", "h1"), pair("user", "alice")]));
    assert!(same_group(&Vec::new(), &Vec::new()));
    assert_eq!(occurrences(&mixed, "host", &Value::String("h1".to_string())), 2);
    let mut state = MemBackendImpl::new();
    let id = "r".to_string();
    assert_eq!(state.incr(&id, 600, &Key::EventCount(one)), 1);
    assert_eq!(state.count(&id, &Key::EventCount(other)), 1);
    assert_eq!(state.count(&id, &Key::EventCount(crossed)), 0);
    let by = |group: Vec<(String, Value)>, user: &str| {
        Key::ValueCount(group, Discriminator::Rule(user.to_string()))
    };
    let ab = || vec![pair("a", "1"), pair("b", "2")];
    let ba = || vec![pair("b", "2"), pair("a", "1")];
    assert_eq!(state.incr(&id, 600, &by(ab(), "u1")), 1);
    assert_eq!(state.incr(&id, 600, &by(ba(), "u2")), 2);
    assert_eq!(state.incr(&id, 600, &by(ba(), "u1")), 2);
    assert_eq!(state.count(&id, &by(ba(), "u1")), 2);
}

#[test]
fn the_next_request() {
    let ordered = rule(CorrelationType::TemporalOrdered, vec!["first", "second"], vec!["user"]);
    let unordered = rule(CorrelationType::Temporal, vec!["first", "second"], vec!["user"]);
    let event = data(vec![("user", "alice")]);
    let plan = ordered.plan(&event, &names(vec![]), &plain()).unwrap();
    assert!(ordered.ordered());
    assert!(!unordered.ordered());
    assert_eq!(ordered.next_request(&plan, &vec![]), Some(0));
    assert_eq!(ordered.next_request(&plan, &vec![2]), Some(1));
    assert_eq!(ordered.next_request(&plan, &vec![0]), None);
    assert_eq!(ordered.next_request(&plan, &vec![2, 0]), None);
    assert_eq!(ordered.next_request(&plan, &vec![2, 1]), None);
    assert_eq!(unordered.next_request(&plan, &vec![0]), Some(1));
    assert_eq!(unordered.next_request(&plan, &vec![0, 0]), None);
    assert_eq!(next_index(true, 0, &vec![]), None);
    assert_eq!(next_index(false, 3, &vec![0, 0]), Some(2));
}

#[test]
fn conditions_of_counts() {
    assert!(Condition::Gt(2).is_match(3));
    assert!(!Condition::Gt(2).is_match(2));
    assert!(Condition::Gte(2).is_match(2));
    assert!(!Condition::Gte(2).is_match(1));
    assert!(Condition::Lt(2).is_match(1));
    assert!(!Condition::Lt(2).is_match(2));
    assert!(Condition::Lte(2).is_match(2));
    assert!(!Condition::Lte(2).is_match(3));
    assert!(Condition::Eq(2).is_match(2));
    assert!(!Condition::Eq(2).is_match(3));
    let between = ConditionOrList::List(vec![Condition::Gte(2), Condition::Lt(4)]);
    assert!(!between.is_match(1));
    assert!(between.is_match(2));
    assert!(between.is_match(3));
    assert!(!between.is_match(4));
    assert!(ConditionOrList::List(vec![]).is_match(0));
}

#[test]
fn an_event_count_within_bounds() {
    let mut backend = MemBackend::new();
    let c = rule(
        CorrelationType::EventCount(EventCount {
            condition: ConditionOrList::List(vec![Condition::Gte(2), Condition::Lte(3)]),
        }),
        vec!["d"],
        vec!["user"],
    );
    backend.register_state(&"c".to_string(), 600).unwrap();
    let event = data(vec![("user", "alice")]);
    let prior = names(vec!["d", "e"]);
    assert_eq!(c.is_match(&mut backend, &event, &prior, &plain()), Ok(false));
    assert_eq!(c.is_match(&mut backend, &event, &prior, &plain()), Ok(true));
    assert_eq!(c.is_match(&mut backend, &event, &prior, &plain()), Ok(true));
    assert_eq!(c.is_match(&mut backend, &event, &prior, &plain()), Ok(false));
}

#[test]
fn a_value_count_needs_the_counted_field() {
    let mut backend = MemBackend::new();
    let c = rule(
        CorrelationType::ValueCount(ValueCount {
            condition: ValueCondition { condition: Condition::Gte(2), field: "user".to_string() },
        }),
        vec!["d"],
        vec!["host"],
    );
    backend.register_state(&"c".to_string(), 600).unwrap();
    let prior = names(vec!["d"]);
    assert_eq!(c.is_match(&mut backend, &data(vec![("host", "h1")]), &prior, &plain()), Ok(false));
    assert_eq!(backend.store.pending.len(), 0);
    assert_eq!(
        c.is_match(&mut backend, &data(vec![("host", "h1"), ("user", "u1")]), &prior, &plain()),
        Ok(false)
    );
    assert_eq!(
        c.is_match(&mut backend, &data(vec![("host", "h1"), ("user", "u1")]), &prior, &plain()),
        Ok(false)
    );
    assert_eq!(
        c.is_match(&mut backend, &data(vec![("host", "h1"), ("user", "u2")]), &prior, &plain()),
        Ok(true)
    );
    assert_eq!(
        c.is_match(&mut backend, &data(vec![("host", "h2"), ("user", "u3")]), &prior, &plain()),
        Ok(false)
    );
}

#[test]
fn the_plan_of_a_temporal_correlation() {
    let c = rule(CorrelationType::Temporal, vec!["first", "second"], vec!["user"]);
    let event = data(vec![("user", "alice")]);
    let plan = c.plan(&event, &names(vec!["second"]), &plain()).unwrap();
    assert_eq!(plan.len(), 2);
    assert!(matches!(&plan[0], Lookup::Count(Key::ValueCount(_, Discriminator::Rule(r))) if r == "first"));
    assert!(matches!(&plan[1], Lookup::Incr(Key::ValueCount(_, Discriminator::Rule(r))) if r == "second"));
    assert!(c.plan(&data(vec![]), &names(vec!["second"]), &plain()).is_none());
    assert!(c.verdict(&vec![1, 3]));
    assert!(!c.verdict(&vec![1, 0]));
    assert!(!c.verdict(&vec![1]));
    assert!(!c.verdict(&vec![1, 1, 1]));
}

#[test]
fn requests_in_order_stop_at_the_first_zero() {
    let c = rule(CorrelationType::TemporalOrdered, vec!["first", "second"], vec!["user"]);
    let event = data(vec![("user", "alice")]);
    let plan = c.plan(&event, &names(vec!["second"]), &plain()).unwrap();
    let id = "c".to_string();
    let mut ordered = MemBackendImpl::new();
    assert_eq!(ordered.run(&id, 600, &plan, true), vec![0]);
    assert_eq!(ordered.pending.len(), 0);
    let mut unordered = MemBackendImpl::new();
    assert_eq!(unordered.run(&id, 600, &plan, false), vec![0, 1]);
    assert_eq!(unordered.pending.len(), 1);
}
