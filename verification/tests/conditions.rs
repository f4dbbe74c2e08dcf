use sigmars::detection::condition::{
    is_match, is_named_before, quantify, BoolOp, Condition, ConditionNode, ConditionParser,
    ParseError, XOfType,
};

fn statement(entries: Vec<(&str, bool)>) -> Vec<(String, bool)> {
    entries.into_iter().map(|(k, v)| (k.to_string(), v)).collect()
}

fn name_of(node: &ConditionNode) -> &str {
    match node {
        ConditionNode::Identifier(name) => name,
        _ => panic!("no name: {:?}", node),
    }
}

#[test]
fn and_binds_tighter_than_or() {
    let node = ConditionNode::from_str("a or b and c").unwrap();
    match node {
        ConditionNode::BoolOp { lhs, op: BoolOp::Or, rhs } => {
            assert_eq!(name_of(&lhs), "a");
            match *rhs {
                ConditionNode::BoolOp { lhs, op: BoolOp::And, rhs } => {
                    assert_eq!(name_of(&lhs), "b");
                    assert_eq!(name_of(&rhs), "c");
                }
                other => panic!("{:?}", other),
            }
        }
        other => panic!("{:?}", other),
    }
    let node = ConditionNode::from_str("a and b or c").unwrap();
    match node {
        ConditionNode::BoolOp { lhs, op: BoolOp::Or, rhs } => {
            assert!(matches!(*lhs, ConditionNode::BoolOp { op: BoolOp::And, .. }));
            assert_eq!(name_of(&rhs), "c");
        }
        other => panic!("{:?}", other),
    }
}

#[test]
fn not_binds_tighter_than_and() {
    let node = ConditionNode::from_str("not a and b").unwrap();
    match node {
        ConditionNode::BoolOp { lhs, op: BoolOp::And, rhs } => {
            match *lhs {
                ConditionNode::Not(inner) => assert_eq!(name_of(&inner), "a"),
                other => panic!("{:?}", other),
            }
            assert_eq!(name_of(&rhs), "b");
        }
        other => panic!("{:?}", other),
    }
}

#[test]
fn operators_group_to_the_right() {
    let node = ConditionNode::from_str("a and b and c").unwrap();
    match node {
        ConditionNode::BoolOp { lhs, op: BoolOp::And, rhs } => {
            assert_eq!(name_of(&lhs), "a");
            assert!(matches!(*rhs, ConditionNode::BoolOp { op: BoolOp::And, .. }));
        }
        other => panic!("{:?}", other),
    }
}

#[test]
fn brackets_group() {
    let node = ConditionNode::from_str("(a or b) and not (c)").unwrap();
    match node {
        ConditionNode::BoolOp { lhs, op: BoolOp::And, rhs } => {
            assert!(matches!(*lhs, ConditionNode::BoolOp { op: BoolOp::Or, .. }));
            assert!(matches!(*rhs, ConditionNode::Not(_)));
        }
        other => panic!("{:?}", other),
    }
}

#[test]
fn quantifiers() {
    match ConditionNode::from_str("2 of selection*").unwrap() {
        ConditionNode::XOf(XOfType::NOf(2), inner) => assert_eq!(name_of(&inner), "selection*"),
        other => panic!("{:?}", other),
    }
    match ConditionNode::from_str("all of sel_?").unwrap() {
        ConditionNode::XOf(XOfType::AllOf(), inner) => assert_eq!(name_of(&inner), "sel_?"),
        other => panic!("{:?}", other),
    }
    match ConditionNode::from_str("not 1 of a*").unwrap() {
        ConditionNode::Not(inner) => assert!(matches!(*inner, ConditionNode::XOf(XOfType::NOf(1), _))),
        other => panic!("{:?}", other),
    }
    assert_eq!(name_of(&ConditionNode::from_str("all").unwrap()), "all");
    assert_eq!(name_of(&ConditionNode::from_str("1").unwrap()), "1");
    assert_eq!(name_of(&ConditionNode::from_str("  spaced\t").unwrap()), "spaced");
}

#[test]
fn errors_carry_the_position() {
    let at = |text: &str| ConditionParser::parse(text).unwrap_err();
    assert_eq!(at(""), ParseError { position: 0 });
    assert_eq!(at("   "), ParseError { position: 3 });
    assert_eq!(at("a and"), ParseError { position: 5 });
    assert_eq!(at("a or "), ParseError { position: 5 });
    assert_eq!(at("(a"), ParseError { position: 2 });
    assert_eq!(at("(a or b"), ParseError { position: 7 });
    assert_eq!(at("a b"), ParseError { position: 2 });
    assert_eq!(at("a)"), ParseError { position: 1 });
    assert_eq!(at("a-b"), ParseError { position: 1 });
    assert_eq!(at("not"), ParseError { position: 3 });
    assert_eq!(at("1 of"), ParseError { position: 4 });
    assert_eq!(at("  99999999999999999999 of a*"), ParseError { position: 2 });
    assert!(Condition::new("a and (b or").is_err());
}

#[test]
fn evaluation() {
    let s = statement(vec![("a", true), ("b", false)]);
    let holds = |text: &str| Condition::new(text).unwrap().is_match(&s);
    assert!(holds("a"));
    assert!(!holds("b"));
    assert!(!holds("missing"));
    assert!(holds("not missing"));
    assert!(holds("a or b"));
    assert!(!holds("a and b"));
    assert!(holds("a and not b"));
    assert!(holds("b or not (a and b)"));
    assert!(!holds("not a or b"));
}

#[test]
fn quantifiers_count_the_selections_that_the_pattern_names() {
    let s = statement(vec![("sel1", true), ("sel2", false), ("sel3", true), ("other", true)]);
    let holds = |text: &str| Condition::new(text).unwrap().is_match(&s);
    assert!(holds("1 of sel*"));
    assert!(holds("2 of sel*"));
    assert!(!holds("3 of sel*"));
    assert!(holds("3 of *"));
    assert!(holds("0 of nothing*"));
    assert!(!holds("1 of nothing*"));
    assert!(!holds("all of sel*"));
    assert!(!holds("all of sel?"));
    assert!(holds("all of sel1"));
    assert!(holds("all of o*"));
    assert!(holds("all of nothing*"));
    assert!(!holds("1 of (sel1 or sel3)"));
    assert!(holds("all of (sel1)"));
    assert!(!holds("all of (sel2)"));
    assert!(holds("1 of sel1"));
    assert!(!holds("1 of sel2"));
}

#[test]
fn a_name_that_is_listed_twice_is_one_selection() {
    let s = statement(vec![("sel", true), ("sel", false), ("other", false), ("sel", true)]);
    let holds = |text: &str| Condition::new(text).unwrap().is_match(&s);
    assert!(holds("sel"));
    assert!(holds("1 of sel*"));
    assert!(!holds("2 of sel*"));
    assert!(holds("all of sel*"));
    assert!(holds("1 of *"));
    assert!(!holds("2 of *"));
    assert!(!holds("all of *"));
    let t = statement(vec![("sel", false), ("sel", true)]);
    assert!(!Condition::new("sel").unwrap().is_match(&t));
    assert!(!Condition::new("1 of sel").unwrap().is_match(&t));
    assert!(!Condition::new("all of sel").unwrap().is_match(&t));
    assert!(!is_named_before(&s, 0));
    assert!(is_named_before(&s, 1));
    assert!(!is_named_before(&s, 2));
    assert!(is_named_before(&s, 3));
}

#[test]
fn a_text_that_is_no_pattern_names_nothing() {
    let s = statement(vec![("sel1", true)]);
    assert!(!Condition::new("all of sel***").unwrap().is_match(&s));
    assert!(!Condition::new("0 of sel***").unwrap().is_match(&s));
    assert!(!is_match(&Vec::new(), &ConditionNode::from_str("all of ***").unwrap()));
}

#[test]
fn quantify_decides_from_the_picks() {
    let s = statement(vec![("a", true), ("b", false), ("c", true)]);
    assert!(quantify(&XOfType::NOf(2), true, &vec![true, true, true], &s));
    assert!(!quantify(&XOfType::NOf(3), true, &vec![true, true, true], &s));
    assert!(!quantify(&XOfType::NOf(2), true, &vec![true, true, false], &s));
    assert!(quantify(&XOfType::NOf(-1), true, &vec![false, false, false], &s));
    assert!(!quantify(&XOfType::NOf(0), false, &vec![true, true, true], &s));
    assert!(quantify(&XOfType::AllOf(), true, &vec![true, false, true], &s));
    assert!(!quantify(&XOfType::AllOf(), true, &vec![true, true, true], &s));
    assert!(quantify(&XOfType::AllOf(), true, &vec![false, false, false], &s));
    assert!(!quantify(&XOfType::AllOf(), false, &vec![false, false, false], &s));
}
