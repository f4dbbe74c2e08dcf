//! A Sigma rule: its header and its body, a detection or a correlation.
use vstd::prelude::*;
use crate::correlation::rule::{Correlation, CorrelationRule, CorrelationView};
use crate::detection::detection::DetectionView;
use crate::detection::rule::DetectionRule;
use crate::event::LogSourceView;
use crate::text::same_text;
use crate::value::Value;

verus! {

/// How far a rule has matured.
#[derive(Debug, Clone, Copy, PartialEq, Eq, Structural)]
pub enum Status {
    Stable,
    Test,
    Experimental,
    Deprecated,
    Unsupported,
}

/// The status that a word names; a word that names none is unsupported.
pub open spec fn status_named(s: Seq<char>) -> Status {
    if s == "stable"@ {
        Status::Stable
    } else if s == "test"@ {
        Status::Test
    } else if s == "experimental"@ {
        Status::Experimental
    } else if s == "deprecated"@ {
        Status::Deprecated
    } else {
        Status::Unsupported
    }
}

impl Status {
    /// The status that a word names.
    pub fn from_name(s: &str) -> (r: Status)
        ensures
            r == status_named(s@),
    {
        if same_text(s, "stable") {
            Status::Stable
        } else if same_text(s, "test") {
            Status::Test
        } else if same_text(s, "experimental") {
            Status::Experimental
        } else if same_text(s, "deprecated") {
            Status::Deprecated
        } else {
            Status::Unsupported
        }
    }
}

impl<'a> From<&'a str> for Status {
    fn from(s: &'a str) -> (r: Status) {
        Status::from_name(s)
    }
}

impl<'a> vstd::std_specs::convert::FromSpecImpl<&'a str> for Status {
    open spec fn obeys_from_spec() -> bool {
        true
    }

    open spec fn from_spec(s: &'a str) -> Status {
        status_named(s@)
    }
}

/// The number of a severity: 0 where a rule has no level, 1 to 5 from
/// `informational` to `critical`, and 99 for any other word.
pub open spec fn severity_of(level: Option<Seq<char>>) -> u8 {
    match level {
        None => 0,
        Some(l) => if l == "informational"@ {
            1
        } else if l == "low"@ {
            2
        } else if l == "medium"@ {
            3
        } else if l == "high"@ {
            4
        } else if l == "critical"@ {
            5
        } else {
            99
        },
    }
}

/// The body of a rule.
#[derive(Debug)]
pub enum RuleType {
    Detection(DetectionRule),
    Correlation(CorrelationRule),
}

/// The mathematical content of a [`RuleType`].
pub enum BodyView {
    Detection(LogSourceView, DetectionView),
    Correlation(CorrelationView),
}

impl View for RuleType {
    type V = BodyView;

    open spec fn view(&self) -> BodyView {
        match self {
            RuleType::Detection(d) => BodyView::Detection(d.logsource@, d.model()),
            RuleType::Correlation(c) => BodyView::Correlation(c.inner@),
        }
    }
}

/// A single Sigma rule, detection or correlation. The fields of the header
/// are those of the Sigma specification.
#[derive(Debug)]
pub struct SigmaRule {
    pub title: String,
    pub id: String,
    pub name: Option<String>,
    pub description: Option<String>,
    pub references: Option<Vec<String>>,
    pub author: Option<String>,
    pub date: Option<String>,
    pub modified: Option<String>,
    pub status: Option<Status>,
    pub license: Option<String>,
    pub tags: Option<Vec<String>>,
    pub scope: Option<String>,
    pub fields: Option<Vec<String>>,
    pub falsepositives: Option<Vec<String>>,
    pub level: Option<String>,
    pub rule: RuleType,
    pub extra: Vec<(String, Value)>,
}

/// What of a rule decides which events it matches: its id, the name under
/// which other rules may refer to it, and its body.
pub struct RuleView {
    pub id: Seq<char>,
    pub name: Option<Seq<char>>,
    pub body: BodyView,
}

impl View for SigmaRule {
    type V = RuleView;

    open spec fn view(&self) -> RuleView {
        RuleView {
            id: self.id@,
            name: match self.name {
                Some(n) => Some(n@),
                None => None,
            },
            body: self.rule@,
        }
    }
}

/// The body of a rule as the rule holds it: a correlation goes by the id
/// of its rule.
pub open spec fn adopted(body: BodyView, id: Seq<char>) -> BodyView {
    match body {
        BodyView::Correlation(c) => BodyView::Correlation(
            CorrelationView {
                kind: c.kind,
                rules: c.rules,
                timespan: c.timespan,
                group_by: c.group_by,
                id,
            },
        ),
        BodyView::Detection(source, detection) => BodyView::Detection(source, detection),
    }
}

impl SigmaRule {
    /// A rule with this title, id and body, and nothing else in its header.
    /// A correlation takes the id of the rule.
    pub fn new(title: String, id: String, rule: RuleType) -> (r: SigmaRule)
        ensures
            r.title == title,
            r.id == id,
            r.name is None,
            r.description is None,
            r.references is None,
            r.author is None,
            r.date is None,
            r.modified is None,
            r.status is None,
            r.license is None,
            r.tags is None,
            r.scope is None,
            r.fields is None,
            r.falsepositives is None,
            r.level is None,
            r.extra@.len() == 0,
            r@ == (RuleView { id: id@, name: None, body: adopted(rule@, id@) }),
    {
        let rule = match rule {
            RuleType::Correlation(c) => {
                let CorrelationRule { inner, extra } = c;
                let Correlation { correlation_type, rules, timespan, group_by, id: _ } = inner;
                RuleType::Correlation(
                    CorrelationRule {
                        inner: Correlation {
                            correlation_type,
                            rules,
                            timespan,
                            group_by,
                            id: id.clone(),
                        },
                        extra,
                    },
                )
            },
            RuleType::Detection(d) => RuleType::Detection(d),
        };
        SigmaRule {
            title,
            id,
            name: None,
            description: None,
            references: None,
            author: None,
            date: None,
            modified: None,
            status: None,
            license: None,
            tags: None,
            scope: None,
            fields: None,
            falsepositives: None,
            level: None,
            rule,
            extra: Vec::new(),
        }
    }

    /// The number of the severity of the rule, from its level.
    pub fn severity_id(&self) -> (r: u8)
        ensures
            r == severity_of(
                match self.level {
                    Some(l) => Some(l@),
                    None => None,
                },
            ),
    {
        match &self.level {
            None => 0,
            Some(level) => {
                let l = level.as_str();
                if same_text(l, "informational") {
                    1
                } else if same_text(l, "low") {
                    2
                } else if same_text(l, "medium") {
                    3
                } else if same_text(l, "high") {
                    4
                } else if same_text(l, "critical") {
                    5
                } else {
                    99
                }
            },
        }
    }

    /// Whether two rules are the same rule: whether they have the same id.
    pub fn same_rule(&self, other: &SigmaRule) -> (r: bool)
        ensures
            r == (self@.id == other@.id),
    {
        same_text(self.id.as_str(), other.id.as_str())
    }
}

/// The contents of a list of rules.
pub open spec fn rule_views(rules: Seq<SigmaRule>) -> Seq<RuleView> {
    rules.map_values(|r: SigmaRule| r@)
}

} // verus!
