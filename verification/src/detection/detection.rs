//! A detection: the selections of a rule, by name, and the condition that
//! joins them.
use vstd::prelude::*;
use crate::detection::condition::{
    eval, outcomes, parse_condition, Condition, NodeView,
};
use crate::detection::selection::{
    prepend, selection_holds, selection_of, DetectionError, MatchView, Selection,
};
use crate::text::same_text;
use crate::value::{Value, ValueView};
use crate::yaml::{text_of, Yaml};

verus! {

/// A compiled detection.
#[derive(Debug)]
pub struct Detection {
    selections: Vec<(String, Selection)>,
    condition: Condition,
}

/// The mathematical content of a [`Detection`].
pub struct DetectionView {
    pub selections: Seq<(Seq<char>, Seq<MatchView>)>,
    pub condition: NodeView,
}

/// The contents of named selections.
pub open spec fn named_views(selections: Seq<(String, Selection)>) -> Seq<
    (Seq<char>, Seq<MatchView>),
> {
    selections.map_values(|s: (String, Selection)| (s.0@, s.1@))
}

impl View for Detection {
    type V = DetectionView;

    closed spec fn view(&self) -> DetectionView {
        DetectionView { selections: named_views(self.selections@), condition: self.condition@ }
    }
}

/// The text of the condition of a detection: the value of the first entry
/// under the key `condition`, where that is a string.
pub open spec fn condition_text(entries: Seq<(Yaml, Yaml)>) -> Option<Seq<char>>
    decreases entries.len(),
{
    if entries.len() == 0 {
        None
    } else if text_of(entries[0].0) == Some("condition"@) {
        text_of(entries[0].1)
    } else {
        condition_text(entries.skip(1))
    }
}

/// The selections that the entries of a detection write, by name and in
/// order; the entry of the condition is passed over.
pub open spec fn selections_of(entries: Seq<(Yaml, Yaml)>) -> Result<
    Seq<(Seq<char>, Seq<MatchView>)>,
    DetectionError,
>
    decreases entries.len(),
{
    if entries.len() == 0 {
        Ok(Seq::empty())
    } else {
        match text_of(entries[0].0) {
            None => Err(DetectionError::InvalidDetection),
            Some(name) => if name == "condition"@ {
                selections_of(entries.skip(1))
            } else {
                match selection_of(entries[0].1) {
                    Err(e) => Err(e),
                    Ok(items) => prepend(seq![(name, items)], selections_of(entries.skip(1))),
                }
            },
        }
    }
}

/// The detection that a value of a rule writes: a mapping with a condition
/// and, under every other key, a selection. What is wrong with a selection
/// comes before what is wrong with the condition.
pub open spec fn detection_of(y: Yaml) -> Result<DetectionView, DetectionError> {
    match y {
        Yaml::Mapping(entries) => match condition_text(entries@) {
            None => Err(DetectionError::InvalidDetection),
            Some(text) => match selections_of(entries@) {
                Err(e) => Err(e),
                Ok(selections) => match parse_condition(text) {
                    Err(position) => Err(DetectionError::InvalidCondition(position as usize)),
                    Ok(condition) => Ok(DetectionView { selections, condition }),
                },
            },
        },
        _ => Err(DetectionError::InvalidDetection),
    }
}

/// The truth value of each selection for an event, by name.
pub open spec fn statement_of(selections: Seq<(Seq<char>, Seq<MatchView>)>, event: ValueView) -> Seq<
    (Seq<char>, bool),
> {
    Seq::new(selections.len(), |i: int| (selections[i].0, selection_holds(selections[i].1, event)))
}

/// Whether a detection matches an event: its condition holds of the truth
/// values of its selections.
pub open spec fn detection_holds(d: DetectionView, event: ValueView) -> bool {
    eval(d.condition, statement_of(d.selections, event))
}

proof fn lemma_prepend_named(
    done: Seq<(Seq<char>, Seq<MatchView>)>,
    more: Seq<(Seq<char>, Seq<MatchView>)>,
    rest: Result<Seq<(Seq<char>, Seq<MatchView>)>, DetectionError>,
)
    ensures
        prepend(done, prepend(more, rest)) == prepend(done + more, rest),
        prepend(done, Ok(Seq::empty())) == Ok::<Seq<(Seq<char>, Seq<MatchView>)>, DetectionError>(
            done,
        ),
{
    match rest {
        Ok(r) => {
            assert(done + (more + r) =~= (done + more) + r);
        },
        Err(_) => {},
    }
    assert(done + Seq::<(Seq<char>, Seq<MatchView>)>::empty() =~= done);
}

/// The text of the condition among the entries of a detection.
#[verifier::loop_isolation(false)]
fn find_condition(entries: &Vec<(Yaml, Yaml)>) -> (r: Option<&String>)
    ensures
        match r {
            Some(text) => condition_text(entries@) == Some(text@),
            None => condition_text(entries@) is None,
        },
{
    let mut i: usize = 0;
    assert(entries@.skip(0) == entries@);
    while i < entries.len()
        invariant
            i <= entries.len(),
            condition_text(entries@) == condition_text(entries@.skip(i as int)),
        decreases entries.len() - i,
    {
        let ghost rest = entries@.skip(i as int);
        assert(rest[0] == entries@[i as int]);
        assert(rest.skip(1) == entries@.skip(i + 1));
        match entries[i].0.as_str() {
            Some(key) => {
                if same_text(key.as_str(), "condition") {
                    return entries[i].1.as_str();
                }
            },
            None => {},
        }
        i += 1;
    }
    None
}

impl Detection {
    /// Compiles the detection of a rule.
    #[verifier::loop_isolation(false)]
    pub fn new(detection: &Yaml) -> (r: Result<Detection, DetectionError>)
        ensures
            match r {
                Ok(d) => detection_of(*detection) == Ok::<DetectionView, DetectionError>(d@),
                Err(e) => detection_of(*detection) == Err::<DetectionView, DetectionError>(e),
            },
    {
        let entries = match detection {
            Yaml::Mapping(entries) => entries,
            _ => {
                return Err(DetectionError::InvalidDetection);
            },
        };
        let text = match find_condition(entries) {
            None => {
                return Err(DetectionError::InvalidDetection);
            },
            Some(text) => text,
        };
        let mut selections: Vec<(String, Selection)> = Vec::new();
        let mut i: usize = 0;
        proof {
            assert(entries@.skip(0) == entries@);
            assert(named_views(selections@) =~= Seq::empty());
            lemma_prepend_named(Seq::empty(), Seq::empty(), selections_of(entries@));
        }
        while i < entries.len()
            invariant
                i <= entries.len(),
                selections_of(entries@) == prepend(
                    named_views(selections@),
                    selections_of(entries@.skip(i as int)),
                ),
            decreases entries.len() - i,
        {
            let ghost rest = entries@.skip(i as int);
            let ghost before = named_views(selections@);
            assert(rest[0] == entries@[i as int]);
            assert(rest.skip(1) == entries@.skip(i + 1));
            let name = match entries[i].0.as_str() {
                None => {
                    return Err(DetectionError::InvalidDetection);
                },
                Some(name) => name,
            };
            if !same_text(name.as_str(), "condition") {
                match Selection::new(&entries[i].1) {
                    Err(e) => {
                        return Err(e);
                    },
                    Ok(selection) => {
                        let entry = (name.clone(), selection);
                        proof {
                            lemma_prepend_named(
                                before,
                                seq![(entry.0@, entry.1@)],
                                selections_of(entries@.skip(i + 1)),
                            );
                            assert(named_views(selections@.push(entry)) =~= before + seq![
                                (entry.0@, entry.1@),
                            ]);
                        }
                        selections.push(entry);
                    },
                }
            }
            i += 1;
        }
        proof {
            lemma_prepend_named(named_views(selections@), Seq::empty(), Ok(Seq::empty()));
        }
        match Condition::new(text.as_str()) {
            Err(e) => Err(DetectionError::InvalidCondition(e.position)),
            Ok(condition) => Ok(Detection { selections, condition }),
        }
    }

    /// Evaluates the detection against the data of an event.
    #[verifier::loop_isolation(false)]
    pub fn is_match(&self, data: &Value) -> (r: bool)
        ensures
            r == detection_holds(self@, data@),
    {
        let mut results: Vec<(String, bool)> = Vec::new();
        let mut i: usize = 0;
        while i < self.selections.len()
            invariant
                i <= self.selections.len(),
                results.len() == i,
                forall|j: int|
                    0 <= j < i ==> (#[trigger] results[j]).0@ == self.selections[j].0@ && results[j].1
                        == selection_holds(self.selections[j].1@, data@),
            decreases self.selections.len() - i,
        {
            let holds = self.selections[i].1.is_match(data);
            results.push((self.selections[i].0.clone(), holds));
            i += 1;
        }
        assert(outcomes(results@) =~= statement_of(self@.selections, data@));
        self.condition.is_match(&results)
    }
}

} // verus!
