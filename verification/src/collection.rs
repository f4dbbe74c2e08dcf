//! A collection of rules: the rules in the order in which they were added,
//! the index of their log sources, and the graph of the dependencies
//! between them.
pub mod deps;
pub mod independence;
pub mod traversal;

use vstd::prelude::*;
use crate::collection::deps::{
    all_links, build, connects, cyclic, empty_graph, has_id, holds_id, joined, lemma_all_links,
    lemma_built, lemma_cycle, lemma_named_id, lemma_no_edges_no_cycle, lemma_reach,
    lemma_rule_links, mentioned, named_id, references, resolve_ref, rule_links, solve, solved,
    DependencyGraph, GraphModel, Link,
};
use crate::collection::independence::{
    alike, lemma_advance_alike, lemma_alike, lemma_ran, lemma_registered_same, lemma_same_rules,
    lemma_same_set, lemma_twins, lemma_twins_end, lemma_twins_fail, same_rules, unique_names,
    Round,
};
use crate::collection::traversal::{own_ids, solved_by};
use crate::correlation::rule::{
    contains_name, directory_view, id_of_name, is_id, lemma_outcome_same_counts, meant, outcome,
    present, same_backend, CorrelationView, Directory,
};
use crate::correlation::state::{
    after_advance, same_store, state_of, BackendError, BackendView, MemBackend,
};
use crate::detection::detection::detection_holds;
use crate::detection::filter::{
    admits, admits_id, admitted, axis, axis_admits, lemma_admitted, listed, Filter,
};
use crate::event::{Event, LogSourceView};
use crate::graph::{has_cycle, has_path, positions, reachable};
use crate::rule::{rule_views, BodyView, RuleType, RuleView, SigmaRule};
use crate::text::{same_text, texts};
use crate::value::ValueView;

verus! {

/// Why a rule could not be added to a collection.
#[derive(Debug)]
pub enum CollectionError {
    /// The rule (first) refers to a rule (second) that the collection does
    /// not hold, neither by id nor by name.
    DependencyMissing(String, String),
    /// The dependencies between the rules form a cycle.
    DependencyCycle,
    /// The collection holds a rule with this id already.
    DuplicateId(String),
    /// The dependencies are more than the graph can hold.
    TooLarge,
}

/// The mathematical content of a [`CollectionError`].
pub enum Failure {
    DependencyMissing(Seq<char>, Seq<char>),
    DependencyCycle,
    DuplicateId(Seq<char>),
    TooLarge,
}

impl View for CollectionError {
    type V = Failure;

    open spec fn view(&self) -> Failure {
        match self {
            CollectionError::DependencyMissing(rule, reference) => Failure::DependencyMissing(
                rule@,
                reference@,
            ),
            CollectionError::DependencyCycle => Failure::DependencyCycle,
            CollectionError::DuplicateId(id) => Failure::DuplicateId(id@),
            CollectionError::TooLarge => Failure::TooLarge,
        }
    }
}

/// Whether no two rules have the same id.
pub open spec fn unique_ids(rules: Seq<RuleView>) -> bool {
    forall|i: int, j: int|
        0 <= i < rules.len() && 0 <= j < rules.len() && i != j ==> (#[trigger] rules[i]).id != (
        #[trigger] rules[j]).id
}

/// The entries of the log source index: for each detection rule, in order,
/// its id and its log source.
pub open spec fn detection_entries(rules: Seq<RuleView>) -> Seq<(Seq<char>, LogSourceView)>
    decreases rules.len(),
{
    if rules.len() == 0 {
        Seq::empty()
    } else {
        match rules.last().body {
            BodyView::Detection(source, _) => detection_entries(rules.drop_last()).push(
                (rules.last().id, source),
            ),
            BodyView::Correlation(_) => detection_entries(rules.drop_last()),
        }
    }
}

/// What adding a rule to a set of rules gives: a failure where the set
/// holds its id already, or where the dependencies of the larger set
/// cannot be solved.
pub open spec fn add_result(rules: Seq<RuleView>, rule: RuleView) -> Result<(), Failure> {
    if has_id(rules, rule.id) {
        Err(Failure::DuplicateId(rule.id))
    } else {
        match solved(rules.push(rule)) {
            Err(failure) => Err(failure),
            Ok(_) => Ok(()),
        }
    }
}

/// The ids of the detection rules that match an event: those whose log
/// source admits that of the event and whose detection holds of its data,
/// in the order of the rules.
pub open spec fn detection_matches(rules: Seq<RuleView>, source: LogSourceView, data: ValueView) -> Seq<
    Seq<char>,
>
    decreases rules.len(),
{
    if rules.len() == 0 {
        Seq::empty()
    } else {
        let before = detection_matches(rules.drop_last(), source, data);
        match rules.last().body {
            BodyView::Detection(s, d) => if admits(s, source) && detection_holds(d, data) {
                before.push(rules.last().id)
            } else {
                before
            },
            BodyView::Correlation(_) => before,
        }
    }
}

/// The log source that admits every rule.
pub open spec fn any_source() -> LogSourceView {
    LogSourceView { category: None, product: None, service: None }
}

/// The ids and names of the rules, in their order: what a reference of a
/// correlation can mean.
pub open spec fn directory_of(rules: Seq<RuleView>) -> Directory {
    rules.map_values(|rule: RuleView| (rule.id, rule.name))
}

/// A reference means the same rule to a correlation that is evaluated as
/// it means where the dependencies are solved.
pub proof fn lemma_meant(rules: Seq<RuleView>, reference: Seq<char>)
    ensures
        meant(directory_of(rules), reference) == resolve_ref(rules, reference),
{
    let directory = directory_of(rules);
    if has_id(rules, reference) {
        let i = choose|i: int| 0 <= i < rules.len() && (#[trigger] rules[i]).id == reference;
        assert(directory[i].0 == reference);
    }
    if is_id(directory, reference) {
        let i = choose|i: int| 0 <= i < directory.len() && (#[trigger] directory[i]).0 == reference;
        assert(rules[i].id == reference);
    }
    lemma_id_of_name(rules, reference);
}

proof fn lemma_id_of_name(rules: Seq<RuleView>, name: Seq<char>)
    ensures
        id_of_name(directory_of(rules), name) == named_id(rules, name),
    decreases rules.len(),
{
    if rules.len() > 0 {
        assert(directory_of(rules).drop_last() =~= directory_of(rules.drop_last()));
        assert(directory_of(rules).last() == (rules.last().id, rules.last().name));
        lemma_id_of_name(rules.drop_last(), name);
    }
}

/// The first rule with this id.
pub open spec fn rule_with_id(rules: Seq<RuleView>, id: Seq<char>) -> Option<RuleView>
    decreases rules.len(),
{
    if rules.len() == 0 {
        None
    } else if rules[0].id == id {
        Some(rules[0])
    } else {
        rule_with_id(rules.skip(1), id)
    }
}

/// Whether a path leads from the node of `id` to `node`; the path of no
/// step leads from a node to itself.
pub open spec fn leads(m: GraphModel, id: Seq<char>, node: int) -> bool {
    m.ids.contains(id) && reachable(m.edges, m.ids.index_of(id), node)
}

/// Whether a node is a candidate for an event: whether a path leads to it
/// from the node of a rule that matched before any correlation was tried.
pub open spec fn is_candidate(m: GraphModel, start: Seq<Seq<char>>, node: int) -> bool {
    exists|k: int| 0 <= k < start.len() && leads(m, #[trigger] start[k], node)
}

/// The correlation that is tried at a node: that of the rule of the node,
/// where the node is a candidate and its rule is a correlation.
pub open spec fn tried(rules: Seq<RuleView>, m: GraphModel, start: Seq<Seq<char>>, node: int) -> Option<
    (Seq<char>, CorrelationView),
> {
    if 0 <= node < m.ids.len() && is_candidate(m, start, node) {
        match rule_with_id(rules, m.ids[node]) {
            Some(rule) => match rule.body {
                BodyView::Correlation(c) => Some((rule.id, c)),
                BodyView::Detection(_, _) => None,
            },
            None => None,
        }
    } else {
        None
    }
}

/// What trying the correlation at one node gives: the backend and the
/// matches after it, and the error of the backend where one came up. A
/// correlation that matches is put behind the matches.
pub open spec fn attempt(
    rules: Seq<RuleView>,
    m: GraphModel,
    start: Seq<Seq<char>>,
    node: int,
    b: BackendView,
    data: ValueView,
    prior: Seq<Seq<char>>,
) -> (Result<(), BackendError>, BackendView, Seq<Seq<char>>) {
    match tried(rules, m, start, node) {
        None => (Ok(()), b, prior),
        Some((id, c)) => {
            let (r, after) = outcome(c, b, data, present(c.rules, directory_of(rules), prior));
            match r {
                Err(e) => (Err(e), after, prior),
                Ok(hit) => (
                    Ok(()),
                    after,
                    if hit {
                        prior.push(id)
                    } else {
                        prior
                    },
                ),
            }
        },
    }
}

/// What trying the correlations from position `at` of the order on gives:
/// the backend and the matches after it, and the error of the backend
/// where one came up, which ends it. Each correlation that matches is put
/// behind the matches before the next one is tried; a reference of a
/// correlation counts where the rule that it means is among the matches.
pub open spec fn correlate(
    rules: Seq<RuleView>,
    m: GraphModel,
    order: Seq<int>,
    start: Seq<Seq<char>>,
    at: int,
    b: BackendView,
    data: ValueView,
    prior: Seq<Seq<char>>,
) -> (Result<(), BackendError>, BackendView, Seq<Seq<char>>)
    decreases order.len() - at,
{
    if at < 0 || at >= order.len() {
        (Ok(()), b, prior)
    } else {
        let (r, after, next) = attempt(rules, m, start, order[at], b, data, prior);
        match r {
            Err(e) => (Err(e), after, next),
            Ok(_) => correlate(rules, m, order, start, at + 1, after, data, next),
        }
    }
}

/// The correlations that match are put behind the matches that are there.
pub proof fn lemma_correlate_extends(
    rules: Seq<RuleView>,
    m: GraphModel,
    order: Seq<int>,
    start: Seq<Seq<char>>,
    at: int,
    b: BackendView,
    data: ValueView,
    prior: Seq<Seq<char>>,
)
    ensures
        prior.is_prefix_of(correlate(rules, m, order, start, at, b, data, prior).2),
    decreases order.len() - at,
{
    if 0 <= at < order.len() {
        let (r, after, next) = attempt(rules, m, start, order[at], b, data, prior);
        assert(prior.is_prefix_of(next)) by {
            assert(prior =~= next.subrange(0, prior.len() as int));
        }
        if r is Ok {
            lemma_correlate_extends(rules, m, order, start, at + 1, after, data, next);
            let all = correlate(rules, m, order, start, at + 1, after, data, next).2;
            assert(prior =~= all.subrange(0, prior.len() as int));
        }
    }
}

/// Determinism: on backends that hold the same counts, trying the
/// correlations of a collection on an event gives the same result and the
/// same matches, and leaves the backends holding the same counts.
pub proof fn lemma_correlate_same_counts(
    rules: Seq<RuleView>,
    m: GraphModel,
    order: Seq<int>,
    start: Seq<Seq<char>>,
    at: int,
    a: BackendView,
    b: BackendView,
    data: ValueView,
    prior: Seq<Seq<char>>,
)
    requires
        same_backend(a, b),
    ensures
        ({
            let one = correlate(rules, m, order, start, at, a, data, prior);
            let other = correlate(rules, m, order, start, at, b, data, prior);
            &&& one.0 == other.0
            &&& one.2 == other.2
            &&& same_backend(one.1, other.1)
        }),
    decreases order.len() - at,
{
    if 0 <= at < order.len() {
        match tried(rules, m, start, order[at]) {
            None => {},
            Some((id, c)) => {
                lemma_outcome_same_counts(
                    c,
                    a,
                    b,
                    data,
                    present(c.rules, directory_of(rules), prior),
                );
            },
        }
        let (r, x, next) = attempt(rules, m, start, order[at], a, data, prior);
        let (q, y, other) = attempt(rules, m, start, order[at], b, data, prior);
        assert(r == q && next == other && same_backend(x, y));
        if r is Ok {
            lemma_correlate_same_counts(rules, m, order, start, at + 1, x, y, data, next);
        }
    }
}

/// The matches of an event with the error that ended the evaluation of the
/// correlations: the detections that matched are still handed out.
#[derive(Debug)]
pub struct MatchError {
    pub detections: Vec<String>,
    pub error: BackendError,
}

/// The states that registering the correlation rules gives, one after the
/// other; none where a rule has a state already.
pub open spec fn register_all(states: Seq<(Seq<char>, u64)>, rules: Seq<RuleView>, from: int) -> Option<
    Seq<(Seq<char>, u64)>,
>
    decreases rules.len() - from,
{
    if from < 0 || from >= rules.len() {
        Some(states)
    } else {
        match rules[from].body {
            BodyView::Correlation(c) => if state_of(states, c.id) is Some {
                None
            } else {
                register_all(states.push((c.id, c.timespan)), rules, from + 1)
            },
            BodyView::Detection(_, _) => register_all(states, rules, from + 1),
        }
    }
}

/// A collection of Sigma rules, with the dependencies between them solved
/// and their log sources indexed.
#[derive(Debug)]
pub struct SigmaCollection {
    rules: Vec<SigmaRule>,
    filters: Filter,
    deps: DependencyGraph,
}

impl Default for SigmaCollection {
    fn default() -> (r: SigmaCollection)
        ensures
            r.wf(),
            r.rules() == Seq::<RuleView>::empty(),
    {
        SigmaCollection::new()
    }
}

impl SigmaCollection {
    /// The rules that the collection holds, in the order in which they
    /// were added.
    pub closed spec fn held(&self) -> Seq<SigmaRule> {
        self.rules@
    }

    /// What of the rules of the collection decides the matching, rule by
    /// rule.
    pub closed spec fn rules(&self) -> Seq<RuleView> {
        rule_views(self.rules@)
    }

    /// The contents of the collection are those of the rules that it
    /// holds.
    pub proof fn lemma_rules(self)
        ensures
            self.rules() == rule_views(self.held()),
    {
    }

    /// The graph of the dependencies.
    pub closed spec fn graph(&self) -> GraphModel {
        self.deps.model()
    }

    /// The topological order in which correlations are tried.
    pub closed spec fn order(&self) -> Seq<int> {
        positions(self.deps.sorted@)
    }

    /// Whether the collection is well formed: no two rules have the same
    /// id, the index holds the detection rules, and the graph is that of
    /// the dependencies of the rules, without a cycle and in topological
    /// order.
    pub closed spec fn wf(&self) -> bool {
        &&& unique_ids(self.rules())
        &&& self.filters@ == detection_entries(self.rules())
        &&& self.deps.wf()
        &&& self.deps.ordered()
        &&& solved(self.rules()) == Ok::<GraphModel, Failure>(self.deps.model())
    }

    /// A collection without rules.
    pub fn new() -> (r: SigmaCollection)
        ensures
            r.wf(),
            r.rules() == Seq::<RuleView>::empty(),
            r.held() == Seq::<SigmaRule>::empty(),
    {
        let r = SigmaCollection {
            rules: Vec::new(),
            filters: Filter::new(),
            deps: DependencyGraph::new(),
        };
        proof {
            assert(rule_views(r.rules@) =~= Seq::empty());
            lemma_no_edges_no_cycle();
            assert(positions(r.deps.sorted@) =~= Seq::empty());
        }
        r
    }

    /// The number of rules.
    pub fn len(&self) -> (r: usize)
        ensures
            r == self.rules().len(),
    {
        self.rules.len()
    }

    /// The rule with this id.
    #[verifier::loop_isolation(false)]
    pub fn get(&self, id: &str) -> (r: Option<&SigmaRule>)
        ensures
            match r {
                Some(rule) => rule_with_id(self.rules(), id@) == Some(rule@) && self.held().contains(
                    *rule,
                ),
                None => rule_with_id(self.rules(), id@) is None,
            },
    {
        let ghost all = rule_views(self.rules@);
        let mut i: usize = 0;
        assert(all.skip(0) == all);
        while i < self.rules.len()
            invariant
                i <= self.rules.len(),
                rule_with_id(all, id@) == rule_with_id(all.skip(i as int), id@),
            decreases self.rules.len() - i,
        {
            proof {
                let rest = all.skip(i as int);
                assert(rest[0] == self.rules[i as int]@);
                assert(rest.skip(1) == all.skip(i + 1));
            }
            if same_text(self.rules[i].id.as_str(), id) {
                assert(self.rules@[i as int] == self.rules[i as int]);
                return Some(&self.rules[i]);
            }
            i += 1;
        }
        None
    }

    /// Adds a rule. Fails, and leaves the collection as it was, where the
    /// collection holds the id already, where a reference of a rule means
    /// no rule, and where the dependencies would form a cycle.
    pub fn add(&mut self, rule: SigmaRule) -> (r: Result<(), CollectionError>)
        requires
            old(self).wf(),
        ensures
            final(self).wf(),
            match r {
                Ok(_) => {
                    &&& add_result(old(self).rules(), rule@) is Ok
                    &&& final(self).rules() == old(self).rules().push(rule@)
                    &&& final(self).held() == old(self).held().push(rule)
                },
                Err(e) => {
                    &&& add_result(old(self).rules(), rule@) == Err::<(), Failure>(e@)
                    &&& final(self).rules() == old(self).rules()
                    &&& final(self).held() == old(self).held()
                    &&& final(self).graph() == old(self).graph()
                    &&& final(self).order() == old(self).order()
                },
            },
    {
        if holds_id(&self.rules, rule.id.as_str()) {
            return Err(CollectionError::DuplicateId(rule.id.clone()));
        }
        let ghost before = rule_views(self.rules@);
        let ghost added = rule@;
        let ghost held = self.rules@;
        self.rules.push(rule);
        assert(rule_views(self.rules@) =~= before.push(added));
        match solve(&self.rules) {
            Err(e) => {
                self.rules.pop();
                assert(self.rules@ =~= held);
                Err(e)
            },
            Ok(graph) => {
                let last = self.rules.len() - 1;
                self.filters.add(&self.rules[last]);
                self.deps = graph;
                proof {
                    let after = before.push(added);
                    assert(after.drop_last() == before);
                    assert(after.last() == added);
                    assert forall|i: int, j: int|
                        0 <= i < after.len() && 0 <= j < after.len() && i != j implies (
                    #[trigger] after[i]).id != (#[trigger] after[j]).id by {
                        if i < before.len() && j < before.len() {
                            assert(after[i] == before[i] && after[j] == before[j]);
                        } else if i < before.len() {
                            assert(after[i] == before[i]);
                        } else {
                            assert(after[j] == before[j]);
                        }
                    }
                }
                Ok(())
            },
        }
    }

    /// The ids of the detection rules that match an event whose log source
    /// admits them, in the order of the rules. A field of the log source of
    /// the event that is `None` admits every rule; a field that is set
    /// admits the rules that name the same value or none.
    #[verifier::loop_isolation(false)]
    pub fn get_detection_matches(&self, event: &Event) -> (r: Vec<String>)
        requires
            self.wf(),
        ensures
            texts(r@) == detection_matches(self.rules(), event.logsource@, event.data@),
    {
        let candidates = self.filters.filter(&event.logsource);
        let ghost all = rule_views(self.rules@);
        let mut out: Vec<String> = Vec::new();
        let mut i: usize = 0;
        assert(all.take(0).len() == 0);
        assert(texts(out@) =~= Seq::empty());
        while i < self.rules.len()
            invariant
                i <= self.rules.len(),
                texts(out@) == detection_matches(all.take(i as int), event.logsource@, event.data@),
            decreases self.rules.len() - i,
        {
            proof {
                assert(all.take(i + 1).drop_last() == all.take(i as int));
                assert(all.take(i + 1).last() == self.rules[i as int]@);
                if all[i as int].body is Detection {
                    lemma_candidate(all, event.logsource@, i as int);
                }
            }
            match &self.rules[i].rule {
                RuleType::Detection(d) => {
                    if contains_name(&candidates, self.rules[i].id.as_str()) && d.is_match(
                        &event.data,
                    ) {
                        let id = self.rules[i].id.clone();
                        assert(texts(out@.push(id)) =~= texts(out@).push(id@));
                        out.push(id);
                    }
                },
                RuleType::Correlation(_) => {},
            }
            i += 1;
        }
        assert(all.take(self.rules.len() as int) == all);
        out
    }

    /// The ids of the detection rules that match an event, whatever its
    /// log source, in the order of the rules.
    #[verifier::loop_isolation(false)]
    pub fn get_detection_matches_unfiltered(&self, event: &Event) -> (r: Vec<String>)
        ensures
            texts(r@) == detection_matches(self.rules(), any_source(), event.data@),
    {
        let ghost all = rule_views(self.rules@);
        let mut out: Vec<String> = Vec::new();
        let mut i: usize = 0;
        assert(all.take(0).len() == 0);
        assert(texts(out@) =~= Seq::empty());
        while i < self.rules.len()
            invariant
                i <= self.rules.len(),
                texts(out@) == detection_matches(all.take(i as int), any_source(), event.data@),
            decreases self.rules.len() - i,
        {
            proof {
                assert(all.take(i + 1).drop_last() == all.take(i as int));
                assert(all.take(i + 1).last() == self.rules[i as int]@);
            }
            match &self.rules[i].rule {
                RuleType::Detection(d) => {
                    if d.is_match(&event.data) {
                        let id = self.rules[i].id.clone();
                        assert(texts(out@.push(id)) =~= texts(out@).push(id@));
                        out.push(id);
                    }
                },
                RuleType::Correlation(_) => {},
            }
            i += 1;
        }
        assert(all.take(self.rules.len() as int) == all);
        out
    }
}

/// Whether a rule has the id of a rule before it.
pub open spec fn clash_at(rules: Seq<RuleView>, i: int) -> bool {
    exists|j: int| 0 <= j < i && j < rules.len() && (#[trigger] rules[j]).id == rules[i].id
}

/// The first rule from `from` on that has the id of a rule before it.
pub open spec fn first_clash(rules: Seq<RuleView>, from: int) -> Option<int>
    decreases rules.len() - from,
{
    if from < 0 || from >= rules.len() {
        None
    } else if clash_at(rules, from) {
        Some(from)
    } else {
        first_clash(rules, from + 1)
    }
}

/// What adding several rules at once gives: a failure where one of them
/// has the id of a rule before it, or where the dependencies of the larger
/// set cannot be solved. The new rules may refer to each other.
pub open spec fn add_all_result(rules: Seq<RuleView>, more: Seq<RuleView>) -> Result<(), Failure> {
    match first_clash(rules + more, rules.len() as int) {
        Some(i) => Err(Failure::DuplicateId((rules + more)[i].id)),
        None => match solved(rules + more) {
            Err(failure) => Err(failure),
            Ok(_) => Ok(()),
        },
    }
}

proof fn lemma_no_clash(rules: Seq<RuleView>, from: int, i: int)
    requires
        first_clash(rules, from) is None,
        0 <= from <= i < rules.len(),
    ensures
        !clash_at(rules, i),
    decreases rules.len() - from,
{
    if from < i {
        lemma_no_clash(rules, from + 1, i);
    }
}

proof fn lemma_unique(rules: Seq<RuleView>, from: int)
    requires
        0 <= from <= rules.len(),
        unique_ids(rules.take(from)),
        first_clash(rules, from) is None,
    ensures
        unique_ids(rules),
{
    assert forall|i: int, j: int|
        0 <= i < rules.len() && 0 <= j < rules.len() && i != j implies (#[trigger] rules[i]).id != (
    #[trigger] rules[j]).id by {
        let (lo, hi) = if i < j {
            (i, j)
        } else {
            (j, i)
        };
        if hi < from {
            assert(rules.take(from)[lo] == rules[lo] && rules.take(from)[hi] == rules[hi]);
        } else {
            lemma_no_clash(rules, from, hi);
        }
    }
}

/// Whether the rule at `i` has the id of a rule before it.
#[verifier::loop_isolation(false)]
fn clashes(rules: &Vec<SigmaRule>, i: usize) -> (r: bool)
    requires
        i < rules.len(),
    ensures
        r == clash_at(rule_views(rules@), i as int),
{
    let ghost all = rule_views(rules@);
    let mut j: usize = 0;
    while j < i
        invariant
            j <= i,
            forall|k: int| 0 <= k < j ==> (#[trigger] all[k]).id != all[i as int].id,
        decreases i - j,
    {
        assert(all[j as int] == rules[j as int]@ && all[i as int] == rules[i as int]@);
        if same_text(rules[j].id.as_str(), rules[i].id.as_str()) {
            return true;
        }
        j += 1;
    }
    false
}

impl SigmaCollection {
    /// Adds several rules at once; they may refer to each other, in any
    /// order. Fails, and leaves the collection as it was, where one of them
    /// has the id of a rule before it, where a reference of a rule means
    /// no rule, and where the dependencies would form a cycle.
    #[verifier::loop_isolation(false)]
    pub fn add_all(&mut self, rules: Vec<SigmaRule>) -> (r: Result<(), CollectionError>)
        requires
            old(self).wf(),
        ensures
            final(self).wf(),
            match r {
                Ok(_) => {
                    &&& add_all_result(old(self).rules(), rule_views(rules@)) is Ok
                    &&& final(self).rules() == old(self).rules() + rule_views(rules@)
                    &&& final(self).held() == old(self).held() + rules@
                },
                Err(e) => {
                    &&& add_all_result(old(self).rules(), rule_views(rules@)) == Err::<(), Failure>(e@)
                    &&& final(self).rules() == old(self).rules()
                    &&& final(self).held() == old(self).held()
                    &&& final(self).graph() == old(self).graph()
                    &&& final(self).order() == old(self).order()
                },
            },
    {
        let ghost before = rule_views(self.rules@);
        let ghost more = rule_views(rules@);
        let ghost all = before + more;
        let keep = self.rules.len();
        let ghost held = self.rules@;
        let ghost given = rules@;
        let mut rules = rules;
        self.rules.append(&mut rules);
        assert(rule_views(self.rules@) =~= all);
        let ghost filters = self.filters@;
        assert(filters == detection_entries(before));
        let mut i: usize = keep;
        while i < self.rules.len()
            invariant
                keep <= i <= self.rules.len(),
                self.rules@ == held + given,
                self.filters == old(self).filters,
                self.deps == old(self).deps,
                rule_views(self.rules@) == all,
                self.rules.len() == all.len(),
                first_clash(all, keep as int) == first_clash(all, i as int),
            decreases self.rules.len() - i,
        {
            if clashes(&self.rules, i) {
                let id = self.rules[i].id.clone();
                assert(all[i as int] == self.rules[i as int]@);
                self.rules.truncate(keep);
                assert(self.rules@ =~= held);
                return Err(CollectionError::DuplicateId(id));
            }
            i += 1;
        }
        proof {
            assert(all.take(keep as int) =~= before);
            lemma_unique(all, keep as int);
        }
        match solve(&self.rules) {
            Err(e) => {
                self.rules.truncate(keep);
                assert(self.rules@ =~= held);
                Err(e)
            },
            Ok(graph) => {
                assert(self.filters@ == detection_entries(all.take(keep as int)));
                let mut k: usize = keep;
                while k < self.rules.len()
                    invariant
                        keep <= k <= self.rules.len(),
                        self.rules@ == held + given,
                        rule_views(self.rules@) == all,
                        self.filters@ == detection_entries(all.take(k as int)),
                    decreases self.rules.len() - k,
                {
                    proof {
                        assert(all.take(k + 1).drop_last() == all.take(k as int));
                        assert(all.take(k + 1).last() == self.rules[k as int]@);
                    }
                    self.filters.add(&self.rules[k]);
                    k += 1;
                }
                assert(all.take(self.rules.len() as int) == all);
                self.deps = graph;
                Ok(())
            },
        }
    }

    /// A collection of these rules; they may refer to each other, in any
    /// order.
    pub fn try_from(rules: Vec<SigmaRule>) -> (r: Result<SigmaCollection, CollectionError>)
        ensures
            match r {
                Ok(c) => c.wf() && c.rules() == rule_views(rules@) && c.held() == rules@ && add_all_result(
                    Seq::empty(),
                    rule_views(rules@),
                ) is Ok,
                Err(e) => add_all_result(Seq::empty(), rule_views(rules@)) == Err::<(), Failure>(
                    e@,
                ),
            },
    {
        let mut c = SigmaCollection::new();
        assert(Seq::<RuleView>::empty() + rule_views(rules@) =~= rule_views(rules@));
        assert(Seq::<SigmaRule>::empty() + rules@ =~= rules@);
        match c.add_all(rules) {
            Ok(_) => Ok(c),
            Err(e) => Err(e),
        }
    }

    /// The rules of the collection, in the order in which they were added.
    pub fn as_rules(&self) -> (r: &Vec<SigmaRule>)
        ensures
            r@ == self.held(),
            rule_views(r@) == self.rules(),
    {
        &self.rules
    }

    /// The rules of the collection, in the order in which they were added.
    pub fn into_rules(self) -> (r: Vec<SigmaRule>)
        ensures
            r@ == self.held(),
            rule_views(r@) == self.rules(),
    {
        self.rules
    }
}

/// A copy of a list of names.
#[verifier::loop_isolation(false)]
fn copy_names(names: &Vec<String>) -> (r: Vec<String>)
    ensures
        texts(r@) == texts(names@),
{
    let mut out: Vec<String> = Vec::new();
    let mut i: usize = 0;
    while i < names.len()
        invariant
            i <= names.len(),
            out.len() == i,
            forall|j: int| 0 <= j < i ==> out[j]@ == names[j]@,
        decreases names.len() - i,
    {
        out.push(names[i].clone());
        i += 1;
    }
    assert(texts(out@) =~= texts(names@));
    out
}

impl SigmaCollection {
    /// The ids and names of the rules, in their order.
    #[verifier::loop_isolation(false)]
    pub fn directory(&self) -> (r: Vec<(String, Option<String>)>)
        ensures
            directory_view(r@) == directory_of(self.rules()),
    {
        let ghost all = rule_views(self.rules@);
        let mut out: Vec<(String, Option<String>)> = Vec::new();
        let mut i: usize = 0;
        assert(directory_view(out@) =~= directory_of(all.take(0)));
        while i < self.rules.len()
            invariant
                i <= self.rules.len(),
                directory_view(out@) == directory_of(all.take(i as int)),
            decreases self.rules.len() - i,
        {
            assert(all[i as int] == self.rules[i as int]@);
            let name = match &self.rules[i].name {
                Some(name) => Some(name.clone()),
                None => None,
            };
            let entry = (self.rules[i].id.clone(), name);
            proof {
                let pair = (all[i as int].id, all[i as int].name);
                assert(directory_view(out@.push(entry)) =~= directory_view(out@).push(pair));
                assert(directory_of(all.take(i + 1)) =~= directory_of(all.take(i as int)).push(pair));
            }
            out.push(entry);
            i += 1;
        }
        assert(all.take(self.rules.len() as int) == all);
        out
    }

    /// Whether a node is a candidate, given the rules that matched before
    /// any correlation was tried.
    #[verifier::loop_isolation(false)]
    fn candidate(&self, start: &Vec<String>, node: usize) -> (r: bool)
        requires
            self.wf(),
            node < self.deps.ids.len(),
        ensures
            r == is_candidate(self.graph(), texts(start@), node as int),
    {
        let ghost m = self.deps.model();
        let ghost names = texts(start@);
        let mut k: usize = 0;
        while k < start.len()
            invariant
                k <= start.len(),
                forall|j: int| 0 <= j < k ==> !leads(m, #[trigger] names[j], node as int),
            decreases start.len() - k,
        {
            assert(names[k as int] == start[k as int]@);
            match self.deps.find(start[k].as_str()) {
                Some(from) => {
                    if has_path(&self.deps.graph, from, node) {
                        assert(leads(m, names[k as int], node as int));
                        return true;
                    }
                },
                None => {},
            }
            k += 1;
        }
        false
    }

    /// Tries the correlation rules on an event, in topological order of
    /// the dependencies, and puts the id of each one that matches behind
    /// `prior`, the ids of the rules that matched so far. A rule is tried
    /// where a path of dependencies leads to it from one of the rules that
    /// are in `prior` at the start.
    #[verifier::loop_isolation(false)]
    pub fn push_correlation_matches(
        &self,
        backend: &mut MemBackend,
        event: &Event,
        prior: &mut Vec<String>,
    ) -> (r: Result<(), BackendError>)
        requires
            self.wf(),
        ensures
            (r, final(backend)@, texts(final(prior)@)) == correlate(
                self.rules(),
                self.graph(),
                self.order(),
                texts(old(prior)@),
                0,
                old(backend)@,
                event.data@,
                texts(old(prior)@),
            ),
    {
        let start = copy_names(prior);
        let directory = self.directory();
        let ghost rules = self.rules();
        let ghost m = self.graph();
        let ghost order = self.order();
        let ghost names = texts(start@);
        let ghost goal = correlate(rules, m, order, names, 0, backend@, event.data@, names);
        let mut at: usize = 0;
        while at < self.deps.sorted.len()
            invariant
                at <= self.deps.sorted.len(),
                goal == correlate(rules, m, order, names, at as int, backend@, event.data@, texts(prior@)),
            decreases self.deps.sorted.len() - at,
        {
            let node = self.deps.sorted[at];
            assert(order[at as int] == node as int);
            assert(0 <= order[at as int] < self.deps.ids@.len());
            match self.try_node(node, &start, &directory, backend, event, prior) {
                Err(e) => {
                    return Err(e);
                },
                Ok(_) => {},
            }
            at += 1;
        }
        Ok(())
    }

    /// Tries the correlation at one node of the graph.
    fn try_node(
        &self,
        node: usize,
        start: &Vec<String>,
        directory: &Vec<(String, Option<String>)>,
        backend: &mut MemBackend,
        event: &Event,
        prior: &mut Vec<String>,
    ) -> (r: Result<(), BackendError>)
        requires
            self.wf(),
            node < self.deps.ids.len(),
            directory_view(directory@) == directory_of(self.rules()),
        ensures
            (r, final(backend)@, texts(final(prior)@)) == attempt(
                self.rules(),
                self.graph(),
                texts(start@),
                node as int,
                old(backend)@,
                event.data@,
                texts(old(prior)@),
            ),
    {
        assert(self.graph().ids[node as int] == self.deps.ids[node as int]@);
        if !self.candidate(start, node) {
            return Ok(());
        }
        let rule = match self.get(self.deps.ids[node].as_str()) {
            None => {
                return Ok(());
            },
            Some(rule) => rule,
        };
        match &rule.rule {
            RuleType::Detection(_) => Ok(()),
            RuleType::Correlation(c) => {
                match c.is_match(backend, &event.data, prior, directory) {
                    Err(e) => Err(e),
                    Ok(hit) => {
                        if hit {
                            let id = rule.id.clone();
                            assert(texts(prior@.push(id)) =~= texts(prior@).push(id@));
                            prior.push(id);
                        }
                        Ok(())
                    },
                }
            },
        }
    }

    /// Registers every correlation rule with the backend, in the order of
    /// the rules. Fails, and leaves the backend as it was, where one of
    /// them is registered already.
    #[verifier::loop_isolation(false)]
    pub fn init(&self, backend: &mut MemBackend) -> (r: Result<(), BackendError>)
        ensures
            final(backend)@.store == old(backend)@.store,
            match r {
                Ok(_) => register_all(old(backend)@.states, self.rules(), 0) == Some(
                    final(backend)@.states,
                ),
                Err(_) => {
                    &&& register_all(old(backend)@.states, self.rules(), 0) is None
                    &&& final(backend)@ == old(backend)@
                },
            },
    {
        let ghost rules = self.rules();
        let ghost before = backend@;
        let keep = backend.states.len();
        let mut i: usize = 0;
        while i < self.rules.len()
            invariant
                i <= self.rules.len(),
                backend@.store == before.store,
                keep <= backend.states.len(),
                backend@.states.take(keep as int) == before.states,
                register_all(before.states, rules, 0) == register_all(backend@.states, rules, i as int),
            decreases self.rules.len() - i,
        {
            assert(rules[i as int] == self.rules[i as int]@);
            match &self.rules[i].rule {
                RuleType::Correlation(c) => {
                    let ghost here = backend@.states;
                    match backend.register(c) {
                        Err(e) => {
                            backend.states.truncate(keep);
                            assert(backend@.states =~= before.states);
                            return Err(e);
                        },
                        Ok(_) => {
                            assert(backend@.states.take(keep as int) =~= here.take(keep as int));
                        },
                    }
                },
                RuleType::Detection(_) => {},
            }
            i += 1;
        }
        Ok(())
    }

    /// The ids of the rules that match an event: the detections that its
    /// log source admits, then the correlations in dependency order. Where
    /// the backend fails, the detections come back with the error.
    pub fn get_matches(&self, backend: &mut MemBackend, event: &Event) -> (r: Result<
        Vec<String>,
        MatchError,
    >)
        requires
            self.wf(),
        ensures
            ({
                let found = detection_matches(self.rules(), event.logsource@, event.data@);
                let (res, after, all) = correlate(
                    self.rules(),
                    self.graph(),
                    self.order(),
                    found,
                    0,
                    old(backend)@,
                    event.data@,
                    found,
                );
                &&& final(backend)@ == after
                &&& match r {
                    Ok(ids) => res is Ok && texts(ids@) == all && found.is_prefix_of(texts(ids@)),
                    Err(failed) => res == Err::<(), BackendError>(failed.error) && texts(
                        failed.detections@,
                    ) == found,
                }
            }),
    {
        let mut prior = self.get_detection_matches(event);
        let detections = copy_names(&prior);
        proof {
            lemma_correlate_extends(
                self.rules(),
                self.graph(),
                self.order(),
                texts(prior@),
                0,
                backend@,
                event.data@,
                texts(prior@),
            );
        }
        match self.push_correlation_matches(backend, event, &mut prior) {
            Ok(_) => Ok(prior),
            Err(error) => Err(MatchError { detections, error }),
        }
    }

    /// The ids of the rules that match an event, whatever its log source:
    /// the detections, then the correlations in dependency order.
    pub fn get_matches_unfiltered(&self, backend: &mut MemBackend, event: &Event) -> (r: Result<
        Vec<String>,
        MatchError,
    >)
        requires
            self.wf(),
        ensures
            ({
                let found = detection_matches(self.rules(), any_source(), event.data@);
                let (res, after, all) = correlate(
                    self.rules(),
                    self.graph(),
                    self.order(),
                    found,
                    0,
                    old(backend)@,
                    event.data@,
                    found,
                );
                &&& final(backend)@ == after
                &&& match r {
                    Ok(ids) => res is Ok && texts(ids@) == all && found.is_prefix_of(texts(ids@)),
                    Err(failed) => res == Err::<(), BackendError>(failed.error) && texts(
                        failed.detections@,
                    ) == found,
                }
            }),
    {
        let mut prior = self.get_detection_matches_unfiltered(event);
        let detections = copy_names(&prior);
        proof {
            lemma_correlate_extends(
                self.rules(),
                self.graph(),
                self.order(),
                texts(prior@),
                0,
                backend@,
                event.data@,
                texts(prior@),
            );
        }
        match self.push_correlation_matches(backend, event, &mut prior) {
            Ok(_) => Ok(prior),
            Err(error) => Err(MatchError { detections, error }),
        }
    }
}

/// The id of a detection rule is among the matches of an event exactly if
/// a detection rule with this id has a log source that admits the event
/// and a detection that holds of it.
pub open spec fn hit(rule: RuleView, id: Seq<char>, source: LogSourceView, data: ValueView) -> bool {
    rule.id == id && match rule.body {
        BodyView::Detection(s, d) => admits(s, source) && detection_holds(d, data),
        BodyView::Correlation(_) => false,
    }
}

pub proof fn lemma_detection_matches(
    rules: Seq<RuleView>,
    source: LogSourceView,
    data: ValueView,
    id: Seq<char>,
)
    ensures
        detection_matches(rules, source, data).contains(id) <==> exists|k: int|
            0 <= k < rules.len() && hit(#[trigger] rules[k], id, source, data),
    decreases rules.len(),
{
    if rules.len() > 0 {
        let front = rules.drop_last();
        let before = detection_matches(front, source, data);
        let now = detection_matches(rules, source, data);
        lemma_detection_matches(front, source, data, id);
        if now.contains(id) {
            let j = choose|j: int| 0 <= j < now.len() && now[j] == id;
            if j < before.len() {
                assert(before[j] == now[j]);
                assert(before.contains(id));
                let k = choose|k: int| 0 <= k < front.len() && hit(#[trigger] front[k], id, source, data);
                assert(rules[k] == front[k]);
            } else {
                assert(hit(rules[rules.len() - 1], id, source, data));
            }
        }
        if exists|k: int| 0 <= k < rules.len() && hit(#[trigger] rules[k], id, source, data) {
            let k = choose|k: int| 0 <= k < rules.len() && hit(#[trigger] rules[k], id, source, data);
            if k == rules.len() - 1 {
                assert(now.last() == id);
            } else {
                assert(front[k] == rules[k]);
                assert(before.contains(id));
                let j = choose|j: int| 0 <= j < before.len() && before[j] == id;
                assert(now[j] == before[j]);
            }
        }
    }
}

/// Log source correctness: a detection rule of a collection is among the
/// matches of an event exactly if its log source admits that of the event
/// and its detection holds of the data of the event.
pub proof fn lemma_log_source_correctness(
    rules: Seq<RuleView>,
    source: LogSourceView,
    data: ValueView,
    k: int,
)
    requires
        unique_ids(rules),
        0 <= k < rules.len(),
        rules[k].body is Detection,
    ensures
        detection_matches(rules, source, data).contains(rules[k].id) <==> (admits(
            rules[k].body->Detection_0,
            source,
        ) && detection_holds(rules[k].body->Detection_1, data)),
{
    let id = rules[k].id;
    lemma_detection_matches(rules, source, data, id);
    if detection_matches(rules, source, data).contains(id) {
        let j = choose|j: int| 0 <= j < rules.len() && hit(#[trigger] rules[j], id, source, data);
        assert(j == k);
    }
    if admits(rules[k].body->Detection_0, source) && detection_holds(
        rules[k].body->Detection_1,
        data,
    ) {
        assert(hit(rules[k], id, source, data));
    }
}

/// Determinism of detection: two collections that hold the same rules, in
/// whatever order, match an event with the same set of detection rules.
pub proof fn lemma_order_independent(
    first: Seq<RuleView>,
    second: Seq<RuleView>,
    source: LogSourceView,
    data: ValueView,
)
    requires
        forall|rule: RuleView| first.contains(rule) <==> second.contains(rule),
    ensures
        detection_matches(first, source, data).to_set() == detection_matches(
            second,
            source,
            data,
        ).to_set(),
{
    let a = detection_matches(first, source, data);
    let b = detection_matches(second, source, data);
    assert forall|id: Seq<char>| a.contains(id) <==> b.contains(id) by {
        lemma_detection_matches(first, source, data, id);
        lemma_detection_matches(second, source, data, id);
        if a.contains(id) {
            let k = choose|k: int| 0 <= k < first.len() && hit(#[trigger] first[k], id, source, data);
            assert(first.contains(first[k]));
            let j = choose|j: int| 0 <= j < second.len() && second[j] == first[k];
            assert(hit(second[j], id, source, data));
        }
        if b.contains(id) {
            let k = choose|k: int| 0 <= k < second.len() && hit(#[trigger] second[k], id, source, data);
            assert(second.contains(second[k]));
            let j = choose|j: int| 0 <= j < first.len() && first[j] == second[k];
            assert(hit(first[j], id, source, data));
        }
    }
    assert(a.to_set() =~= b.to_set());
}

/// An event as a collection sees it: the time, the log source and the
/// data.
pub struct Seen {
    pub at: u64,
    pub source: LogSourceView,
    pub data: ValueView,
}

/// The backend once the clock has reached a time.
pub open spec fn moved_to(b: BackendView, now: u64) -> BackendView {
    BackendView { store: after_advance(b.store, now), states: b.states }
}

/// What a set of rules makes of an event at its time: the clock is moved,
/// the detections are matched, and the correlations are tried.
pub open spec fn sees(
    rules: Seq<RuleView>,
    m: GraphModel,
    order: Seq<int>,
    b: BackendView,
    event: Seen,
) -> (Result<(), BackendError>, BackendView, Seq<Seq<char>>) {
    let found = detection_matches(rules, event.source, event.data);
    correlate(rules, m, order, found, 0, moved_to(b, event.at), event.data, found)
}

/// The backend once a set of rules has seen events one after the other;
/// none where the backend failed on one of them.
pub open spec fn after_events(
    rules: Seq<RuleView>,
    m: GraphModel,
    order: Seq<int>,
    b: BackendView,
    events: Seq<Seen>,
) -> Option<BackendView>
    decreases events.len(),
{
    if events.len() == 0 {
        Some(b)
    } else {
        match after_events(rules, m, order, b, events.drop_last()) {
            None => None,
            Some(before) => {
                let (res, after, all) = sees(rules, m, order, before, events.last());
                if res is Ok {
                    Some(after)
                } else {
                    None
                }
            },
        }
    }
}

impl SigmaCollection {
    /// The graph and the order of a well-formed collection whose
    /// correlations go by the ids of their rules are those of its rules.
    pub proof fn lemma_solved(self)
        requires
            self.wf(),
            own_ids(self.rules()),
        ensures
            solved_by(self.rules(), self.graph(), self.order()),
    {
        let links = all_links(self.rules(), 0)->Ok_0;
        lemma_built(links);
    }

    /// Backends without states that hold the same increments are alike once
    /// two collections of the same rules have been initialised on them, and
    /// neither fails to be, where no two rules go by one name and every
    /// correlation goes by the id of its rule.
    pub proof fn lemma_init_alike(
        self,
        other: SigmaCollection,
        backend: BackendView,
        second: BackendView,
    )
        requires
            self.wf(),
            other.wf(),
            same_rules(self.rules(), other.rules()),
            unique_names(self.rules()),
            own_ids(self.rules()),
            backend.states.len() == 0,
            second.states.len() == 0,
            same_store(backend.store, second.store),
        ensures
            register_all(backend.states, self.rules(), 0) is Some,
            register_all(second.states, other.rules(), 0) is Some,
            alike(
                (BackendView {
                    store: backend.store,
                    states: register_all(backend.states, self.rules(), 0)->Some_0,
                }),
                (BackendView {
                    store: second.store,
                    states: register_all(second.states, other.rules(), 0)->Some_0,
                }),
            ),
    {
        lemma_same_rules(self.rules(), other.rules());
        assert(backend.states =~= Seq::empty());
        assert(second.states =~= Seq::empty());
        lemma_registered_same(self.rules(), other.rules());
    }

    /// Order independence: on backends that are alike, two collections of
    /// the same rules, in whatever order they were added, fail on an event
    /// together, and otherwise match it with the same set of rules and
    /// leave backends that are alike again, where no two rules go by one
    /// name and every correlation goes by the id of its rule.
    pub proof fn lemma_matches_order_independent(
        self,
        other: SigmaCollection,
        backend: BackendView,
        second: BackendView,
        source: LogSourceView,
        data: ValueView,
    )
        requires
            self.wf(),
            other.wf(),
            same_rules(self.rules(), other.rules()),
            unique_names(self.rules()),
            own_ids(self.rules()),
            alike(backend, second),
        ensures
            ({
                let found = detection_matches(self.rules(), source, data);
                let again = detection_matches(other.rules(), source, data);
                let one = correlate(
                    self.rules(),
                    self.graph(),
                    self.order(),
                    found,
                    0,
                    backend,
                    data,
                    found,
                );
                let twin = correlate(
                    other.rules(),
                    other.graph(),
                    other.order(),
                    again,
                    0,
                    second,
                    data,
                    again,
                );
                &&& found.to_set() == again.to_set()
                &&& one.0 is Ok <==> twin.0 is Ok
                &&& one.0 is Ok ==> one.2.to_set() == twin.2.to_set() && alike(one.1, twin.1)
            }),
    {
        let found = detection_matches(self.rules(), source, data);
        let again = detection_matches(other.rules(), source, data);
        let (res, after, all) = correlate(
            self.rules(),
            self.graph(),
            self.order(),
            found,
            0,
            backend,
            data,
            found,
        );
        let (fate, later, rest) = correlate(
            other.rules(),
            other.graph(),
            other.order(),
            again,
            0,
            second,
            data,
            again,
        );
        lemma_same_rules(self.rules(), other.rules());
        self.lemma_solved();
        other.lemma_solved();
        lemma_order_independent(self.rules(), other.rules(), source, data);
        lemma_same_set(found, again);
        lemma_same_set(again, found);
        let one = Round {
            rules: self.rules(),
            graph: self.graph(),
            order: self.order(),
            start: found,
            first: backend,
            all,
        };
        let twin = Round {
            rules: other.rules(),
            graph: other.graph(),
            order: other.order(),
            start: again,
            first: second,
            all: rest,
        };
        lemma_alike(backend, second);
        lemma_twins_fail(one, twin, data);
        lemma_twins_fail(twin, one, data);
        if res is Ok {
            lemma_ran(one, data);
            lemma_ran(twin, data);
            lemma_twins(one, twin, data);
            lemma_same_set(all, rest);
            lemma_twins_end(one, twin, data);
        }
    }

    /// Determinism over a history: two collections of the same rules, in
    /// whatever order they were added, that have seen the same events at
    /// the same times on backends that were alike at first, have failed
    /// together or have backends that are alike, and match the next event
    /// with the same set of rules, where no two rules go by one name and
    /// every correlation goes by the id of its rule.
    pub proof fn lemma_history_order_independent(
        self,
        other: SigmaCollection,
        backend: BackendView,
        second: BackendView,
        events: Seq<Seen>,
    )
        requires
            self.wf(),
            other.wf(),
            same_rules(self.rules(), other.rules()),
            unique_names(self.rules()),
            own_ids(self.rules()),
            alike(backend, second),
        ensures
            ({
                let one = after_events(self.rules(), self.graph(), self.order(), backend, events);
                let twin = after_events(other.rules(), other.graph(), other.order(), second, events);
                &&& one is Some <==> twin is Some
                &&& one is Some ==> alike(one->Some_0, twin->Some_0)
                &&& one is Some && events.len() > 0 ==> sees(
                    self.rules(),
                    self.graph(),
                    self.order(),
                    after_events(
                        self.rules(),
                        self.graph(),
                        self.order(),
                        backend,
                        events.drop_last(),
                    )->Some_0,
                    events.last(),
                ).2.to_set() == sees(
                    other.rules(),
                    other.graph(),
                    other.order(),
                    after_events(
                        other.rules(),
                        other.graph(),
                        other.order(),
                        second,
                        events.drop_last(),
                    )->Some_0,
                    events.last(),
                ).2.to_set()
            }),
        decreases events.len(),
    {
        if events.len() > 0 {
            let earlier = events.drop_last();
            let event = events.last();
            self.lemma_history_order_independent(other, backend, second, earlier);
            let one = after_events(self.rules(), self.graph(), self.order(), backend, earlier);
            let twin = after_events(other.rules(), other.graph(), other.order(), second, earlier);
            if one is Some {
                lemma_advance_alike(one->Some_0, twin->Some_0, event.at);
                self.lemma_matches_order_independent(
                    other,
                    moved_to(one->Some_0, event.at),
                    moved_to(twin->Some_0, event.at),
                    event.source,
                    event.data,
                );
            }
        }
    }

    /// Graph acyclicity: the dependencies of a well-formed collection form
    /// no cycle.
    pub proof fn lemma_acyclic(self)
        requires
            self.wf(),
        ensures
            all_links(self.rules(), 0) matches Ok(links) && !cyclic(links),
            solved(self.rules()) == Ok::<GraphModel, Failure>(self.graph()),
            !has_cycle(self.graph().edges),
    {
        let links = all_links(self.rules(), 0)->Ok_0;
        lemma_built(links);
        lemma_cycle(self.graph(), links);
    }

    /// Which correlations are tried: the node of a rule is a candidate
    /// exactly if a path of dependencies leads to the rule from a rule that
    /// matched at the start and that takes part in a dependency.
    pub proof fn lemma_candidates(self, start: Seq<Seq<char>>, node: int)
        requires
            self.wf(),
            0 <= node < self.graph().ids.len(),
        ensures
            all_links(self.rules(), 0) matches Ok(links) && (is_candidate(self.graph(), start, node)
                <==> exists|k: int|
                0 <= k < start.len() && mentioned(links, #[trigger] start[k]) && connects(
                    links,
                    start[k],
                    self.graph().ids[node],
                )),
    {
        let m = self.graph();
        let links = all_links(self.rules(), 0)->Ok_0;
        lemma_built(links);
        assert forall|k: int| 0 <= k < start.len() implies (leads(m, #[trigger] start[k], node) <==> (
        mentioned(links, start[k]) && connects(links, start[k], m.ids[node]))) by {
            if m.ids.contains(start[k]) {
                lemma_reach(m, links, start[k], node);
                let j = choose|j: int| 0 <= j < m.ids.len() && m.ids[j] == start[k];
                assert(mentioned(links, m.ids[j]));
            } else if mentioned(links, start[k]) {
                let i = choose|i: int|
                    0 <= i < links.len() && ((#[trigger] links[i]).0 == start[k] || links[i].1
                        == start[k]);
                assert(joined(m, links, i));
            }
        }
    }

    /// Dependency closure: every rule that a correlation rule of a
    /// well-formed collection refers to, by id or by name, is a rule of the
    /// collection.
    pub proof fn lemma_dependency_closure(self, k: int, j: int)
        requires
            self.wf(),
            0 <= k < self.rules().len(),
            0 <= j < references(self.rules()[k]).len(),
        ensures
            resolve_ref(self.rules(), references(self.rules()[k])[j]) matches Some(id) && has_id(
                self.rules(),
                id,
            ),
    {
        let rules = self.rules();
        let reference = references(rules[k])[j];
        lemma_all_links(rules, 0, k);
        lemma_rule_links(rules, rules[k].id, references(rules[k]), j);
        lemma_named_id(rules, reference);
    }
}

/// A rule that would create a cycle is refused: a rule is added only
/// where the dependencies of the larger set form no cycle, and where they
/// form one, adding fails. It fails with the cycle for a rule of a new id
/// whose dependencies the graph can hold.
pub proof fn lemma_add_refuses_cycle(rules: Seq<RuleView>, rule: RuleView)
    ensures
        add_result(rules, rule) is Ok ==> (all_links(rules.push(rule), 0) matches Ok(links)
            && !cyclic(links)),
        (all_links(rules.push(rule), 0) matches Ok(links) && cyclic(links)) ==> add_result(
            rules,
            rule,
        ) is Err,
        (all_links(rules.push(rule), 0) matches Ok(links) && !has_id(rules, rule.id) && cyclic(
            links,
        ) && build(empty_graph(), links) is Some) ==> add_result(rules, rule) == Err::<
            (),
            Failure,
        >(Failure::DependencyCycle),
{
}

/// A reference that means a rule still means one once a rule is added.
proof fn lemma_resolve_grows(rules: Seq<RuleView>, rule: RuleView, reference: Seq<char>)
    requires
        resolve_ref(rules, reference) is Some,
    ensures
        resolve_ref(rules.push(rule), reference) is Some,
{
    let more = rules.push(rule);
    assert(more.drop_last() == rules);
    assert(more.last() == rule);
    if has_id(rules, reference) {
        let i = choose|i: int| 0 <= i < rules.len() && (#[trigger] rules[i]).id == reference;
        assert(more[i].id == reference);
    }
}

proof fn lemma_rule_links_grow(
    rules: Seq<RuleView>,
    rule: RuleView,
    id: Seq<char>,
    refs: Seq<Seq<char>>,
)
    requires
        rule_links(rules, id, refs) is Ok,
    ensures
        rule_links(rules.push(rule), id, refs) is Ok,
    decreases refs.len(),
{
    if refs.len() > 0 {
        lemma_resolve_grows(rules, rule, refs[0]);
        lemma_rule_links_grow(rules, rule, id, refs.skip(1));
    }
}

proof fn lemma_all_links_grow(rules: Seq<RuleView>, rule: RuleView, from: int)
    requires
        0 <= from <= rules.len(),
        all_links(rules, from) is Ok,
    ensures
        all_links(rules.push(rule), from) is Ok <==> rule_links(
            rules.push(rule),
            rule.id,
            references(rule),
        ) is Ok,
        all_links(rules.push(rule), from) matches Err(pair) ==> rule_links(
            rules.push(rule),
            rule.id,
            references(rule),
        ) == Err::<Seq<Link>, Link>(pair),
    decreases rules.len() - from,
{
    let more = rules.push(rule);
    if from < rules.len() {
        assert(more[from] == rules[from]);
        lemma_rule_links_grow(rules, rule, rules[from].id, references(rules[from]));
        lemma_all_links_grow(rules, rule, from + 1);
    } else {
        assert(more[from] == rule);
        assert(all_links(more, from + 1) == Ok::<Seq<Link>, Link>(Seq::empty()));
    }
}

/// Dependency closure at the door: where the references of the rules of
/// a collection mean rules, a rule of a new id is refused for the first of
/// its references that means no rule, neither in the collection nor the
/// rule itself: the failure names the rule and that reference.
pub proof fn lemma_add_missing(rules: Seq<RuleView>, rule: RuleView, j: int)
    requires
        all_links(rules, 0) is Ok,
        !has_id(rules, rule.id),
        0 <= j < references(rule).len(),
        resolve_ref(rules.push(rule), references(rule)[j]) is None,
        forall|i: int|
            0 <= i < j ==> resolve_ref(rules.push(rule), #[trigger] references(rule)[i]) is Some,
    ensures
        add_result(rules, rule) == Err::<(), Failure>(
            Failure::DependencyMissing(rule.id, references(rule)[j]),
        ),
{
    lemma_all_links_grow(rules, rule, 0);
    lemma_first_missing(rules.push(rule), rule.id, references(rule), j);
}

proof fn lemma_first_missing(rules: Seq<RuleView>, id: Seq<char>, refs: Seq<Seq<char>>, j: int)
    requires
        0 <= j < refs.len(),
        resolve_ref(rules, refs[j]) is None,
        forall|i: int| 0 <= i < j ==> resolve_ref(rules, #[trigger] refs[i]) is Some,
    ensures
        rule_links(rules, id, refs) == Err::<Seq<Link>, Link>((id, refs[j])),
    decreases refs.len(),
{
    if j > 0 {
        let rest = refs.skip(1);
        assert(resolve_ref(rules, refs[0]) is Some);
        assert(rest[j - 1] == refs[j]);
        assert forall|i: int| 0 <= i < j - 1 implies resolve_ref(rules, #[trigger] rest[i])
            is Some by {
            assert(rest[i] == refs[i + 1]);
        }
        lemma_first_missing(rules, id, rest, j - 1);
    }
}

/// The entry of a rule in the log source index, where it is a detection.
pub open spec fn entry_of(rule: RuleView) -> Option<(Seq<char>, LogSourceView)> {
    match rule.body {
        BodyView::Detection(source, _) => Some((rule.id, source)),
        BodyView::Correlation(_) => None,
    }
}

/// An entry of the log source index comes from a detection rule, and every
/// detection rule has its entry.
pub proof fn lemma_entries(rules: Seq<RuleView>, id: Seq<char>, source: LogSourceView)
    ensures
        detection_entries(rules).contains((id, source)) <==> exists|k: int|
            0 <= k < rules.len() && entry_of(#[trigger] rules[k]) == Some((id, source)),
    decreases rules.len(),
{
    if rules.len() > 0 {
        let front = rules.drop_last();
        let before = detection_entries(front);
        let now = detection_entries(rules);
        lemma_entries(front, id, source);
        if now.contains((id, source)) {
            let j = choose|j: int| 0 <= j < now.len() && now[j] == (id, source);
            if j < before.len() {
                assert(before[j] == now[j]);
                assert(before.contains((id, source)));
                let k = choose|k: int|
                    0 <= k < front.len() && entry_of(#[trigger] front[k]) == Some((id, source));
                assert(rules[k] == front[k]);
            } else {
                assert(rules[rules.len() - 1] == rules.last());
            }
        }
        if exists|k: int|
            0 <= k < rules.len() && entry_of(#[trigger] rules[k]) == Some((id, source)) {
            let k = choose|k: int|
                0 <= k < rules.len() && entry_of(#[trigger] rules[k]) == Some((id, source));
            if k == rules.len() - 1 {
                assert(now.last() == (id, source));
            } else {
                assert(front[k] == rules[k]);
                assert(before.contains((id, source)));
                let j = choose|j: int| 0 <= j < before.len() && before[j] == (id, source);
                assert(now[j] == before[j]);
            }
        }
    }
}

/// In a collection without two rules of one id, the index admits a
/// detection rule for a log source exactly if the log source of the rule
/// admits it.
pub proof fn lemma_candidate(rules: Seq<RuleView>, target: LogSourceView, i: int)
    requires
        unique_ids(rules),
        0 <= i < rules.len(),
        rules[i].body is Detection,
    ensures
        admitted(detection_entries(rules), target).contains(rules[i].id) <==> admits(
            rules[i].body->Detection_0,
            target,
        ),
{
    let entries = detection_entries(rules);
    let id = rules[i].id;
    let source = rules[i].body->Detection_0;
    lemma_admitted(entries, target, id);
    if admits(source, target) {
        lemma_entries(rules, id, source);
        assert(entries.contains((id, source)));
        let j = choose|j: int| 0 <= j < entries.len() && entries[j] == (id, source);
        assert(entries[j].0 == id);
        assert(axis_admits(axis(entries[j].1, 0), target.category));
        assert(axis_admits(axis(entries[j].1, 1), target.product));
        assert(axis_admits(axis(entries[j].1, 2), target.service));
    }
    if admits_id(entries, id, target) {
        lemma_only_entry(rules, i, 0, target.category);
        lemma_only_entry(rules, i, 1, target.product);
        lemma_only_entry(rules, i, 2, target.service);
    }
}

/// In a collection without two rules of one id, the index lists the id of
/// a detection rule on an axis only through the log source of that rule.
proof fn lemma_only_entry(rules: Seq<RuleView>, i: int, which: int, goal: Option<Seq<char>>)
    requires
        unique_ids(rules),
        0 <= i < rules.len(),
        rules[i].body is Detection,
        listed(detection_entries(rules), rules[i].id, which, goal),
    ensures
        axis_admits(axis(rules[i].body->Detection_0, which), goal),
{
    let entries = detection_entries(rules);
    let id = rules[i].id;
    let j = choose|j: int|
        0 <= j < entries.len() && (#[trigger] entries[j]).0 == id && axis_admits(
            axis(entries[j].1, which),
            goal,
        );
    lemma_entries(rules, id, entries[j].1);
    assert(entries.contains((id, entries[j].1)));
    let k = choose|k: int| 0 <= k < rules.len() && entry_of(#[trigger] rules[k]) == Some((id, entries[j].1));
    assert(k == i);
}

} // verus!
