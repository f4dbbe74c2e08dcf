//! Correlation rules and how they are decided: which counters an event
//! touches, and what the counts that come back mean.
use vstd::prelude::*;
use crate::correlation::state::{
    after_incr, counted, group_view, lemma_same_counts_step, lemma_step_frame, lemma_step_local,
    observed, pairs, same_counts, same_counts_of, state_of, BackendError, BackendView,
    Discriminator, DiscriminatorView, GroupBy, GroupView, Key, KeyView, MemBackend, MemBackendImpl,
    Pairs, StateView,
};
use crate::text::{same_text, texts};
use crate::value::{member, Value, ValueView};

verus! {

/// A comparison of a count with a number.
#[derive(Debug, Clone, Copy, PartialEq, Eq, Structural)]
pub enum Condition {
    Gt(i64),
    Gte(i64),
    Lt(i64),
    Lte(i64),
    Eq(i64),
}

/// Whether a count meets a comparison.
pub open spec fn holds(c: Condition, value: int) -> bool {
    match c {
        Condition::Gt(n) => value > n,
        Condition::Gte(n) => value >= n,
        Condition::Lt(n) => value < n,
        Condition::Lte(n) => value <= n,
        Condition::Eq(n) => value == n,
    }
}

/// Whether a count meets every comparison of a list.
pub open spec fn all_hold(list: Seq<Condition>, value: int) -> bool {
    forall|i: int| 0 <= i < list.len() ==> holds(#[trigger] list[i], value)
}

impl Condition {
    /// Whether `value` meets the comparison.
    pub fn is_match(&self, value: i64) -> (r: bool)
        ensures
            r == holds(*self, value as int),
    {
        match self {
            Condition::Gt(n) => value > *n,
            Condition::Gte(n) => value >= *n,
            Condition::Lt(n) => value < *n,
            Condition::Lte(n) => value <= *n,
            Condition::Eq(n) => value == *n,
        }
    }
}

/// One comparison, or several that must all be met.
#[derive(Debug)]
pub enum ConditionOrList {
    Condition(Condition),
    List(Vec<Condition>),
}

impl View for ConditionOrList {
    type V = Seq<Condition>;

    open spec fn view(&self) -> Seq<Condition> {
        match self {
            ConditionOrList::Condition(c) => seq![*c],
            ConditionOrList::List(list) => list@,
        }
    }
}

impl ConditionOrList {
    /// Whether `value` meets the comparison, or all of them.
    #[verifier::loop_isolation(false)]
    pub fn is_match(&self, value: i64) -> (r: bool)
        ensures
            r == all_hold(self@, value as int),
    {
        match self {
            ConditionOrList::Condition(c) => {
                assert(seq![*c][0] == *c);
                c.is_match(value)
            },
            ConditionOrList::List(list) => {
                let mut i: usize = 0;
                while i < list.len()
                    invariant
                        i <= list.len(),
                        forall|j: int| 0 <= j < i ==> holds(#[trigger] list@[j], value as int),
                    decreases list.len() - i,
                {
                    if !list[i].is_match(value) {
                        return false;
                    }
                    i += 1;
                }
                true
            },
        }
    }
}

/// The condition of an event count.
#[derive(Debug)]
pub struct EventCount {
    pub condition: ConditionOrList,
}

/// The condition of a value count: a comparison, and the field whose
/// distinct values are counted.
#[derive(Debug)]
pub struct ValueCondition {
    pub condition: Condition,
    pub field: String,
}

/// The condition of a value count.
#[derive(Debug)]
pub struct ValueCount {
    pub condition: ValueCondition,
}

/// The kinds of correlation.
#[derive(Debug)]
pub enum CorrelationType {
    EventCount(EventCount),
    ValueCount(ValueCount),
    Temporal,
    TemporalOrdered,
}

/// The mathematical content of a [`CorrelationType`].
pub enum KindView {
    EventCount(Seq<Condition>),
    ValueCount(Seq<char>, Condition),
    Temporal,
    TemporalOrdered,
}

impl View for CorrelationType {
    type V = KindView;

    open spec fn view(&self) -> KindView {
        match self {
            CorrelationType::EventCount(e) => KindView::EventCount(e.condition@),
            CorrelationType::ValueCount(v) => KindView::ValueCount(
                v.condition.field@,
                v.condition.condition,
            ),
            CorrelationType::Temporal => KindView::Temporal,
            CorrelationType::TemporalOrdered => KindView::TemporalOrdered,
        }
    }
}

/// The body of a correlation rule.
#[derive(Debug)]
pub struct Correlation {
    pub correlation_type: CorrelationType,
    /// The rules, by id or name, whose matches are correlated.
    pub rules: Vec<String>,
    /// How long a match counts.
    pub timespan: u64,
    /// The fields of the event that partition the counting.
    pub group_by: Vec<String>,
    pub id: String,
}

/// The mathematical content of a [`Correlation`].
pub struct CorrelationView {
    pub kind: KindView,
    pub rules: Seq<Seq<char>>,
    pub timespan: u64,
    pub group_by: Seq<Seq<char>>,
    pub id: Seq<char>,
}

impl View for Correlation {
    type V = CorrelationView;

    open spec fn view(&self) -> CorrelationView {
        CorrelationView {
            kind: self.correlation_type@,
            rules: texts(self.rules@),
            timespan: self.timespan,
            group_by: texts(self.group_by@),
            id: self.id@,
        }
    }
}

/// A correlation rule.
#[derive(Debug)]
pub struct CorrelationRule {
    pub inner: Correlation,
    pub extra: Vec<(String, String)>,
}

/// A request to the state of a rule.
#[derive(Debug)]
pub enum Lookup {
    /// Increment the counter and observe it.
    Incr(Key),
    /// Read the counter.
    Count(Key),
}

/// The mathematical content of a [`Lookup`].
pub enum LookupView {
    Incr(KeyView),
    Count(KeyView),
}

impl View for Lookup {
    type V = LookupView;

    open spec fn view(&self) -> LookupView {
        match self {
            Lookup::Incr(k) => LookupView::Incr(k@),
            Lookup::Count(k) => LookupView::Count(k@),
        }
    }
}

/// The contents of a list of requests.
pub open spec fn lookup_views(items: Seq<Lookup>) -> Seq<LookupView> {
    items.map_values(|l: Lookup| l@)
}

/// The group of an event: the fields that the rule groups by, each with
/// the value that the event holds under that name; none where the event
/// lacks one of them.
pub open spec fn group_of(group_by: Seq<Seq<char>>, event: ValueView) -> Option<Pairs>
    decreases group_by.len(),
{
    if group_by.len() == 0 {
        Some(Seq::empty())
    } else {
        match group_of(group_by.drop_last(), event) {
            None => None,
            Some(before) => match member(event, group_by.last()) {
                None => None,
                Some(v) => Some(before.push((group_by.last(), v))),
            },
        }
    }
}

/// Whether every reference is among those that count as present.
pub open spec fn all_in(rules: Seq<Seq<char>>, present: Seq<Seq<char>>) -> bool {
    forall|i: int| 0 <= i < rules.len() ==> present.contains(#[trigger] rules[i])
}

/// The requests of a temporal correlation: for each reference, in order,
/// an increment where it counts as present and a reading where it does not.
pub open spec fn temporal_lookups(rules: Seq<Seq<char>>, present: Seq<Seq<char>>, group: GroupView) -> Seq<
    LookupView,
> {
    Seq::new(
        rules.len(),
        |i: int|
            {
                let key = KeyView::ValueCount(group, DiscriminatorView::Rule(rules[i]));
                if present.contains(rules[i]) {
                    LookupView::Incr(key)
                } else {
                    LookupView::Count(key)
                }
            },
    )
}

/// The requests that an event of a group puts to the state of a rule,
/// given the references that count as present; none where a count lacks a
/// reference or the counted field.
pub open spec fn lookups_for(
    c: CorrelationView,
    group: GroupView,
    event: ValueView,
    present: Seq<Seq<char>>,
) -> Option<Seq<LookupView>> {
    match c.kind {
        KindView::EventCount(_) => if all_in(c.rules, present) {
            Some(seq![LookupView::Incr(KeyView::EventCount(group))])
        } else {
            None
        },
        KindView::ValueCount(field, _) => if all_in(c.rules, present) {
            match member(event, field) {
                Some(v) => Some(
                    seq![
                        LookupView::Incr(
                            KeyView::ValueCount(group, DiscriminatorView::Field(field, v)),
                        ),
                    ],
                ),
                None => None,
            }
        } else {
            None
        },
        _ => Some(temporal_lookups(c.rules, present, group)),
    }
}

/// The requests that an event puts to the state of a rule, given the
/// references that count as present; none where the rule cannot match: the
/// event lacks a field of the group, or a count lacks a reference or the
/// counted field.
pub open spec fn plan(c: CorrelationView, event: ValueView, present: Seq<Seq<char>>) -> Option<
    Seq<LookupView>,
> {
    match group_of(c.group_by, event) {
        None => None,
        Some(group) => lookups_for(c, group.to_multiset(), event, present),
    }
}

/// Whether the requests are answered one after the other and given up at
/// the first answer of zero.
pub open spec fn in_order(kind: KindView) -> bool {
    kind is TemporalOrdered
}

/// A count as a signed number, the largest one for what lies beyond.
pub open spec fn signed(n: u64) -> int {
    if n > i64::MAX {
        i64::MAX as int
    } else {
        n as int
    }
}

/// Whether no count is zero.
pub open spec fn none_zero(counts: Seq<u64>) -> bool {
    forall|i: int| 0 <= i < counts.len() ==> #[trigger] counts[i] != 0
}

/// Whether the rule matches, given the answers to its requests: a count
/// meets its condition; a temporal correlation has an answer for every
/// referenced rule and none of them is zero.
pub open spec fn verdict(c: CorrelationView, counts: Seq<u64>) -> bool {
    match c.kind {
        KindView::EventCount(conditions) => counts.len() == 1 && all_hold(
            conditions,
            signed(counts[0]),
        ),
        KindView::ValueCount(_, condition) => counts.len() == 1 && holds(
            condition,
            signed(counts[0]),
        ),
        _ => counts.len() == c.rules.len() && none_zero(counts),
    }
}

/// The state after one request, and its answer.
pub open spec fn step(s: StateView, rule: Seq<char>, timeout: u64, l: LookupView) -> (StateView, u64) {
    match l {
        LookupView::Incr(key) => {
            let after = after_incr(s, rule, timeout, key);
            (after, observed(after.pending, rule, key) as u64)
        },
        LookupView::Count(key) => (s, counted(s.pending, rule, key) as u64),
    }
}

/// Answers in front of what follows.
pub open spec fn chain(counts: Seq<u64>, rest: (StateView, Seq<u64>)) -> (StateView, Seq<u64>) {
    (rest.0, counts + rest.1)
}

/// The state after a list of requests, and the answers; where the requests
/// are taken in order, nothing is asked after the first answer of zero.
pub open spec fn run(
    s: StateView,
    rule: Seq<char>,
    timeout: u64,
    lookups: Seq<LookupView>,
    ordered: bool,
) -> (StateView, Seq<u64>)
    decreases lookups.len(),
{
    if lookups.len() == 0 {
        (s, Seq::empty())
    } else {
        let (next, n) = step(s, rule, timeout, lookups[0]);
        if ordered && n == 0 {
            (next, seq![n])
        } else {
            chain(seq![n], run(next, rule, timeout, lookups.skip(1), ordered))
        }
    }
}

/// What evaluating a rule against an event gives, given the references
/// that count as present, and the backend after it. An event without a
/// field of the group matches nothing and touches no state; a rule that the
/// backend has not registered is an error.
pub open spec fn outcome(c: CorrelationView, b: BackendView, event: ValueView, present: Seq<Seq<char>>) -> (
    Result<bool, BackendError>,
    BackendView,
) {
    if group_of(c.group_by, event) is None {
        (Ok(false), b)
    } else {
        match state_of(b.states, c.id) {
            None => (Err(BackendError::StateError), b),
            Some((rule, timeout)) => match plan(c, event, present) {
                None => (Ok(false), b),
                Some(lookups) => {
                    let (after, counts) = run(b.store, rule, timeout, lookups, in_order(c.kind));
                    (Ok(verdict(c, counts)), BackendView { store: after, states: b.states })
                },
            },
        }
    }
}

/// Whether two backends hold the same counts and the same registered
/// rules.
pub open spec fn same_backend(a: BackendView, b: BackendView) -> bool {
    same_counts(a.store, b.store) && a.states == b.states
}

/// States that hold the same counts give the same answers to a list of
/// requests, and hold the same counts after it.
pub proof fn lemma_run_same_counts(
    a: StateView,
    b: StateView,
    rule: Seq<char>,
    timeout: u64,
    lookups: Seq<LookupView>,
    ordered: bool,
)
    requires
        same_counts(a, b),
    ensures
        run(a, rule, timeout, lookups, ordered).1 == run(b, rule, timeout, lookups, ordered).1,
        same_counts(
            run(a, rule, timeout, lookups, ordered).0,
            run(b, rule, timeout, lookups, ordered).0,
        ),
    decreases lookups.len(),
{
    if lookups.len() > 0 {
        let key = match lookups[0] {
            LookupView::Incr(key) => key,
            LookupView::Count(key) => key,
        };
        lemma_same_counts_step(a, b, rule, timeout, key);
        let (x, n) = step(a, rule, timeout, lookups[0]);
        let (y, m) = step(b, rule, timeout, lookups[0]);
        assert(n == m);
        assert(same_counts(x, y));
        lemma_run_same_counts(x, y, rule, timeout, lookups.skip(1), ordered);
    }
}

/// Determinism of a correlation: on backends that hold the same counts a
/// rule gives the same result, and leaves them holding the same counts.
pub proof fn lemma_outcome_same_counts(
    c: CorrelationView,
    a: BackendView,
    b: BackendView,
    event: ValueView,
    counted: Seq<Seq<char>>,
)
    requires
        same_backend(a, b),
    ensures
        outcome(c, a, event, counted).0 == outcome(c, b, event, counted).0,
        same_backend(outcome(c, a, event, counted).1, outcome(c, b, event, counted).1),
{
    if group_of(c.group_by, event) is Some {
        match state_of(a.states, c.id) {
            None => {},
            Some((rule, timeout)) => match plan(c, event, counted) {
                None => {},
                Some(lookups) => {
                    lemma_run_same_counts(a.store, b.store, rule, timeout, lookups, in_order(c.kind));
                },
            },
        }
    }
}

/// The counters of a rule decide the answers to its requests, and its
/// requests leave the counters of every other rule as they are.
pub proof fn lemma_run_local(
    a: StateView,
    b: StateView,
    rule: Seq<char>,
    timeout: u64,
    lookups: Seq<LookupView>,
    ordered: bool,
    other: Seq<char>,
)
    requires
        same_counts_of(a, b, rule),
        other != rule,
    ensures
        run(a, rule, timeout, lookups, ordered).1 == run(b, rule, timeout, lookups, ordered).1,
        same_counts_of(
            run(a, rule, timeout, lookups, ordered).0,
            run(b, rule, timeout, lookups, ordered).0,
            rule,
        ),
        same_counts_of(run(a, rule, timeout, lookups, ordered).0, a, other),
    decreases lookups.len(),
{
    if lookups.len() > 0 {
        let key = match lookups[0] {
            LookupView::Incr(key) => key,
            LookupView::Count(key) => key,
        };
        lemma_step_local(a, b, rule, timeout, key);
        lemma_step_frame(a, rule, timeout, key, other);
        let (x, n) = step(a, rule, timeout, lookups[0]);
        let (y, m) = step(b, rule, timeout, lookups[0]);
        assert(n == m);
        assert(same_counts_of(x, y, rule));
        assert(same_counts_of(x, a, other));
        lemma_run_local(x, y, rule, timeout, lookups.skip(1), ordered, other);
    }
}

/// The state of a rule stands under the id of the rule.
pub proof fn lemma_state_of(states: Seq<(Seq<char>, u64)>, rule: Seq<char>)
    ensures
        state_of(states, rule) matches Some(state) ==> state.0 == rule,
    decreases states.len(),
{
    if states.len() > 0 && states[0].0 != rule {
        lemma_state_of(states.skip(1), rule);
    }
}

/// Correlations do not disturb each other: a rule is decided by the
/// counters that stand under its own id, and it leaves the counters under
/// every other id, the clock and the registered rules as they are.
pub proof fn lemma_outcome_local(
    c: CorrelationView,
    a: BackendView,
    b: BackendView,
    event: ValueView,
    counted: Seq<Seq<char>>,
    other: Seq<char>,
)
    requires
        state_of(a.states, c.id) == state_of(b.states, c.id),
        same_counts_of(a.store, b.store, c.id),
    ensures
        outcome(c, a, event, counted).0 == outcome(c, b, event, counted).0,
        same_counts_of(
            outcome(c, a, event, counted).1.store,
            outcome(c, b, event, counted).1.store,
            c.id,
        ),
        other != c.id ==> same_counts_of(outcome(c, a, event, counted).1.store, a.store, other),
        outcome(c, a, event, counted).1.states == a.states,
{
    lemma_state_of(a.states, c.id);
    let apart = if other != c.id {
        other
    } else {
        c.id.push('a')
    };
    assert(apart != c.id) by {
        if other == c.id {
            assert(apart.len() != c.id.len());
        }
    }
    if group_of(c.group_by, event) is Some {
        match state_of(a.states, c.id) {
            None => {},
            Some((rule, timeout)) => match plan(c, event, counted) {
                None => {},
                Some(lookups) => {
                    lemma_run_local(
                        a.store,
                        b.store,
                        rule,
                        timeout,
                        lookups,
                        in_order(c.kind),
                        apart,
                    );
                },
            },
        }
    }
}

/// The references that count as present are the same wherever each of
/// them counts alike.
pub proof fn lemma_present_alike(
    refs: Seq<Seq<char>>,
    directory: Directory,
    one: Seq<Seq<char>>,
    second: Directory,
    other: Seq<Seq<char>>,
)
    requires
        forall|j: int|
            0 <= j < refs.len() ==> counts(directory, one, #[trigger] refs[j]) == counts(
                second,
                other,
                refs[j],
            ),
    ensures
        present(refs, directory, one) == present(refs, second, other),
    decreases refs.len(),
{
    if refs.len() > 0 {
        let front = refs.drop_last();
        assert forall|j: int| 0 <= j < front.len() implies counts(
            directory,
            one,
            #[trigger] front[j],
        ) == counts(second, other, front[j]) by {
            assert(front[j] == refs[j]);
        }
        lemma_present_alike(front, directory, one, second, other);
        assert(refs.last() == refs[refs.len() - 1]);
    }
}

/// The references that count as present are the same for two lists of
/// matches that hold the same rules among those that the references mean.
pub proof fn lemma_present_same(
    refs: Seq<Seq<char>>,
    directory: Directory,
    one: Seq<Seq<char>>,
    other: Seq<Seq<char>>,
)
    requires
        forall|j: int|
            0 <= j < refs.len() ==> counts(directory, one, #[trigger] refs[j]) == counts(
                directory,
                other,
                refs[j],
            ),
    ensures
        present(refs, directory, one) == present(refs, directory, other),
{
    lemma_present_alike(refs, directory, one, directory, other);
}

/// The rules that a reference can mean: for each rule, in the order of the
/// collection, its id and the name that it goes by.
pub type Directory = Seq<(Seq<char>, Option<Seq<char>>)>;

/// The contents of a list of ids and names.
pub open spec fn directory_view(entries: Seq<(String, Option<String>)>) -> Directory {
    entries.map_values(
        |e: (String, Option<String>)|
            (
                e.0@,
                match e.1 {
                    Some(name) => Some(name@),
                    None => None,
                },
            ),
    )
}

/// Whether a rule has this id.
pub open spec fn is_id(directory: Directory, id: Seq<char>) -> bool {
    exists|i: int| 0 <= i < directory.len() && (#[trigger] directory[i]).0 == id
}

/// The id of the rule that goes by a name: that of the last rule under
/// this name.
pub open spec fn id_of_name(directory: Directory, name: Seq<char>) -> Option<Seq<char>>
    decreases directory.len(),
{
    if directory.len() == 0 {
        None
    } else if directory.last().1 == Some(name) {
        Some(directory.last().0)
    } else {
        id_of_name(directory.drop_last(), name)
    }
}

/// The id of the rule that a reference means: the reference itself where
/// it is the id of a rule, else the id of the rule of that name.
pub open spec fn meant(directory: Directory, reference: Seq<char>) -> Option<Seq<char>> {
    if is_id(directory, reference) {
        Some(reference)
    } else {
        id_of_name(directory, reference)
    }
}

/// Whether a reference counts as present: whether the rule that it means,
/// by id or by name, is among the rules that matched.
pub open spec fn counts(directory: Directory, prior: Seq<Seq<char>>, reference: Seq<char>) -> bool {
    meant(directory, reference) matches Some(id) && prior.contains(id)
}

/// The references that count as present, in their order.
pub open spec fn present(refs: Seq<Seq<char>>, directory: Directory, prior: Seq<Seq<char>>) -> Seq<
    Seq<char>,
>
    decreases refs.len(),
{
    if refs.len() == 0 {
        Seq::empty()
    } else if counts(directory, prior, refs.last()) {
        present(refs.drop_last(), directory, prior).push(refs.last())
    } else {
        present(refs.drop_last(), directory, prior)
    }
}

/// A reference is among those that are present exactly if it is one of
/// the references and counts as present.
pub proof fn lemma_present(
    refs: Seq<Seq<char>>,
    directory: Directory,
    prior: Seq<Seq<char>>,
    reference: Seq<char>,
)
    ensures
        present(refs, directory, prior).contains(reference) <==> (refs.contains(reference) && counts(
            directory,
            prior,
            reference,
        )),
    decreases refs.len(),
{
    if refs.len() > 0 {
        let front = refs.drop_last();
        let before = present(front, directory, prior);
        let now = present(refs, directory, prior);
        lemma_present(front, directory, prior, reference);
        if now.contains(reference) {
            let k = choose|k: int| 0 <= k < now.len() && now[k] == reference;
            if k < before.len() {
                assert(before[k] == reference);
                let j = choose|j: int| 0 <= j < front.len() && front[j] == reference;
                assert(refs[j] == reference);
            } else {
                assert(refs[refs.len() - 1] == reference);
            }
        }
        if refs.contains(reference) && counts(directory, prior, reference) {
            let j = choose|j: int| 0 <= j < refs.len() && refs[j] == reference;
            if j == refs.len() - 1 {
                assert(now.last() == reference);
            } else {
                assert(front[j] == reference);
                let k = choose|k: int| 0 <= k < before.len() && before[k] == reference;
                assert(now[k] == reference);
            }
        }
    }
}

/// The index of the request that is to be answered next, given the answers
/// so far; none once every request is answered, and none after an answer
/// of zero where the requests are taken in order.
pub open spec fn next_request(ordered: bool, requests: int, counts: Seq<u64>) -> Option<int> {
    if counts.len() >= requests || (ordered && counts.len() > 0 && counts.last() == 0) {
        None
    } else {
        Some(counts.len() as int)
    }
}

/// The index of the request that is to be answered next.
pub fn next_index(ordered: bool, requests: usize, counts: &Vec<u64>) -> (r: Option<usize>)
    ensures
        match r {
            Some(i) => next_request(ordered, requests as int, counts@) == Some(i as int),
            None => next_request(ordered, requests as int, counts@) is None,
        },
{
    let n = counts.len();
    if n >= requests || (ordered && n > 0 && counts[n - 1] == 0) {
        None
    } else {
        Some(n)
    }
}

/// The id of the rule that a reference means.
#[verifier::loop_isolation(false)]
pub fn resolve_reference<'a>(directory: &'a Vec<(String, Option<String>)>, reference: &str) -> (r:
    Option<&'a String>)
    ensures
        match r {
            Some(id) => meant(directory_view(directory@), reference@) == Some(id@),
            None => meant(directory_view(directory@), reference@) is None,
        },
{
    let ghost all = directory_view(directory@);
    let mut i: usize = 0;
    while i < directory.len()
        invariant
            i <= directory.len(),
            forall|j: int| 0 <= j < i ==> (#[trigger] all[j]).0 != reference@,
        decreases directory.len() - i,
    {
        assert(all[i as int].0 == directory[i as int].0@);
        if same_text(directory[i].0.as_str(), reference) {
            return Some(&directory[i].0);
        }
        i += 1;
    }
    let mut k: usize = directory.len();
    assert(all.take(k as int) == all);
    while k > 0
        invariant
            k <= directory.len(),
            id_of_name(all, reference@) == id_of_name(all.take(k as int), reference@),
        decreases k,
    {
        k -= 1;
        proof {
            assert(all.take(k + 1).drop_last() == all.take(k as int));
            assert(all.take(k + 1).last() == all[k as int]);
            assert(all[k as int].0 == directory[k as int].0@);
        }
        match &directory[k].1 {
            Some(name) => {
                assert(all[k as int].1 == Some(name@));
                if same_text(name.as_str(), reference) {
                    return Some(&directory[k].0);
                }
            },
            None => {
                assert(all[k as int].1 is None);
            },
        }
    }
    None
}

/// Whether `name` is among `names`.
#[verifier::loop_isolation(false)]
pub fn contains_name(names: &Vec<String>, name: &str) -> (r: bool)
    ensures
        r == texts(names@).contains(name@),
{
    let mut i: usize = 0;
    while i < names.len()
        invariant
            i <= names.len(),
            forall|j: int| 0 <= j < i ==> texts(names@)[j] != name@,
        decreases names.len() - i,
    {
        if same_text(names[i].as_str(), name) {
            assert(texts(names@)[i as int] == name@);
            return true;
        }
        i += 1;
    }
    false
}

proof fn lemma_chain(a: Seq<u64>, b: Seq<u64>, rest: (StateView, Seq<u64>))
    ensures
        chain(a, chain(b, rest)) == chain(a + b, rest),
        chain(a, (rest.0, Seq::<u64>::empty())) == (rest.0, a),
{
    assert(a + (b + rest.1) =~= (a + b) + rest.1);
    assert(a + Seq::<u64>::empty() =~= a);
}

impl MemBackendImpl {
    /// Answers a list of requests for a rule, one after the other, as
    /// long as there is a request to be answered next. Where they are taken
    /// in order, the first answer of zero is the last.
    #[verifier::loop_isolation(false)]
    pub fn run(&mut self, rule_id: &String, timeout: u64, lookups: &Vec<Lookup>, ordered: bool) -> (counts:
        Vec<u64>)
        ensures
            (final(self)@, counts@) == run(
                old(self)@,
                rule_id@,
                timeout,
                lookup_views(lookups@),
                ordered,
            ),
    {
        let ghost all = lookup_views(lookups@);
        let ghost goal = run(self@, rule_id@, timeout, all, ordered);
        let mut counts: Vec<u64> = Vec::new();
        proof {
            assert(all.skip(0) == all);
            lemma_chain(Seq::empty(), Seq::empty(), goal);
            assert(Seq::<u64>::empty() + goal.1 =~= goal.1);
        }
        loop
            invariant
                counts.len() <= lookups.len(),
                if ordered && counts.len() > 0 && counts@.last() == 0 {
                    goal == (self@, counts@)
                } else {
                    goal == chain(
                        counts@,
                        run(self@, rule_id@, timeout, all.skip(counts.len() as int), ordered),
                    )
                },
            decreases lookups.len() - counts.len(),
        {
            let i = match next_index(ordered, lookups.len(), &counts) {
                None => {
                    proof {
                        lemma_chain(counts@, Seq::empty(), (self@, Seq::empty()));
                    }
                    return counts;
                },
                Some(i) => i,
            };
            let ghost here = self@;
            proof {
                let rest = all.skip(i as int);
                assert(rest[0] == lookups[i as int]@);
                assert(rest.skip(1) == all.skip(i + 1));
            }
            let n = match &lookups[i] {
                Lookup::Incr(key) => self.incr(rule_id, timeout, key),
                Lookup::Count(key) => self.count(rule_id, key),
            };
            assert((self@, n) == step(here, rule_id@, timeout, lookups[i as int]@));
            proof {
                lemma_chain(
                    counts@,
                    seq![n],
                    run(self@, rule_id@, timeout, all.skip(i + 1), ordered),
                );
                assert(counts@.push(n) =~= counts@ + seq![n]);
                lemma_chain(counts@, seq![n], (self@, Seq::empty()));
                assert(seq![n] + Seq::<u64>::empty() =~= seq![n]);
            }
            counts.push(n);
        }
    }
}

impl Correlation {
    /// The group of an event for this rule.
    #[verifier::loop_isolation(false)]
    pub fn group(&self, event: &Value) -> (r: Option<GroupBy>)
        ensures
            match r {
                Some(g) => group_of(self@.group_by, event@) == Some(pairs(g@)),
                None => group_of(self@.group_by, event@) is None,
            },
    {
        let ghost names = texts(self.group_by@);
        let mut group: GroupBy = Vec::new();
        let mut i: usize = 0;
        assert(names.take(0).len() == 0);
        assert(pairs(group@) =~= Seq::empty());
        while i < self.group_by.len()
            invariant
                i <= self.group_by.len(),
                group_of(names.take(i as int), event@) == Some(pairs(group@)),
            decreases self.group_by.len() - i,
        {
            proof {
                assert(names.take(i + 1).drop_last() == names.take(i as int));
                assert(names.take(i + 1).last() == self.group_by[i as int]@);
            }
            match event.get(self.group_by[i].as_str()) {
                None => {
                    proof {
                        lemma_group_prefix(names, i + 1, event@);
                    }
                    return None;
                },
                Some(v) => {
                    let entry = (self.group_by[i].clone(), v.duplicate());
                    assert(pairs(group@.push(entry)) =~= pairs(group@).push(
                        (entry.0@, entry.1@),
                    ));
                    group.push(entry);
                },
            }
            i += 1;
        }
        assert(names.take(self.group_by.len() as int) == names);
        Some(group)
    }

    /// Whether every reference is among those that count as present.
    #[verifier::loop_isolation(false)]
    fn all_matched(&self, present: &Vec<String>) -> (r: bool)
        ensures
            r == all_in(self@.rules, texts(present@)),
    {
        let mut i: usize = 0;
        while i < self.rules.len()
            invariant
                i <= self.rules.len(),
                forall|j: int| 0 <= j < i ==> texts(present@).contains(#[trigger] texts(self.rules@)[j]),
            decreases self.rules.len() - i,
        {
            if !contains_name(present, self.rules[i].as_str()) {
                assert(!texts(present@).contains(texts(self.rules@)[i as int]));
                return false;
            }
            i += 1;
        }
        true
    }

    /// The requests that an event puts to the state of the rule, given the
    /// ids of the rules that matched the event so far and the ids and names
    /// of the rules of the collection.
    pub fn plan(
        &self,
        event: &Value,
        prior: &Vec<String>,
        directory: &Vec<(String, Option<String>)>,
    ) -> (r: Option<Vec<Lookup>>)
        ensures
            ({
                let counted = present(self@.rules, directory_view(directory@), texts(prior@));
                match r {
                    Some(lookups) => plan(self@, event@, counted) == Some(lookup_views(lookups@)),
                    None => plan(self@, event@, counted) is None,
                }
            }),
    {
        match self.group(event) {
            None => None,
            Some(group) => {
                let counted = self.present(prior, directory);
                self.lookups(group, event, &counted)
            },
        }
    }

    /// The requests that an event of a group puts to the state of the
    /// rule, given the references that count as present.
    #[verifier::loop_isolation(false)]
    fn lookups(&self, group: GroupBy, event: &Value, present: &Vec<String>) -> (r: Option<
        Vec<Lookup>,
    >)
        ensures
            match r {
                Some(lookups) => lookups_for(self@, group_view(group@), event@, texts(present@))
                    == Some(lookup_views(lookups@)),
                None => lookups_for(self@, group_view(group@), event@, texts(present@)) is None,
            },
    {
        match &self.correlation_type {
            CorrelationType::EventCount(_) => {
                if !self.all_matched(present) {
                    return None;
                }
                let out = vec![Lookup::Incr(Key::EventCount(group))];
                assert(lookup_views(out@) =~= seq![
                    LookupView::Incr(KeyView::EventCount(group_view(group@))),
                ]);
                Some(out)
            },
            CorrelationType::ValueCount(v) => {
                if !self.all_matched(present) {
                    return None;
                }
                match event.get(v.condition.field.as_str()) {
                    None => None,
                    Some(found) => {
                        let d = Discriminator::Field(v.condition.field.clone(), found.duplicate());
                        let ghost key = KeyView::ValueCount(group_view(group@), d@);
                        let out = vec![Lookup::Incr(Key::ValueCount(group, d))];
                        assert(lookup_views(out@) =~= seq![LookupView::Incr(key)]);
                        Some(out)
                    },
                }
            },
            _ => {
                let ghost g = group_view(group@);
                let ghost want = temporal_lookups(texts(self.rules@), texts(present@), g);
                let mut out: Vec<Lookup> = Vec::new();
                let mut i: usize = 0;
                while i < self.rules.len()
                    invariant
                        i <= self.rules.len(),
                        out.len() == i,
                        forall|j: int| 0 <= j < i ==> (#[trigger] out[j])@ == want[j],
                    decreases self.rules.len() - i,
                {
                    let key = Key::ValueCount(
                        crate::correlation::state::copy_group(&group),
                        Discriminator::Rule(self.rules[i].clone()),
                    );
                    assert(texts(self.rules@)[i as int] == self.rules[i as int]@);
                    if contains_name(present, self.rules[i].as_str()) {
                        out.push(Lookup::Incr(key));
                    } else {
                        out.push(Lookup::Count(key));
                    }
                    i += 1;
                }
                assert(lookup_views(out@) =~= want);
                Some(out)
            },
        }
    }

    /// Whether the rule matches, given the answers to its requests.
    #[verifier::loop_isolation(false)]
    pub fn verdict(&self, counts: &Vec<u64>) -> (r: bool)
        ensures
            r == verdict(self@, counts@),
    {
        match &self.correlation_type {
            CorrelationType::EventCount(e) => {
                if counts.len() != 1 {
                    return false;
                }
                let n: i64 = if counts[0] > 0x7fff_ffff_ffff_ffff {
                    0x7fff_ffff_ffff_ffff
                } else {
                    counts[0] as i64
                };
                e.condition.is_match(n)
            },
            CorrelationType::ValueCount(v) => {
                if counts.len() != 1 {
                    return false;
                }
                let n: i64 = if counts[0] > 0x7fff_ffff_ffff_ffff {
                    0x7fff_ffff_ffff_ffff
                } else {
                    counts[0] as i64
                };
                v.condition.condition.is_match(n)
            },
            _ => {
                assert(texts(self.rules@).len() == self.rules.len());
                if counts.len() != self.rules.len() {
                    return false;
                }
                let mut i: usize = 0;
                while i < counts.len()
                    invariant
                        i <= counts.len(),
                        forall|j: int| 0 <= j < i ==> #[trigger] counts@[j] != 0,
                    decreases counts.len() - i,
                {
                    if counts[i] == 0 {
                        return false;
                    }
                    i += 1;
                }
                true
            },
        }
    }

    /// The references of the rule that count as present, given the ids of
    /// the rules that matched and the ids and names of the rules of the
    /// collection.
    #[verifier::loop_isolation(false)]
    pub fn present(&self, prior: &Vec<String>, directory: &Vec<(String, Option<String>)>) -> (r:
        Vec<String>)
        ensures
            texts(r@) == present(self@.rules, directory_view(directory@), texts(prior@)),
    {
        let ghost refs = texts(self.rules@);
        let mut out: Vec<String> = Vec::new();
        let mut i: usize = 0;
        assert(refs.take(0).len() == 0);
        assert(texts(out@) =~= Seq::empty());
        while i < self.rules.len()
            invariant
                i <= self.rules.len(),
                texts(out@) == present(refs.take(i as int), directory_view(directory@), texts(prior@)),
            decreases self.rules.len() - i,
        {
            proof {
                assert(refs.take(i + 1).drop_last() == refs.take(i as int));
                assert(refs.take(i + 1).last() == self.rules[i as int]@);
            }
            let counted = match resolve_reference(directory, self.rules[i].as_str()) {
                Some(id) => contains_name(prior, id.as_str()),
                None => false,
            };
            if counted {
                let reference = self.rules[i].clone();
                assert(texts(out@.push(reference)) =~= texts(out@).push(reference@));
                out.push(reference);
            }
            i += 1;
        }
        assert(refs.take(self.rules.len() as int) == refs);
        out
    }

    /// Whether the requests of the rule are answered in order.
    pub fn ordered(&self) -> (r: bool)
        ensures
            r == in_order(self@.kind),
    {
        match &self.correlation_type {
            CorrelationType::TemporalOrdered => true,
            _ => false,
        }
    }

    /// The index of the request that is to be answered next, given the
    /// answers so far; none once the rule can be decided.
    pub fn next_request(&self, lookups: &Vec<Lookup>, counts: &Vec<u64>) -> (r: Option<usize>)
        ensures
            match r {
                Some(i) => next_request(in_order(self@.kind), lookups.len() as int, counts@) == Some(
                    i as int,
                ),
                None => next_request(in_order(self@.kind), lookups.len() as int, counts@) is None,
            },
    {
        next_index(self.ordered(), lookups.len(), counts)
    }

    /// Evaluates the rule against an event on the in-memory backend, given
    /// the ids of the rules that matched the event so far and the ids and
    /// names of the rules of the collection: a reference counts where the
    /// rule that it means, by id or by name, is among those that matched.
    pub fn is_match(
        &self,
        backend: &mut MemBackend,
        event: &Value,
        prior: &Vec<String>,
        directory: &Vec<(String, Option<String>)>,
    ) -> (r: Result<bool, BackendError>)
        ensures
            (r, final(backend)@) == outcome(
                self@,
                old(backend)@,
                event@,
                present(self@.rules, directory_view(directory@), texts(prior@)),
            ),
    {
        let group = match self.group(event) {
            None => {
                return Ok(false);
            },
            Some(group) => group,
        };
        let (rule_id, timespan) = match backend.find_state(self.id.as_str()) {
            None => {
                return Err(BackendError::StateError);
            },
            Some(state) => (state.rule_id.clone(), state.timespan),
        };
        let counted = self.present(prior, directory);
        match self.lookups(group, event, &counted) {
            None => Ok(false),
            Some(lookups) => {
                let counts = backend.store.run(&rule_id, timespan, &lookups, self.ordered());
                Ok(self.verdict(&counts))
            },
        }
    }
}

impl MemBackend {
    /// Registers a correlation rule: from now on the backend holds its
    /// state, under the id of the rule and with its timespan. Fails for a
    /// rule that is registered already, and then changes nothing.
    pub fn register(&mut self, rule: &CorrelationRule) -> (r: Result<(), BackendError>)
        ensures
            match r {
                Ok(_) => state_of(old(self)@.states, rule.inner@.id) is None && final(self)@ == (
                BackendView {
                    store: old(self)@.store,
                    states: old(self)@.states.push((rule.inner@.id, rule.inner@.timespan)),
                }),
                Err(e) => state_of(old(self)@.states, rule.inner@.id) is Some && final(self)@
                    == old(self)@,
            },
    {
        self.register_state(&rule.inner.id, rule.inner.timespan)
    }
}

proof fn lemma_group_prefix(names: Seq<Seq<char>>, k: int, event: ValueView)
    requires
        0 <= k <= names.len(),
        group_of(names.take(k), event) is None,
    ensures
        group_of(names, event) is None,
    decreases names.len(),
{
    if k == names.len() {
        assert(names.take(k) == names);
    } else {
        assert(names.drop_last().take(k) == names.take(k));
        lemma_group_prefix(names.drop_last(), k, event);
    }
}

impl CorrelationRule {
    /// The id of the rule.
    pub fn id(&self) -> (r: &String)
        ensures
            r@ == self.inner.id@,
    {
        &self.inner.id
    }

    /// The rules that this rule refers to, by id or name.
    pub fn rules(&self) -> (r: &Vec<String>)
        ensures
            r@ == self.inner.rules@,
    {
        &self.inner.rules
    }

    /// Evaluates the rule against an event, given the ids of the rules
    /// that matched the event so far and the ids and names of the rules of
    /// the collection.
    pub fn is_match(
        &self,
        backend: &mut MemBackend,
        event: &Value,
        prior: &Vec<String>,
        directory: &Vec<(String, Option<String>)>,
    ) -> (r: Result<bool, BackendError>)
        ensures
            (r, final(backend)@) == outcome(
                self.inner@,
                old(backend)@,
                event@,
                present(self.inner@.rules, directory_view(directory@), texts(prior@)),
            ),
    {
        self.inner.is_match(backend, event, prior, directory)
    }
}

} // verus!
