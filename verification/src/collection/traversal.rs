//! What trying the correlations of a collection comes to, whatever the
//! topological order in which they are tried: a correlation is among the
//! matches exactly if it is tried and its rule matches on the counters as
//! they stood before, given the matches as they stand in the end.
use vstd::prelude::*;
use vstd::set_lib::{lemma_int_range, lemma_len_subset, lemma_subset_equality, set_int_range};
use crate::collection::deps::{
    all_links, lemma_index_of, lemma_link_edge, lemma_links, made, mirrors, joined, refers,
    references, resolve_ref, GraphModel,
};
use crate::collection::{
    attempt, correlate, directory_of, lemma_correlate_extends, lemma_meant, rule_with_id, tried,
    unique_ids,
};
use crate::correlation::rule::{
    counts, lemma_outcome_local, lemma_present_same, meant, outcome, present,
};
use crate::correlation::state::{
    bucket_count, distinct_count, same_counts_of, BackendError, BackendView, DiscriminatorView,
    GroupView, StateView,
};
use crate::graph::topological;
use crate::rule::{BodyView, RuleView};
use crate::value::ValueView;

verus! {

/// Whether a correlation goes by the id of its rule.
pub open spec fn goes_by_id(rule: RuleView) -> bool {
    match rule.body {
        BodyView::Correlation(c) => c.id == rule.id,
        BodyView::Detection(_, _) => true,
    }
}

/// Whether every correlation goes by the id of its rule.
pub open spec fn own_ids(rules: Seq<RuleView>) -> bool {
    forall|k: int| 0 <= k < rules.len() ==> goes_by_id(#[trigger] rules[k])
}

/// Whether a graph and an order are those of a set of rules: no two rules
/// have one id, every correlation goes by the id of its rule, the graph is
/// that of the dependencies, and the order is a topological order of it.
pub open spec fn solved_by(rules: Seq<RuleView>, m: GraphModel, order: Seq<int>) -> bool {
    &&& unique_ids(rules)
    &&& own_ids(rules)
    &&& all_links(rules, 0) is Ok
    &&& mirrors(m, all_links(rules, 0)->Ok_0)
    &&& topological(order, m.ids.len() as int, m.edges)
}

/// The id of the rule at a position of the order.
pub open spec fn node_id(m: GraphModel, order: Seq<int>, j: int) -> Seq<char> {
    m.ids[order[j]]
}

/// Whether the rule of an id stands before a position of the order.
pub open spec fn placed(m: GraphModel, order: Seq<int>, at: int, id: Seq<char>) -> bool {
    exists|j: int| 0 <= j < at && j < order.len() && #[trigger] node_id(m, order, j) == id
}

/// Whether the counters of the rules from a position on, and the rules
/// that are registered, stand as they stood at first.
pub open spec fn untouched(
    m: GraphModel,
    order: Seq<int>,
    at: int,
    first: BackendView,
    b: BackendView,
) -> bool {
    &&& b.states == first.states
    &&& forall|j: int|
        at <= j < order.len() ==> same_counts_of(b.store, first.store, #[trigger] node_id(m, order, j))
}

/// Whether the matches are those of the start and rules that stand before
/// a position of the order.
pub open spec fn grown(
    m: GraphModel,
    order: Seq<int>,
    start: Seq<Seq<char>>,
    at: int,
    prior: Seq<Seq<char>>,
) -> bool {
    &&& forall|id: Seq<char>| start.contains(id) ==> #[trigger] prior.contains(id)
    &&& forall|id: Seq<char>| #[trigger]
        prior.contains(id) ==> start.contains(id) || placed(m, order, at, id)
}

/// Whether the correlation at a position of the order is tried, is that
/// of the rule `id`, and matches on the counters as they stood at first,
/// given the matches `all`.
pub open spec fn fires_at(
    rules: Seq<RuleView>,
    m: GraphModel,
    order: Seq<int>,
    start: Seq<Seq<char>>,
    first: BackendView,
    data: ValueView,
    all: Seq<Seq<char>>,
    j: int,
    id: Seq<char>,
) -> bool {
    &&& 0 <= j < order.len()
    &&& tried(rules, m, start, order[j]) is Some
    &&& tried(rules, m, start, order[j])->Some_0.0 == id
    &&& outcome(
        tried(rules, m, start, order[j])->Some_0.1,
        first,
        data,
        present(tried(rules, m, start, order[j])->Some_0.1.rules, directory_of(rules), all),
    ).0 == Ok::<bool, BackendError>(true)
}

/// Whether a correlation from a position of the order on fires as the
/// rule `id`.
pub open spec fn fires_from(
    rules: Seq<RuleView>,
    m: GraphModel,
    order: Seq<int>,
    start: Seq<Seq<char>>,
    first: BackendView,
    data: ValueView,
    all: Seq<Seq<char>>,
    at: int,
    id: Seq<char>,
) -> bool {
    exists|j: int| at <= j && #[trigger] fires_at(rules, m, order, start, first, data, all, j, id)
}

/// Whether the correlation at a position of the order is tried and is
/// that of the rule `id`.
pub open spec fn tried_at(
    rules: Seq<RuleView>,
    m: GraphModel,
    order: Seq<int>,
    start: Seq<Seq<char>>,
    j: int,
    id: Seq<char>,
) -> bool {
    &&& 0 <= j < order.len()
    &&& tried(rules, m, start, order[j]) is Some
    &&& node_id(m, order, j) == id
}

/// Whether the correlation of the rule `id` is tried from a position of
/// the order on.
pub open spec fn tried_from(
    rules: Seq<RuleView>,
    m: GraphModel,
    order: Seq<int>,
    start: Seq<Seq<char>>,
    at: int,
    id: Seq<char>,
) -> bool {
    exists|j: int| at <= j && #[trigger] tried_at(rules, m, order, start, j, id)
}

/// The counters once the correlation at a position of the order has been
/// evaluated on the backend as it stood at first, given the matches `all`.
pub open spec fn store_after(
    rules: Seq<RuleView>,
    m: GraphModel,
    order: Seq<int>,
    start: Seq<Seq<char>>,
    first: BackendView,
    data: ValueView,
    all: Seq<Seq<char>>,
    j: int,
) -> StateView {
    outcome(
        tried(rules, m, start, order[j])->Some_0.1,
        first,
        data,
        present(tried(rules, m, start, order[j])->Some_0.1.rules, directory_of(rules), all),
    ).1.store
}

/// A topological order lists every node.
pub proof fn lemma_listed(order: Seq<int>, n: int, edges: Seq<(int, int)>, v: int)
    requires
        topological(order, n, edges),
        0 <= v < n,
    ensures
        order.contains(v),
{
    let listed = order.to_set();
    let range = set_int_range(0, n);
    order.unique_seq_to_set();
    lemma_int_range(0, n);
    assert forall|x: int| listed.contains(x) implies range.contains(x) by {
        assert(order.contains(x));
        let i = choose|i: int| 0 <= i < order.len() && order[i] == x;
        assert(0 <= order[i] < n);
    }
    assert(listed.subset_of(range));
    lemma_len_subset(listed, range);
    lemma_subset_equality(listed, range);
    assert(range.contains(v));
    assert(listed.contains(v));
}

/// The rule that is found under an id has this id and is a rule of the
/// set.
pub proof fn lemma_rule_with_id(rules: Seq<RuleView>, id: Seq<char>) -> (k: int)
    requires
        rule_with_id(rules, id) is Some,
    ensures
        0 <= k < rules.len(),
        rules[k] == rule_with_id(rules, id)->Some_0,
        rules[k].id == id,
    decreases rules.len(),
{
    if rules[0].id == id {
        0
    } else {
        let k = lemma_rule_with_id(rules.skip(1), id);
        assert(rules.skip(1)[k] == rules[k + 1]);
        k + 1
    }
}

/// The correlation that is tried at a node is that of the rule of the
/// node, and goes by its id.
pub proof fn lemma_tried(
    rules: Seq<RuleView>,
    m: GraphModel,
    start: Seq<Seq<char>>,
    node: int,
) -> (k: int)
    requires
        own_ids(rules),
        tried(rules, m, start, node) is Some,
    ensures
        0 <= node < m.ids.len(),
        0 <= k < rules.len(),
        rules[k].id == m.ids[node],
        tried(rules, m, start, node)->Some_0.0 == m.ids[node],
        tried(rules, m, start, node)->Some_0.1.id == m.ids[node],
        rules[k].body == BodyView::Correlation(tried(rules, m, start, node)->Some_0.1),
{
    let k = lemma_rule_with_id(rules, m.ids[node]);
    assert(goes_by_id(rules[k]));
    k
}

/// The rule that a reference of a rule means stands before the rule in
/// the order.
pub proof fn lemma_dependency_before(
    rules: Seq<RuleView>,
    m: GraphModel,
    order: Seq<int>,
    at: int,
    k: int,
    j: int,
) -> (p: int)
    requires
        solved_by(rules, m, order),
        0 <= at < order.len(),
        0 <= k < rules.len(),
        rules[k].id == node_id(m, order, at),
        0 <= j < references(rules[k]).len(),
        resolve_ref(rules, references(rules[k])[j]) is Some,
    ensures
        0 <= p < at,
        node_id(m, order, p) == resolve_ref(rules, references(rules[k])[j])->Some_0,
{
    let links = all_links(rules, 0)->Ok_0;
    let dep = resolve_ref(rules, references(rules[k])[j])->Some_0;
    let id = rules[k].id;
    let node = order[at];
    assert(refers(rules, k, j, (dep, id)));
    assert(made(rules, 0, (dep, id)));
    lemma_links(rules, 0, (dep, id));
    lemma_link_edge(m, links, dep, id);
    let e = choose|e: int| 0 <= e < links.len() && links[e] == (dep, id);
    assert(joined(m, links, e));
    assert(m.ids.contains(dep));
    let from = m.ids.index_of(dep);
    assert(0 <= from < m.ids.len() && m.ids[from] == dep);
    assert(0 <= node < m.ids.len());
    lemma_index_of(m.ids, node);
    assert(m.edges.contains((from, node)));
    lemma_listed(order, m.ids.len() as int, m.edges, from);
    let p = choose|p: int| 0 <= p < order.len() && order[p] == from;
    assert(m.edges.contains((order[p], order[at])));
    p
}

/// Two positions of the order stand for two rules.
pub proof fn lemma_distinct_nodes(m: GraphModel, order: Seq<int>, i: int, j: int)
    requires
        m.ids.no_duplicates(),
        topological(order, m.ids.len() as int, m.edges),
        0 <= i < order.len(),
        0 <= j < order.len(),
        i != j,
    ensures
        node_id(m, order, i) != node_id(m, order, j),
{
    assert(order[i] != order[j]);
    assert(0 <= order[i] < m.ids.len() && 0 <= order[j] < m.ids.len());
}

proof fn lemma_prefix_contains(a: Seq<Seq<char>>, b: Seq<Seq<char>>, x: Seq<char>)
    requires
        a.is_prefix_of(b),
        a.contains(x),
    ensures
        b.contains(x),
{
    let i = choose|i: int| 0 <= i < a.len() && a[i] == x;
    assert(b.subrange(0, a.len() as int)[i] == b[i]);
    assert(b[i] == x);
}

/// The references of the rule at a position of the order count in the end
/// as they count when the rule is tried: the rules that they mean stand
/// before it.
proof fn lemma_settled(
    rules: Seq<RuleView>,
    m: GraphModel,
    order: Seq<int>,
    start: Seq<Seq<char>>,
    first: BackendView,
    data: ValueView,
    at: int,
    prior: Seq<Seq<char>>,
    next: Seq<Seq<char>>,
    all: Seq<Seq<char>>,
    k: int,
)
    requires
        solved_by(rules, m, order),
        0 <= at < order.len(),
        0 <= k < rules.len(),
        rules[k].id == node_id(m, order, at),
        next == prior || next == prior.push(node_id(m, order, at)),
        forall|id: Seq<char>| prior.contains(id) ==> #[trigger] all.contains(id),
        forall|id: Seq<char>| #[trigger]
            all.contains(id) <==> (next.contains(id) || fires_from(
                rules,
                m,
                order,
                start,
                first,
                data,
                all,
                at + 1,
                id,
            )),
    ensures
        present(references(rules[k]), directory_of(rules), prior) == present(
            references(rules[k]),
            directory_of(rules),
            all,
        ),
{
    let refs = references(rules[k]);
    let directory = directory_of(rules);
    assert forall|j: int| 0 <= j < refs.len() implies counts(directory, prior, #[trigger] refs[j])
        == counts(directory, all, refs[j]) by {
        lemma_meant(rules, refs[j]);
        if meant(directory, refs[j]) is Some {
            let dep = meant(directory, refs[j])->Some_0;
            if all.contains(dep) && !prior.contains(dep) {
                let p = lemma_dependency_before(rules, m, order, at, k, j);
                if next.contains(dep) {
                    let i = choose|i: int| 0 <= i < next.len() && next[i] == dep;
                    if i < prior.len() {
                        assert(prior[i] == dep);
                    }
                    assert(dep == node_id(m, order, at));
                    lemma_distinct_nodes(m, order, p, at);
                } else {
                    let later = choose|later: int|
                        at + 1 <= later && #[trigger] fires_at(
                            rules,
                            m,
                            order,
                            start,
                            first,
                            data,
                            all,
                            later,
                            dep,
                        );
                    let found = lemma_tried(rules, m, start, order[later]);
                    assert(dep == node_id(m, order, later));
                    lemma_distinct_nodes(m, order, p, later);
                }
            }
        }
    }
    lemma_present_same(refs, directory, prior, all);
}

/// What the traversal comes to: from a position of the order on, with the
/// counters of the rules that are still to come untouched, a rule is among
/// the matches in the end exactly if it is among them already, or its
/// correlation is still to come, is tried, and matches on the counters as
/// they stood at first, given the matches as they stand in the end.
pub proof fn lemma_traversal(
    rules: Seq<RuleView>,
    m: GraphModel,
    order: Seq<int>,
    start: Seq<Seq<char>>,
    first: BackendView,
    data: ValueView,
    at: int,
    b: BackendView,
    prior: Seq<Seq<char>>,
)
    requires
        solved_by(rules, m, order),
        0 <= at <= order.len(),
        untouched(m, order, at, first, b),
        grown(m, order, start, at, prior),
        correlate(rules, m, order, start, at, b, data, prior).0 is Ok,
    ensures
        ({
            let all = correlate(rules, m, order, start, at, b, data, prior).2;
            forall|id: Seq<char>| #[trigger]
                all.contains(id) <==> (prior.contains(id) || fires_from(
                    rules,
                    m,
                    order,
                    start,
                    first,
                    data,
                    all,
                    at,
                    id,
                ))
        }),
    decreases order.len() - at,
{
    let all = correlate(rules, m, order, start, at, b, data, prior).2;
    if at == order.len() {
        assert forall|id: Seq<char>| #[trigger]
            all.contains(id) <==> (prior.contains(id) || fires_from(
                rules,
                m,
                order,
                start,
                first,
                data,
                all,
                at,
                id,
            )) by {
            if fires_from(rules, m, order, start, first, data, all, at, id) {
                let j = choose|j: int|
                    at <= j && #[trigger] fires_at(rules, m, order, start, first, data, all, j, id);
            }
        }
    } else {
        let node = order[at];
        let here = node_id(m, order, at);
        let (r, after, next) = attempt(rules, m, start, node, b, data, prior);
        assert(r is Ok);
        assert(all == correlate(rules, m, order, start, at + 1, after, data, next).2);
        lemma_step_kept(rules, m, order, start, first, data, at, b, prior);
        lemma_traversal(rules, m, order, start, first, data, at + 1, after, next);
        lemma_correlate_extends(rules, m, order, start, at, b, data, prior);
        assert forall|id: Seq<char>| prior.contains(id) implies #[trigger] all.contains(id) by {
            lemma_prefix_contains(prior, all, id);
        }
        let fired = lemma_step_fires(rules, m, order, start, first, data, at, b, prior, all);
        assert forall|id: Seq<char>| #[trigger]
            all.contains(id) <==> (prior.contains(id) || fires_from(
                rules,
                m,
                order,
                start,
                first,
                data,
                all,
                at,
                id,
            )) by {
            let later = fires_from(rules, m, order, start, first, data, all, at + 1, id);
            let now = fires_from(rules, m, order, start, first, data, all, at, id);
            assert(all.contains(id) <==> (next.contains(id) || later));
            if later {
                let j = choose|j: int|
                    at + 1 <= j && #[trigger] fires_at(rules, m, order, start, first, data, all, j, id);
                assert(fires_at(rules, m, order, start, first, data, all, j, id));
            }
            if now {
                let j = choose|j: int|
                    at <= j && #[trigger] fires_at(rules, m, order, start, first, data, all, j, id);
                if j > at {
                    assert(later);
                } else {
                    assert(fired && id == here);
                    assert(next.last() == here);
                }
            }
            if next.contains(id) && !prior.contains(id) {
                let i = choose|i: int| 0 <= i < next.len() && next[i] == id;
                if i < prior.len() {
                    assert(prior[i] == id);
                }
                assert(fired && id == here);
                assert(fires_at(rules, m, order, start, first, data, all, at, id));
            }
        }
    }
}

/// One step of the traversal leaves the counters of the rules that are
/// still to come untouched, and puts behind the matches the rule of the
/// step at most.
proof fn lemma_step_kept(
    rules: Seq<RuleView>,
    m: GraphModel,
    order: Seq<int>,
    start: Seq<Seq<char>>,
    first: BackendView,
    data: ValueView,
    at: int,
    b: BackendView,
    prior: Seq<Seq<char>>,
)
    requires
        solved_by(rules, m, order),
        0 <= at < order.len(),
        untouched(m, order, at, first, b),
        grown(m, order, start, at, prior),
    ensures
        ({
            let (r, after, next) = attempt(rules, m, start, order[at], b, data, prior);
            &&& untouched(m, order, at + 1, first, after)
            &&& grown(m, order, start, at + 1, next)
            &&& next == prior || next == prior.push(node_id(m, order, at))
        }),
{
    let node = order[at];
    let here = node_id(m, order, at);
    let (r, after, next) = attempt(rules, m, start, node, b, data, prior);
    assert(node_id(m, order, at) == here);
    match tried(rules, m, start, node) {
        None => {},
        Some((id, c)) => {
            let k = lemma_tried(rules, m, start, node);
            let counted = present(c.rules, directory_of(rules), prior);
            assert(same_counts_of(b.store, first.store, node_id(m, order, at)));
            let like = BackendView { store: first.store, states: b.states };
            lemma_outcome_local(c, b, like, data, counted, here);
            assert forall|j: int| at + 1 <= j < order.len() implies same_counts_of(
                after.store,
                first.store,
                #[trigger] node_id(m, order, j),
            ) by {
                let other = node_id(m, order, j);
                lemma_distinct_nodes(m, order, at, j);
                lemma_outcome_local(c, b, like, data, counted, other);
                assert(same_counts_of(after.store, b.store, other));
                assert(same_counts_of(b.store, first.store, other));
                lemma_same_counts_of(after.store, b.store, first.store, other);
            }
        },
    }
    assert forall|id: Seq<char>| #[trigger] next.contains(id) implies start.contains(id) || placed(
        m,
        order,
        at + 1,
        id,
    ) by {
        let i = choose|i: int| 0 <= i < next.len() && next[i] == id;
        if i < prior.len() {
            assert(prior[i] == id);
            assert(prior.contains(id));
            if !start.contains(id) {
                let j = choose|j: int|
                    0 <= j < at && j < order.len() && #[trigger] node_id(m, order, j) == id;
                assert(node_id(m, order, j) == id);
            }
        } else {
            assert(id == here);
        }
    }
    assert forall|id: Seq<char>| start.contains(id) implies #[trigger] next.contains(id) by {
        assert(prior.contains(id));
        let i = choose|i: int| 0 <= i < prior.len() && prior[i] == id;
        assert(next[i] == id);
    }
}

/// States that hold the same counts for a rule as a third state hold the
/// same counts for it.
pub proof fn lemma_same_counts_of(a: StateView, b: StateView, c: StateView, rule: Seq<char>)
    requires
        same_counts_of(a, b, rule),
        same_counts_of(b, c, rule),
    ensures
        same_counts_of(a, c, rule),
        same_counts_of(b, a, rule),
{
    assert forall|group: GroupView, d: Option<DiscriminatorView>| #[trigger]
        bucket_count(a.pending, rule, group, d) == bucket_count(c.pending, rule, group, d) by {
        assert(bucket_count(a.pending, rule, group, d) == bucket_count(b.pending, rule, group, d));
    }
    assert forall|group: GroupView| #[trigger]
        distinct_count(a.pending, rule, group) == distinct_count(c.pending, rule, group) by {
        assert(distinct_count(a.pending, rule, group) == distinct_count(b.pending, rule, group));
    }
    assert forall|group: GroupView, d: Option<DiscriminatorView>| #[trigger]
        bucket_count(b.pending, rule, group, d) == bucket_count(a.pending, rule, group, d) by {
        assert(bucket_count(a.pending, rule, group, d) == bucket_count(b.pending, rule, group, d));
    }
    assert forall|group: GroupView| #[trigger]
        distinct_count(b.pending, rule, group) == distinct_count(a.pending, rule, group) by {
        assert(distinct_count(a.pending, rule, group) == distinct_count(b.pending, rule, group));
    }
}

/// Whether the rule of a step is put behind the matches: it is exactly if
/// its correlation is tried and matches on the counters as they stood at
/// first, given the matches as they stand in the end.
proof fn lemma_step_fires(
    rules: Seq<RuleView>,
    m: GraphModel,
    order: Seq<int>,
    start: Seq<Seq<char>>,
    first: BackendView,
    data: ValueView,
    at: int,
    b: BackendView,
    prior: Seq<Seq<char>>,
    all: Seq<Seq<char>>,
) -> (fired: bool)
    requires
        solved_by(rules, m, order),
        0 <= at < order.len(),
        untouched(m, order, at, first, b),
        grown(m, order, start, at, prior),
        attempt(rules, m, start, order[at], b, data, prior).0 is Ok,
        forall|id: Seq<char>| prior.contains(id) ==> #[trigger] all.contains(id),
        forall|id: Seq<char>| #[trigger]
            all.contains(id) <==> (attempt(rules, m, start, order[at], b, data, prior).2.contains(id)
                || fires_from(rules, m, order, start, first, data, all, at + 1, id)),
    ensures
        fired == fires_at(
            rules,
            m,
            order,
            start,
            first,
            data,
            all,
            at,
            node_id(m, order, at),
        ),
        forall|id: Seq<char>|
            fires_at(rules, m, order, start, first, data, all, at, id) ==> id == node_id(
                m,
                order,
                at,
            ),
        fired ==> attempt(rules, m, start, order[at], b, data, prior).2 == prior.push(
            node_id(m, order, at),
        ),
        !fired ==> attempt(rules, m, start, order[at], b, data, prior).2 == prior,
        tried(rules, m, start, order[at]) is Some ==> same_counts_of(
            attempt(rules, m, start, order[at], b, data, prior).1.store,
            store_after(rules, m, order, start, first, data, all, at),
            node_id(m, order, at),
        ),
{
    let node = order[at];
    let here = node_id(m, order, at);
    let (r, after, next) = attempt(rules, m, start, node, b, data, prior);
    match tried(rules, m, start, node) {
        None => false,
        Some((id, c)) => {
            let k = lemma_tried(rules, m, start, node);
            lemma_step_kept(rules, m, order, start, first, data, at, b, prior);
            lemma_settled(rules, m, order, start, first, data, at, prior, next, all, k);
            assert(references(rules[k]) == c.rules);
            let counted = present(c.rules, directory_of(rules), prior);
            assert(counted == present(c.rules, directory_of(rules), all));
            let like = BackendView { store: first.store, states: b.states };
            assert(same_counts_of(b.store, first.store, node_id(m, order, at)));
            lemma_outcome_local(c, b, like, data, counted, here);
            assert(like == first);
            outcome(c, b, data, counted).0 == Ok::<bool, BackendError>(true)
        },
    }
}

/// The counters in the end: from a position of the order on, with the
/// counters of the rules that are still to come untouched, the counters of
/// a rule whose correlation is not tried stay as they are, and those of a
/// rule whose correlation is tried are those that it leaves on the backend
/// as it stood at first, given the matches as they stand in the end.
pub proof fn lemma_counts_after(
    rules: Seq<RuleView>,
    m: GraphModel,
    order: Seq<int>,
    start: Seq<Seq<char>>,
    first: BackendView,
    data: ValueView,
    at: int,
    b: BackendView,
    prior: Seq<Seq<char>>,
    id: Seq<char>,
)
    requires
        solved_by(rules, m, order),
        0 <= at <= order.len(),
        untouched(m, order, at, first, b),
        grown(m, order, start, at, prior),
        correlate(rules, m, order, start, at, b, data, prior).0 is Ok,
    ensures
        ({
            let (res, fin, all) = correlate(rules, m, order, start, at, b, data, prior);
            &&& fin.states == b.states
            &&& !tried_from(rules, m, order, start, at, id) ==> same_counts_of(fin.store, b.store, id)
            &&& forall|j: int|
                at <= j && #[trigger] tried_at(rules, m, order, start, j, id) ==> same_counts_of(
                    fin.store,
                    store_after(rules, m, order, start, first, data, all, j),
                    id,
                )
        }),
    decreases order.len() - at,
{
    let (res, fin, all) = correlate(rules, m, order, start, at, b, data, prior);
    if at < order.len() {
        let node = order[at];
        let here = node_id(m, order, at);
        let (r, after, next) = attempt(rules, m, start, node, b, data, prior);
        assert(r is Ok);
        assert(correlate(rules, m, order, start, at + 1, after, data, next) == (res, fin, all));
        lemma_step_kept(rules, m, order, start, first, data, at, b, prior);
        lemma_counts_after(rules, m, order, start, first, data, at + 1, after, next, id);
        lemma_traversal(rules, m, order, start, first, data, at + 1, after, next);
        lemma_correlate_extends(rules, m, order, start, at, b, data, prior);
        assert forall|x: Seq<char>| prior.contains(x) implies #[trigger] all.contains(x) by {
            lemma_prefix_contains(prior, all, x);
        }
        let fired = lemma_step_fires(rules, m, order, start, first, data, at, b, prior, all);
        let later = tried_from(rules, m, order, start, at + 1, id);
        if later {
            let j = choose|j: int| at + 1 <= j && #[trigger] tried_at(rules, m, order, start, j, id);
            assert(tried_at(rules, m, order, start, j, id));
        }
        match tried(rules, m, start, node) {
            None => {
                assert(after == b);
            },
            Some((name, c)) => {
                let k = lemma_tried(rules, m, start, node);
                let counted = present(c.rules, directory_of(rules), prior);
                lemma_outcome_local(c, b, b, data, counted, id);
                assert(after.states == b.states);
                if id == here {
                    assert(tried_at(rules, m, order, start, at, id));
                    if later {
                        let j = choose|j: int|
                            at + 1 <= j && #[trigger] tried_at(rules, m, order, start, j, id);
                        lemma_distinct_nodes(m, order, at, j);
                    }
                    lemma_same_counts_of(
                        fin.store,
                        after.store,
                        store_after(rules, m, order, start, first, data, all, at),
                        id,
                    );
                } else {
                    if !later {
                        lemma_same_counts_of(fin.store, after.store, b.store, id);
                    }
                }
            },
        }
        assert forall|j: int|
            at <= j && #[trigger] tried_at(rules, m, order, start, j, id) implies same_counts_of(
            fin.store,
            store_after(rules, m, order, start, first, data, all, j),
            id,
        ) by {
            if j > at {
                assert(at + 1 <= j);
            }
        }
        if !tried_from(rules, m, order, start, at, id) {
            assert(!later) by {
                if later {
                    let j = choose|j: int|
                        at + 1 <= j && #[trigger] tried_at(rules, m, order, start, j, id);
                    assert(at <= j && tried_at(rules, m, order, start, j, id));
                }
            }
            assert(!tried_at(rules, m, order, start, at, id));
        }
    } else {
        if tried_from(rules, m, order, start, at, id) {
            let j = choose|j: int| at <= j && #[trigger] tried_at(rules, m, order, start, j, id);
        }
    }
}

} // verus!
