//! Two sets of the same rules, in whatever order they were added, mean the
//! same by every reference, have the same dependencies, try the same
//! correlations, and so match an event with the same rules and count it
//! alike.
use vstd::prelude::*;
use crate::collection::deps::{
    all_links, connects, has_id, is_chain, joined, lemma_links, lemma_reach, made, mentioned,
    mirrors, named_id, refers, references, resolve_ref, GraphModel, Link,
};
use crate::collection::traversal::{
    fires_at, fires_from, goes_by_id, lemma_counts_after, lemma_dependency_before,
    lemma_distinct_nodes, lemma_listed, lemma_rule_with_id, lemma_same_counts_of, lemma_traversal,
    lemma_tried, node_id, own_ids, solved_by, store_after, tried_at, tried_from,
};
use crate::collection::{
    attempt, correlate, directory_of, is_candidate, leads, lemma_meant, register_all,
    rule_with_id, tried, unique_ids,
};
use crate::correlation::rule::{
    counts, group_of, in_order, lemma_outcome_local, lemma_present_alike, lemma_run_same_counts,
    meant, outcome, plan, present, CorrelationView,
};
use crate::correlation::state::{
    after_advance, bucket_count, distinct_count, lemma_advance_same_store, pending_of,
    same_counts_of, same_store, state_of, BackendView, DiscriminatorView, GroupView,
};
use crate::rule::{BodyView, RuleView};
use crate::value::ValueView;

verus! {

/// Whether no two rules go by one name.
pub open spec fn unique_names(rules: Seq<RuleView>) -> bool {
    forall|i: int, j: int|
        0 <= i < rules.len() && 0 <= j < rules.len() && i != j && (#[trigger] rules[i]).name
            is Some ==> rules[i].name != (#[trigger] rules[j]).name
}

/// Whether two lists hold the same rules.
pub open spec fn same_rules(one: Seq<RuleView>, other: Seq<RuleView>) -> bool {
    forall|rule: RuleView| one.contains(rule) <==> other.contains(rule)
}

/// Whether two lists hold the same dependencies.
pub open spec fn same_links(one: Seq<Link>, other: Seq<Link>) -> bool {
    forall|link: Link| one.contains(link) <==> other.contains(link)
}

/// Whether two lists hold the same ids.
pub open spec fn same_ids(one: Seq<Seq<char>>, other: Seq<Seq<char>>) -> bool {
    forall|id: Seq<char>| one.contains(id) <==> other.contains(id)
}

proof fn lemma_named_by(rules: Seq<RuleView>, name: Seq<char>, k: int)
    requires
        unique_names(rules),
        0 <= k < rules.len(),
        rules[k].name == Some(name),
    ensures
        named_id(rules, name) == Some(rules[k].id),
    decreases rules.len(),
{
    let last = rules.len() - 1;
    if rules.last().name == Some(name) {
        if k != last {
            assert(rules[k].name != rules[last].name);
        }
    } else {
        let front = rules.drop_last();
        assert forall|i: int, j: int|
            0 <= i < front.len() && 0 <= j < front.len() && i != j && (#[trigger] front[i]).name
                is Some implies front[i].name != (#[trigger] front[j]).name by {
            assert(front[i] == rules[i] && front[j] == rules[j]);
        }
        assert(front[k] == rules[k]);
        lemma_named_by(front, name, k);
    }
}

proof fn lemma_named_some(rules: Seq<RuleView>, name: Seq<char>) -> (k: int)
    requires
        named_id(rules, name) is Some,
    ensures
        0 <= k < rules.len(),
        rules[k].name == Some(name),
        rules[k].id == named_id(rules, name)->Some_0,
    decreases rules.len(),
{
    if rules.last().name == Some(name) {
        rules.len() - 1
    } else {
        let k = lemma_named_some(rules.drop_last(), name);
        assert(rules.drop_last()[k] == rules[k]);
        k
    }
}

/// A reference means the same rule in two lists of the same rules where
/// no two rules go by one name.
pub proof fn lemma_resolve_same(one: Seq<RuleView>, other: Seq<RuleView>, reference: Seq<char>)
    requires
        same_rules(one, other),
        unique_names(one),
        unique_names(other),
    ensures
        resolve_ref(one, reference) == resolve_ref(other, reference),
{
    if has_id(one, reference) {
        let i = choose|i: int| 0 <= i < one.len() && (#[trigger] one[i]).id == reference;
        assert(one.contains(one[i]));
        let j = choose|j: int| 0 <= j < other.len() && other[j] == one[i];
        assert(other[j].id == reference);
    }
    if has_id(other, reference) {
        let i = choose|i: int| 0 <= i < other.len() && (#[trigger] other[i]).id == reference;
        assert(other.contains(other[i]));
        let j = choose|j: int| 0 <= j < one.len() && one[j] == other[i];
        assert(one[j].id == reference);
    }
    if named_id(one, reference) is Some {
        let k = lemma_named_some(one, reference);
        assert(one.contains(one[k]));
        let j = choose|j: int| 0 <= j < other.len() && other[j] == one[k];
        lemma_named_by(other, reference, j);
    }
    if named_id(other, reference) is Some {
        let k = lemma_named_some(other, reference);
        assert(other.contains(other[k]));
        let j = choose|j: int| 0 <= j < one.len() && one[j] == other[k];
        lemma_named_by(one, reference, j);
    }
}

proof fn lemma_made_same(one: Seq<RuleView>, other: Seq<RuleView>, link: Link)
    requires
        same_rules(one, other),
        unique_names(one),
        unique_names(other),
        made(one, 0, link),
    ensures
        made(other, 0, link),
{
    let (k, j) = choose|k: int, j: int| 0 <= k && #[trigger] refers(one, k, j, link);
    assert(one.contains(one[k]));
    let n = choose|n: int| 0 <= n < other.len() && other[n] == one[k];
    lemma_resolve_same(one, other, references(one[k])[j]);
    assert(refers(other, n, j, link));
}

/// Two lists of the same rules have the same dependencies.
pub proof fn lemma_links_same(one: Seq<RuleView>, other: Seq<RuleView>)
    requires
        same_rules(one, other),
        unique_names(one),
        unique_names(other),
        all_links(one, 0) is Ok,
        all_links(other, 0) is Ok,
    ensures
        same_links(all_links(one, 0)->Ok_0, all_links(other, 0)->Ok_0),
{
    assert forall|link: Link|
        all_links(one, 0)->Ok_0.contains(link) <==> all_links(other, 0)->Ok_0.contains(link) by {
        lemma_links(one, 0, link);
        lemma_links(other, 0, link);
        if made(one, 0, link) {
            lemma_made_same(one, other, link);
        }
        if made(other, 0, link) {
            assert(same_rules(other, one));
            lemma_made_same(other, one, link);
        }
    }
}

/// The nodes of the graph of a list of dependencies are the rules that the
/// dependencies name.
pub proof fn lemma_node(m: GraphModel, links: Seq<Link>, id: Seq<char>)
    requires
        mirrors(m, links),
    ensures
        m.ids.contains(id) <==> mentioned(links, id),
{
    if m.ids.contains(id) {
        let j = choose|j: int| 0 <= j < m.ids.len() && m.ids[j] == id;
        assert(mentioned(links, m.ids[j]));
    }
    if mentioned(links, id) {
        let i = choose|i: int|
            0 <= i < links.len() && ((#[trigger] links[i]).0 == id || links[i].1 == id);
        assert(joined(m, links, i));
    }
}

proof fn lemma_mentioned_same(one: Seq<Link>, other: Seq<Link>, id: Seq<char>)
    requires
        same_links(one, other),
        mentioned(one, id),
    ensures
        mentioned(other, id),
{
    let i = choose|i: int| 0 <= i < one.len() && ((#[trigger] one[i]).0 == id || one[i].1 == id);
    assert(one.contains(one[i]));
    let j = choose|j: int| 0 <= j < other.len() && other[j] == one[i];
    assert(other[j].0 == id || other[j].1 == id);
}

proof fn lemma_connects_same(one: Seq<Link>, other: Seq<Link>, from: Seq<char>, to: Seq<char>)
    requires
        same_links(one, other),
        connects(one, from, to),
    ensures
        connects(other, from, to),
{
    let path = choose|path: Seq<Seq<char>>|
        path.len() >= 1 && path[0] == from && path.last() == to && #[trigger] is_chain(one, path);
    assert forall|i: int| 0 <= i < path.len() - 1 implies other.contains(
        (#[trigger] path[i], path[i + 1]),
    ) by {
        assert(one.contains((path[i], path[i + 1])));
    }
    assert(is_chain(other, path));
}

/// A path leads from the node of a rule to a node exactly if the rule
/// takes part in a dependency and a path of dependencies leads from it to
/// the rule of the node.
pub proof fn lemma_leads(m: GraphModel, links: Seq<Link>, id: Seq<char>, node: int)
    requires
        mirrors(m, links),
        0 <= node < m.ids.len(),
    ensures
        leads(m, id, node) <==> (mentioned(links, id) && connects(links, id, m.ids[node])),
{
    lemma_node(m, links, id);
    if m.ids.contains(id) {
        lemma_reach(m, links, id, node);
    }
}

proof fn lemma_candidate_same(
    m: GraphModel,
    links: Seq<Link>,
    start: Seq<Seq<char>>,
    node: int,
    other_m: GraphModel,
    other_links: Seq<Link>,
    other_start: Seq<Seq<char>>,
    other_node: int,
)
    requires
        mirrors(m, links),
        mirrors(other_m, other_links),
        same_links(links, other_links),
        same_ids(start, other_start),
        0 <= node < m.ids.len(),
        0 <= other_node < other_m.ids.len(),
        m.ids[node] == other_m.ids[other_node],
        is_candidate(m, start, node),
    ensures
        is_candidate(other_m, other_start, other_node),
{
    let k = choose|k: int| 0 <= k < start.len() && leads(m, #[trigger] start[k], node);
    let from = start[k];
    lemma_leads(m, links, from, node);
    lemma_mentioned_same(links, other_links, from);
    lemma_connects_same(links, other_links, from, m.ids[node]);
    lemma_leads(other_m, other_links, from, other_node);
    assert(start.contains(from));
    let j = choose|j: int| 0 <= j < other_start.len() && other_start[j] == from;
    assert(leads(other_m, other_start[j], other_node));
}

proof fn lemma_rule_found(rules: Seq<RuleView>, k: int)
    requires
        unique_ids(rules),
        0 <= k < rules.len(),
    ensures
        rule_with_id(rules, rules[k].id) == Some(rules[k]),
    decreases rules.len(),
{
    if k > 0 {
        assert(rules[0].id != rules[k].id);
        let rest = rules.skip(1);
        assert forall|i: int, j: int|
            0 <= i < rest.len() && 0 <= j < rest.len() && i != j implies (#[trigger] rest[i]).id != (
        #[trigger] rest[j]).id by {
            assert(rest[i] == rules[i + 1] && rest[j] == rules[j + 1]);
        }
        assert(rest[k - 1] == rules[k]);
        lemma_rule_found(rest, k - 1);
    }
}

/// The same rule is found under an id in two lists of the same rules.
pub proof fn lemma_rule_same(one: Seq<RuleView>, other: Seq<RuleView>, id: Seq<char>)
    requires
        same_rules(one, other),
        unique_ids(one),
        unique_ids(other),
    ensures
        rule_with_id(one, id) == rule_with_id(other, id),
{
    if rule_with_id(one, id) is Some {
        let k = lemma_rule_with_id(one, id);
        assert(one.contains(one[k]));
        let j = choose|j: int| 0 <= j < other.len() && other[j] == one[k];
        lemma_rule_found(other, j);
    }
    if rule_with_id(other, id) is Some {
        let k = lemma_rule_with_id(other, id);
        assert(other.contains(other[k]));
        let j = choose|j: int| 0 <= j < one.len() && one[j] == other[k];
        lemma_rule_found(one, j);
    }
}

/// The same correlation is tried at the nodes of one rule in the graphs of
/// two lists of the same rules.
pub proof fn lemma_tried_same(
    rules: Seq<RuleView>,
    m: GraphModel,
    start: Seq<Seq<char>>,
    node: int,
    other_rules: Seq<RuleView>,
    other_m: GraphModel,
    other_start: Seq<Seq<char>>,
    other_node: int,
)
    requires
        same_rules(rules, other_rules),
        unique_ids(rules),
        unique_ids(other_rules),
        unique_names(rules),
        unique_names(other_rules),
        all_links(rules, 0) is Ok,
        all_links(other_rules, 0) is Ok,
        mirrors(m, all_links(rules, 0)->Ok_0),
        mirrors(other_m, all_links(other_rules, 0)->Ok_0),
        same_ids(start, other_start),
        0 <= node < m.ids.len(),
        0 <= other_node < other_m.ids.len(),
        m.ids[node] == other_m.ids[other_node],
    ensures
        tried(rules, m, start, node) == tried(other_rules, other_m, other_start, other_node),
{
    let links = all_links(rules, 0)->Ok_0;
    let other_links = all_links(other_rules, 0)->Ok_0;
    lemma_links_same(rules, other_rules);
    lemma_rule_same(rules, other_rules, m.ids[node]);
    if is_candidate(m, start, node) {
        lemma_candidate_same(m, links, start, node, other_m, other_links, other_start, other_node);
    }
    if is_candidate(other_m, other_start, other_node) {
        assert(same_links(other_links, links));
        assert(same_ids(other_start, start));
        lemma_candidate_same(other_m, other_links, other_start, other_node, m, links, start, node);
    }
}

/// Whether two backends hold the same increments for every rule, and so
/// the same counts, and have the same rules registered, in whatever order.
pub open spec fn alike(a: BackendView, b: BackendView) -> bool {
    &&& same_store(a.store, b.store)
    &&& forall|id: Seq<char>| #[trigger] state_of(a.states, id) == state_of(b.states, id)
}

/// Backends that are alike are so either way.
pub proof fn lemma_alike(a: BackendView, b: BackendView)
    requires
        alike(a, b),
    ensures
        alike(b, a),
{
    assert forall|id: Seq<char>| #[trigger] state_of(b.states, id) == state_of(a.states, id) by {
        assert(state_of(a.states, id) == state_of(b.states, id));
    }
    assert forall|rule: Seq<char>| #[trigger]
        pending_of(b.store.pending, rule) == pending_of(a.store.pending, rule) by {
        assert(pending_of(a.store.pending, rule) == pending_of(b.store.pending, rule));
    }
}

/// Backends that are alike are alike once the clock has reached a time in
/// both.
pub proof fn lemma_advance_alike(a: BackendView, b: BackendView, now: u64)
    requires
        alike(a, b),
    ensures
        alike(
            (BackendView { store: after_advance(a.store, now), states: a.states }),
            (BackendView { store: after_advance(b.store, now), states: b.states }),
        ),
{
    lemma_advance_same_store(a.store, b.store, now);
}

/// On backends that are alike a correlation gives the same result.
pub proof fn lemma_outcome_alike(
    c: CorrelationView,
    a: BackendView,
    b: BackendView,
    event: ValueView,
    counted: Seq<Seq<char>>,
)
    requires
        alike(a, b),
    ensures
        outcome(c, a, event, counted).0 == outcome(c, b, event, counted).0,
{
    assert(state_of(a.states, c.id) == state_of(b.states, c.id));
    if group_of(c.group_by, event) is Some {
        match state_of(a.states, c.id) {
            None => {},
            Some((rule, timeout)) => match plan(c, event, counted) {
                None => {},
                Some(lookups) => {
                    lemma_run_same_counts(a.store, b.store, rule, timeout, lookups, in_order(c.kind));
                },
            },
        }
    }
}

/// The correlations of a set of rules, tried on an event: the rules, their
/// graph and its order, the matches at the start, the backend as it stood
/// at first, and the matches in the end.
pub struct Round {
    pub rules: Seq<RuleView>,
    pub graph: GraphModel,
    pub order: Seq<int>,
    pub start: Seq<Seq<char>>,
    pub first: BackendView,
    pub all: Seq<Seq<char>>,
}

/// Whether a round is done: the graph and the order are those of the
/// rules, and a rule is among the matches in the end exactly if it is
/// among them at the start or its correlation is tried and matches.
pub open spec fn done(round: Round, data: ValueView) -> bool {
    &&& solved_by(round.rules, round.graph, round.order)
    &&& forall|id: Seq<char>| #[trigger]
        round.all.contains(id) <==> (round.start.contains(id) || fires_from(
            round.rules,
            round.graph,
            round.order,
            round.start,
            round.first,
            data,
            round.all,
            0,
            id,
        ))
}

/// Whether two rounds are those of the same rules, from the same matches
/// and on backends that are alike.
pub open spec fn twins(one: Round, other: Round) -> bool {
    &&& same_rules(one.rules, other.rules)
    &&& unique_names(one.rules)
    &&& unique_names(other.rules)
    &&& same_ids(one.start, other.start)
    &&& alike(one.first, other.first)
}

/// Whether the correlation at a position of the order of a round fires.
pub open spec fn fires(round: Round, data: ValueView, j: int) -> bool {
    fires_at(
        round.rules,
        round.graph,
        round.order,
        round.start,
        round.first,
        data,
        round.all,
        j,
        node_id(round.graph, round.order, j),
    )
}

/// The rule at a position of the order is among the matches of a round
/// exactly if it is among them at the start or its correlation fires.
proof fn lemma_fires_here(round: Round, data: ValueView, j: int)
    requires
        done(round, data),
        0 <= j < round.order.len(),
    ensures
        round.all.contains(node_id(round.graph, round.order, j)) <==> (round.start.contains(
            node_id(round.graph, round.order, j),
        ) || fires(round, data, j)),
{
    let id = node_id(round.graph, round.order, j);
    assert(round.all.contains(id) <==> (round.start.contains(id) || fires_from(
        round.rules,
        round.graph,
        round.order,
        round.start,
        round.first,
        data,
        round.all,
        0,
        id,
    )));
    if fires_from(
        round.rules,
        round.graph,
        round.order,
        round.start,
        round.first,
        data,
        round.all,
        0,
        id,
    ) {
        let at = choose|at: int|
            0 <= at && #[trigger] fires_at(
                round.rules,
                round.graph,
                round.order,
                round.start,
                round.first,
                data,
                round.all,
                at,
                id,
            );
        let k = lemma_tried(round.rules, round.graph, round.start, round.order[at]);
        assert(node_id(round.graph, round.order, at) == id);
        if at != j {
            lemma_distinct_nodes(round.graph, round.order, at, j);
        }
    }
}

/// A rule that is no node of the graph is among the matches of a round
/// exactly if it is among them at the start.
proof fn lemma_fires_nowhere(round: Round, data: ValueView, id: Seq<char>)
    requires
        done(round, data),
        !round.graph.ids.contains(id),
    ensures
        round.all.contains(id) <==> round.start.contains(id),
{
    assert(round.all.contains(id) <==> (round.start.contains(id) || fires_from(
        round.rules,
        round.graph,
        round.order,
        round.start,
        round.first,
        data,
        round.all,
        0,
        id,
    )));
    if fires_from(
        round.rules,
        round.graph,
        round.order,
        round.start,
        round.first,
        data,
        round.all,
        0,
        id,
    ) {
        let at = choose|at: int|
            0 <= at && #[trigger] fires_at(
                round.rules,
                round.graph,
                round.order,
                round.start,
                round.first,
                data,
                round.all,
                at,
                id,
            );
        let k = lemma_tried(round.rules, round.graph, round.start, round.order[at]);
        assert(round.graph.ids[round.order[at]] == id);
    }
}

/// The position at which the order of a round has the rule of an id that
/// the dependencies of twin rounds name.
proof fn lemma_position(one: Round, other: Round, id: Seq<char>) -> (j: int)
    requires
        solved_by(one.rules, one.graph, one.order),
        solved_by(other.rules, other.graph, other.order),
        twins(one, other),
        one.graph.ids.contains(id),
    ensures
        0 <= j < other.order.len(),
        0 <= other.order[j] < other.graph.ids.len(),
        node_id(other.graph, other.order, j) == id,
{
    let links = all_links(one.rules, 0)->Ok_0;
    let other_links = all_links(other.rules, 0)->Ok_0;
    lemma_links_same(one.rules, other.rules);
    lemma_node(one.graph, links, id);
    lemma_mentioned_same(links, other_links, id);
    lemma_node(other.graph, other_links, id);
    let node = choose|node: int| 0 <= node < other.graph.ids.len() && other.graph.ids[node] == id;
    lemma_listed(other.order, other.graph.ids.len() as int, other.graph.edges, node);
    let j = choose|j: int| 0 <= j < other.order.len() && other.order[j] == node;
    j
}

/// In twin rounds the references of a correlation that is tried count
/// alike in the end.
proof fn lemma_present_twins(one: Round, other: Round, data: ValueView, j: int)
    requires
        done(one, data),
        done(other, data),
        twins(one, other),
        0 <= j < one.order.len(),
        tried(one.rules, one.graph, one.start, one.order[j]) is Some,
    ensures
        ({
            let c = tried(one.rules, one.graph, one.start, one.order[j])->Some_0.1;
            present(c.rules, directory_of(one.rules), one.all) == present(
                c.rules,
                directory_of(other.rules),
                other.all,
            )
        }),
    decreases j, 0int,
{
    let node = one.order[j];
    let c = tried(one.rules, one.graph, one.start, node)->Some_0.1;
    let k = lemma_tried(one.rules, one.graph, one.start, node);
    let directory = directory_of(one.rules);
    let second = directory_of(other.rules);
    assert forall|r: int| 0 <= r < c.rules.len() implies counts(
        directory,
        one.all,
        #[trigger] c.rules[r],
    ) == counts(second, other.all, c.rules[r]) by {
        lemma_meant(one.rules, c.rules[r]);
        lemma_meant(other.rules, c.rules[r]);
        lemma_resolve_same(one.rules, other.rules, c.rules[r]);
        if meant(directory, c.rules[r]) is Some {
            let p = lemma_dependency_before(one.rules, one.graph, one.order, j, k, r);
            lemma_agree(one, other, data, p);
        }
    }
    lemma_present_alike(c.rules, directory, one.all, second, other.all);
}

/// In twin rounds the rule at a position of the order of the one is among
/// the matches of both or of neither.
proof fn lemma_agree(one: Round, other: Round, data: ValueView, j: int)
    requires
        done(one, data),
        done(other, data),
        twins(one, other),
        0 <= j < one.order.len(),
    ensures
        one.all.contains(node_id(one.graph, one.order, j)) <==> other.all.contains(
            node_id(one.graph, one.order, j),
        ),
    decreases j, 1int,
{
    let id = node_id(one.graph, one.order, j);
    let node = one.order[j];
    assert(0 <= node < one.graph.ids.len());
    assert(one.graph.ids.contains(id));
    let i = lemma_position(one, other, id);
    lemma_fires_here(one, data, j);
    lemma_fires_here(other, data, i);
    lemma_tried_same(
        one.rules,
        one.graph,
        one.start,
        node,
        other.rules,
        other.graph,
        other.start,
        other.order[i],
    );
    match tried(one.rules, one.graph, one.start, node) {
        None => {},
        Some((name, c)) => {
            lemma_present_twins(one, other, data, j);
            lemma_outcome_alike(
                c,
                one.first,
                other.first,
                data,
                present(c.rules, directory_of(one.rules), one.all),
            );
        },
    }
}

/// Twin rounds end with the same matches.
pub proof fn lemma_twins(one: Round, other: Round, data: ValueView)
    requires
        done(one, data),
        done(other, data),
        twins(one, other),
    ensures
        same_ids(one.all, other.all),
{
    assert forall|id: Seq<char>| one.all.contains(id) <==> other.all.contains(id) by {
        let links = all_links(one.rules, 0)->Ok_0;
        let other_links = all_links(other.rules, 0)->Ok_0;
        lemma_links_same(one.rules, other.rules);
        lemma_node(one.graph, links, id);
        lemma_node(other.graph, other_links, id);
        if one.graph.ids.contains(id) {
            let node = choose|node: int| 0 <= node < one.graph.ids.len() && one.graph.ids[node] == id;
            lemma_listed(one.order, one.graph.ids.len() as int, one.graph.edges, node);
            let j = choose|j: int| 0 <= j < one.order.len() && one.order[j] == node;
            lemma_agree(one, other, data, j);
        } else {
            if mentioned(other_links, id) {
                assert(same_links(other_links, links));
                lemma_mentioned_same(other_links, links, id);
            }
            lemma_fires_nowhere(one, data, id);
            lemma_fires_nowhere(other, data, id);
        }
    }
}

/// What holds of the names and ids of one list of rules holds of another
/// list of the same rules.
pub proof fn lemma_same_rules(one: Seq<RuleView>, other: Seq<RuleView>)
    requires
        same_rules(one, other),
        unique_names(one),
        own_ids(one),
        unique_ids(other),
    ensures
        unique_names(other),
        own_ids(other),
        same_rules(other, one),
{
    assert forall|i: int, j: int|
        0 <= i < other.len() && 0 <= j < other.len() && i != j && (#[trigger] other[i]).name
            is Some implies other[i].name != (#[trigger] other[j]).name by {
        assert(other.contains(other[i]) && other.contains(other[j]));
        let a = choose|a: int| 0 <= a < one.len() && one[a] == other[i];
        let b = choose|b: int| 0 <= b < one.len() && one[b] == other[j];
        assert(other[i].id != other[j].id);
        assert(a != b);
        assert(one[a].name != one[b].name);
    }
    assert forall|k: int| 0 <= k < other.len() implies goes_by_id(
        #[trigger] other[k],
    ) by {
        assert(other.contains(other[k]));
        let a = choose|a: int| 0 <= a < one.len() && one[a] == other[k];
        assert(goes_by_id(one[a]));
    }
}

/// Two lists that hold the same ids hold the same set of them.
pub proof fn lemma_same_set(one: Seq<Seq<char>>, other: Seq<Seq<char>>)
    ensures
        same_ids(one, other) <==> one.to_set() == other.to_set(),
{
    if same_ids(one, other) {
        assert(one.to_set() =~= other.to_set());
    }
    if one.to_set() == other.to_set() {
        assert forall|id: Seq<char>| one.contains(id) <==> other.contains(id) by {
            assert(one.to_set().contains(id) <==> other.to_set().contains(id));
        }
    }
}

/// Whether the correlation at a position of the order is tried and
/// cannot be evaluated: the event has the fields of its group, and the
/// backend has no state for it.
pub open spec fn stuck(
    rules: Seq<RuleView>,
    m: GraphModel,
    order: Seq<int>,
    start: Seq<Seq<char>>,
    states: Seq<(Seq<char>, u64)>,
    data: ValueView,
    j: int,
) -> bool {
    &&& 0 <= j < order.len()
    &&& tried(rules, m, start, order[j]) is Some
    &&& group_of(tried(rules, m, start, order[j])->Some_0.1.group_by, data) is Some
    &&& state_of(states, tried(rules, m, start, order[j])->Some_0.1.id) is None
}

/// A correlation cannot be evaluated exactly where the event has the
/// fields of its group and the backend has no state for it; the states of
/// the backend stay as they are.
proof fn lemma_outcome_fails(
    c: CorrelationView,
    b: BackendView,
    data: ValueView,
    counted: Seq<Seq<char>>,
)
    ensures
        outcome(c, b, data, counted).0 is Err <==> (group_of(c.group_by, data) is Some && state_of(
            b.states,
            c.id,
        ) is None),
        outcome(c, b, data, counted).1.states == b.states,
{
}

/// One step of the traversal fails exactly where its correlation is tried
/// and cannot be evaluated.
proof fn lemma_step_fails(
    rules: Seq<RuleView>,
    m: GraphModel,
    order: Seq<int>,
    start: Seq<Seq<char>>,
    at: int,
    b: BackendView,
    data: ValueView,
    prior: Seq<Seq<char>>,
)
    requires
        0 <= at < order.len(),
    ensures
        attempt(rules, m, start, order[at], b, data, prior).0 is Err <==> stuck(
            rules,
            m,
            order,
            start,
            b.states,
            data,
            at,
        ),
        attempt(rules, m, start, order[at], b, data, prior).1.states == b.states,
{
    match tried(rules, m, start, order[at]) {
        None => {},
        Some((id, c)) => {
            lemma_outcome_fails(c, b, data, present(c.rules, directory_of(rules), prior));
        },
    }
}

/// Trying the correlations from a position of the order on fails exactly
/// where one of them is tried and cannot be evaluated.
pub proof fn lemma_fails(
    rules: Seq<RuleView>,
    m: GraphModel,
    order: Seq<int>,
    start: Seq<Seq<char>>,
    at: int,
    b: BackendView,
    data: ValueView,
    prior: Seq<Seq<char>>,
)
    requires
        0 <= at,
    ensures
        correlate(rules, m, order, start, at, b, data, prior).0 is Err <==> exists|j: int|
            at <= j && #[trigger] stuck(rules, m, order, start, b.states, data, j),
    decreases order.len() - at,
{
    let here = exists|j: int| at <= j && #[trigger] stuck(rules, m, order, start, b.states, data, j);
    if at < order.len() {
        let step = attempt(rules, m, start, order[at], b, data, prior);
        lemma_step_fails(rules, m, order, start, at, b, data, prior);
        if step.0 is Ok {
            lemma_fails(rules, m, order, start, at + 1, step.1, data, step.2);
            assert(correlate(rules, m, order, start, at, b, data, prior) == correlate(
                rules,
                m,
                order,
                start,
                at + 1,
                step.1,
                data,
                step.2,
            ));
            if here {
                let j = choose|j: int|
                    at <= j && #[trigger] stuck(rules, m, order, start, b.states, data, j);
                assert(at + 1 <= j && stuck(rules, m, order, start, step.1.states, data, j));
            }
            if correlate(rules, m, order, start, at, b, data, prior).0 is Err {
                let j = choose|j: int|
                    at + 1 <= j && #[trigger] stuck(rules, m, order, start, step.1.states, data, j);
                assert(at <= j && stuck(rules, m, order, start, b.states, data, j));
            }
        } else {
            assert(correlate(rules, m, order, start, at, b, data, prior).0 is Err);
            assert(stuck(rules, m, order, start, b.states, data, at));
        }
    } else {
        if here {
            let j = choose|j: int|
                at <= j && #[trigger] stuck(rules, m, order, start, b.states, data, j);
        }
    }
}

/// Where a correlation cannot be evaluated in one of two twin rounds, one
/// cannot be evaluated in the other.
proof fn lemma_stuck_same(one: Round, other: Round, data: ValueView, j: int) -> (i: int)
    requires
        solved_by(one.rules, one.graph, one.order),
        solved_by(other.rules, other.graph, other.order),
        twins(one, other),
        stuck(one.rules, one.graph, one.order, one.start, one.first.states, data, j),
    ensures
        stuck(other.rules, other.graph, other.order, other.start, other.first.states, data, i),
{
    let node = one.order[j];
    let k = lemma_tried(one.rules, one.graph, one.start, node);
    let id = one.graph.ids[node];
    assert(one.graph.ids.contains(id));
    let i = lemma_position(one, other, id);
    lemma_tried_same(
        one.rules,
        one.graph,
        one.start,
        node,
        other.rules,
        other.graph,
        other.start,
        other.order[i],
    );
    let c = tried(one.rules, one.graph, one.start, node)->Some_0.1;
    assert(state_of(one.first.states, c.id) == state_of(other.first.states, c.id));
    i
}

/// Twin rounds fail together.
pub proof fn lemma_twins_fail(one: Round, other: Round, data: ValueView)
    requires
        solved_by(one.rules, one.graph, one.order),
        solved_by(other.rules, other.graph, other.order),
        twins(one, other),
    ensures
        correlate(one.rules, one.graph, one.order, one.start, 0, one.first, data, one.start).0
            is Err ==> correlate(
            other.rules,
            other.graph,
            other.order,
            other.start,
            0,
            other.first,
            data,
            other.start,
        ).0 is Err,
{
    lemma_fails(one.rules, one.graph, one.order, one.start, 0, one.first, data, one.start);
    lemma_fails(other.rules, other.graph, other.order, other.start, 0, other.first, data, other.start);
    if correlate(one.rules, one.graph, one.order, one.start, 0, one.first, data, one.start).0 is Err {
        let j = choose|j: int|
            0 <= j && #[trigger] stuck(
                one.rules,
                one.graph,
                one.order,
                one.start,
                one.first.states,
                data,
                j,
            );
        let i = lemma_stuck_same(one, other, data, j);
    }
}

/// Whether a round has run: the graph and the order are those of the
/// rules, the backend did not fail, and the matches in the end are those
/// of trying the correlations.
pub open spec fn ran(round: Round, data: ValueView) -> bool {
    &&& solved_by(round.rules, round.graph, round.order)
    &&& correlate(
        round.rules,
        round.graph,
        round.order,
        round.start,
        0,
        round.first,
        data,
        round.start,
    ).0 is Ok
    &&& round.all == correlate(
        round.rules,
        round.graph,
        round.order,
        round.start,
        0,
        round.first,
        data,
        round.start,
    ).2
}

/// The backend at the end of a round.
pub open spec fn end_of(round: Round, data: ValueView) -> BackendView {
    correlate(
        round.rules,
        round.graph,
        round.order,
        round.start,
        0,
        round.first,
        data,
        round.start,
    ).1
}

/// A round that has run is done.
pub proof fn lemma_ran(round: Round, data: ValueView)
    requires
        ran(round, data),
    ensures
        done(round, data),
{
    lemma_traversal(
        round.rules,
        round.graph,
        round.order,
        round.start,
        round.first,
        data,
        0,
        round.first,
        round.start,
    );
}

/// Twin rounds are twins either way.
pub proof fn lemma_twins_swap(one: Round, other: Round)
    requires
        twins(one, other),
    ensures
        twins(other, one),
{
    lemma_alike(one.first, other.first);
}

/// The correlation of a rule that is tried in one of two twin rounds is
/// tried in the other.
proof fn lemma_tried_twins(one: Round, other: Round, id: Seq<char>, j: int) -> (i: int)
    requires
        solved_by(one.rules, one.graph, one.order),
        solved_by(other.rules, other.graph, other.order),
        twins(one, other),
        tried_at(one.rules, one.graph, one.order, one.start, j, id),
    ensures
        tried_at(other.rules, other.graph, other.order, other.start, i, id),
        tried(one.rules, one.graph, one.start, one.order[j]) == tried(
            other.rules,
            other.graph,
            other.start,
            other.order[i],
        ),
        tried(one.rules, one.graph, one.start, one.order[j])->Some_0.1.id == id,
{
    let node = one.order[j];
    let k = lemma_tried(one.rules, one.graph, one.start, node);
    assert(one.graph.ids.contains(id));
    let i = lemma_position(one, other, id);
    lemma_tried_same(
        one.rules,
        one.graph,
        one.start,
        node,
        other.rules,
        other.graph,
        other.start,
        other.order[i],
    );
    i
}

/// Twin rounds that have run leave the same counts for every rule.
proof fn lemma_twin_counts(one: Round, other: Round, data: ValueView, id: Seq<char>)
    requires
        ran(one, data),
        ran(other, data),
        twins(one, other),
    ensures
        same_counts_of(end_of(one, data).store, end_of(other, data).store, id),
        end_of(one, data).states == one.first.states,
        end_of(other, data).states == other.first.states,
{
    lemma_ran(one, data);
    lemma_ran(other, data);
    lemma_twins_swap(one, other);
    lemma_counts_after(
        one.rules,
        one.graph,
        one.order,
        one.start,
        one.first,
        data,
        0,
        one.first,
        one.start,
        id,
    );
    lemma_counts_after(
        other.rules,
        other.graph,
        other.order,
        other.start,
        other.first,
        data,
        0,
        other.first,
        other.start,
        id,
    );
    let fin = end_of(one, data).store;
    let end = end_of(other, data).store;
    assert(pending_of(one.first.store.pending, id) == pending_of(other.first.store.pending, id));
    assert(same_counts_of(one.first.store, other.first.store, id));
    if tried_from(one.rules, one.graph, one.order, one.start, 0, id) {
        let j = choose|j: int|
            0 <= j && #[trigger] tried_at(one.rules, one.graph, one.order, one.start, j, id);
        let i = lemma_tried_twins(one, other, id, j);
        lemma_present_twins(one, other, data, j);
        let c = tried(one.rules, one.graph, one.start, one.order[j])->Some_0.1;
        let counted = present(c.rules, directory_of(one.rules), one.all);
        assert(state_of(one.first.states, c.id) == state_of(other.first.states, c.id));
        lemma_outcome_local(c, one.first, other.first, data, counted, id);
        let mine = store_after(
            one.rules,
            one.graph,
            one.order,
            one.start,
            one.first,
            data,
            one.all,
            j,
        );
        let theirs = store_after(
            other.rules,
            other.graph,
            other.order,
            other.start,
            other.first,
            data,
            other.all,
            i,
        );
        assert(same_counts_of(mine, theirs, id));
        assert(same_counts_of(fin, mine, id));
        assert(same_counts_of(end, theirs, id));
        lemma_same_counts_of(fin, mine, theirs, id);
        lemma_same_counts_of(end, theirs, theirs, id);
        lemma_same_counts_of(fin, theirs, end, id);
    } else {
        if tried_from(other.rules, other.graph, other.order, other.start, 0, id) {
            let i = choose|i: int|
                0 <= i && #[trigger] tried_at(other.rules, other.graph, other.order, other.start, i, id);
            let j = lemma_tried_twins(other, one, id, i);
            assert(tried_at(one.rules, one.graph, one.order, one.start, j, id));
        }
        lemma_same_counts_of(fin, one.first.store, other.first.store, id);
        lemma_same_counts_of(end, other.first.store, other.first.store, id);
        lemma_same_counts_of(fin, other.first.store, end, id);
    }
}

/// Twin rounds that have run leave backends that are alike.
pub proof fn lemma_twins_end(one: Round, other: Round, data: ValueView)
    requires
        ran(one, data),
        ran(other, data),
        twins(one, other),
    ensures
        alike(end_of(one, data), end_of(other, data)),
{
    let fin = end_of(one, data);
    let end = end_of(other, data);
    lemma_twin_counts(one, other, data, Seq::empty());
    assert forall|rule: Seq<char>, group: GroupView, d: Option<DiscriminatorView>| #[trigger]
        bucket_count(fin.store.pending, rule, group, d) == bucket_count(
            end.store.pending,
            rule,
            group,
            d,
        ) by {
        lemma_twin_counts(one, other, data, rule);
    }
    assert forall|rule: Seq<char>, group: GroupView| #[trigger]
        distinct_count(fin.store.pending, rule, group) == distinct_count(
            end.store.pending,
            rule,
            group,
        ) by {
        lemma_twin_counts(one, other, data, rule);
    }
    assert forall|rule: Seq<char>| #[trigger]
        pending_of(fin.store.pending, rule) == pending_of(end.store.pending, rule) by {
        lemma_twin_counts(one, other, data, rule);
    }
    assert forall|id: Seq<char>| #[trigger]
        state_of(fin.states, id) == state_of(end.states, id) by {
        assert(state_of(one.first.states, id) == state_of(other.first.states, id));
    }
}

/// The state that registering the rules gives the rule of an id: that of
/// its correlation, with its timespan.
pub open spec fn registered(rules: Seq<RuleView>, id: Seq<char>) -> Option<(Seq<char>, u64)> {
    match rule_with_id(rules, id) {
        Some(rule) => match rule.body {
            BodyView::Correlation(c) => Some((id, c.timespan)),
            BodyView::Detection(_, _) => None,
        },
        None => None,
    }
}

proof fn lemma_state_pushed(states: Seq<(Seq<char>, u64)>, state: (Seq<char>, u64), id: Seq<char>)
    ensures
        state_of(states.push(state), id) == if state_of(states, id) is Some {
            state_of(states, id)
        } else if state.0 == id {
            Some(state)
        } else {
            None
        },
    decreases states.len(),
{
    let more = states.push(state);
    if states.len() == 0 {
        assert(more.skip(1) =~= Seq::empty());
    } else {
        assert(more.skip(1) =~= states.skip(1).push(state));
        if states[0].0 != id {
            lemma_state_pushed(states.skip(1), state, id);
        }
    }
}

proof fn lemma_rule_pushed(rules: Seq<RuleView>, rule: RuleView, id: Seq<char>)
    ensures
        rule_with_id(rules.push(rule), id) == if rule_with_id(rules, id) is Some {
            rule_with_id(rules, id)
        } else if rule.id == id {
            Some(rule)
        } else {
            None
        },
    decreases rules.len(),
{
    let more = rules.push(rule);
    if rules.len() == 0 {
        assert(more.skip(1) =~= Seq::empty());
    } else {
        assert(more.skip(1) =~= rules.skip(1).push(rule));
        if rules[0].id != id {
            lemma_rule_pushed(rules.skip(1), rule, id);
        }
    }
}

/// Whether the states are those of the correlations among the first
/// `from` rules.
pub open spec fn registered_to(states: Seq<(Seq<char>, u64)>, rules: Seq<RuleView>, from: int) -> bool {
    forall|id: Seq<char>| #[trigger] state_of(states, id) == registered(rules.take(from), id)
}

/// Registering the rules of a set in which every correlation goes by the
/// id of its rule, and no two rules have one id, does not fail, and gives
/// each correlation rule its state.
pub proof fn lemma_register_all(states: Seq<(Seq<char>, u64)>, rules: Seq<RuleView>, from: int)
    requires
        unique_ids(rules),
        own_ids(rules),
        0 <= from <= rules.len(),
        registered_to(states, rules, from),
    ensures
        register_all(states, rules, from) is Some,
        registered_to(register_all(states, rules, from)->Some_0, rules, rules.len() as int),
    decreases rules.len() - from,
{
    if from < rules.len() {
        let rule = rules[from];
        let before = rules.take(from);
        assert(rules.take(from + 1) =~= before.push(rule));
        assert(goes_by_id(rule));
        if rule_with_id(before, rule.id) is Some {
            let k = lemma_rule_with_id(before, rule.id);
            assert(before[k] == rules[k]);
            assert(rules[k].id != rules[from].id);
        }
        assert(state_of(states, rule.id) == registered(before, rule.id));
        let next = match rule.body {
            BodyView::Correlation(c) => states.push((c.id, c.timespan)),
            BodyView::Detection(_, _) => states,
        };
        assert forall|id: Seq<char>| #[trigger]
            state_of(next, id) == registered(rules.take(from + 1), id) by {
            lemma_rule_pushed(before, rule, id);
            assert(state_of(states, id) == registered(before, id));
            match rule.body {
                BodyView::Correlation(c) => {
                    lemma_state_pushed(states, (c.id, c.timespan), id);
                },
                BodyView::Detection(_, _) => {},
            }
        }
        lemma_register_all(next, rules, from + 1);
    } else {
        assert(rules.take(from) =~= rules);
    }
}

/// Registering two sets of the same rules from nothing gives every rule
/// the same state.
pub proof fn lemma_registered_same(one: Seq<RuleView>, other: Seq<RuleView>)
    requires
        same_rules(one, other),
        unique_ids(one),
        unique_ids(other),
        own_ids(one),
        own_ids(other),
    ensures
        register_all(Seq::empty(), one, 0) is Some,
        register_all(Seq::empty(), other, 0) is Some,
        forall|id: Seq<char>| #[trigger]
            state_of(register_all(Seq::empty(), one, 0)->Some_0, id) == state_of(
                register_all(Seq::empty(), other, 0)->Some_0,
                id,
            ),
{
    let nothing = Seq::<(Seq<char>, u64)>::empty();
    assert(one.take(0) =~= Seq::empty());
    assert(other.take(0) =~= Seq::empty());
    lemma_register_all(nothing, one, 0);
    lemma_register_all(nothing, other, 0);
    let mine = register_all(nothing, one, 0)->Some_0;
    let theirs = register_all(nothing, other, 0)->Some_0;
    assert(one.take(one.len() as int) =~= one);
    assert(other.take(other.len() as int) =~= other);
    assert forall|id: Seq<char>| #[trigger] state_of(mine, id) == state_of(theirs, id) by {
        lemma_rule_same(one, other, id);
        assert(state_of(mine, id) == registered(one, id));
        assert(state_of(theirs, id) == registered(other, id));
    }
}

} // verus!
