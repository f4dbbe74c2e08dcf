//! The dependencies between the rules of a collection: what a reference
//! means, the graph of the dependencies, and its topological order.
use vstd::prelude::*;
use petgraph::graph::Graph;
use petgraph::Directed;
use crate::collection::{CollectionError, Failure};
use crate::graph::{
    add_edge, add_node, edge_count, graph_edges, graph_nodes, has_cycle, is_walk, new_graph,
    positions, reachable, topological, toposort, GRAPH_LIMIT,
};
use crate::rule::{rule_views, BodyView, RuleType, RuleView, SigmaRule};
use crate::text::{same_text, texts};

verus! {

/// A dependency: the id of a rule, and the id of a rule that refers to it.
pub type Link = (Seq<char>, Seq<char>);

/// A graph of rules: the ids of its nodes by index, and its edges.
pub struct GraphModel {
    pub ids: Seq<Seq<char>>,
    pub edges: Seq<(int, int)>,
}

/// The graph without nodes.
pub open spec fn empty_graph() -> GraphModel {
    GraphModel { ids: Seq::empty(), edges: Seq::empty() }
}

/// The graph with a node for `id`, and the index of that node; none where
/// a node would have to be added to a full graph.
pub open spec fn with_node(m: GraphModel, id: Seq<char>) -> Option<(GraphModel, int)> {
    if m.ids.contains(id) {
        Some((m, m.ids.index_of(id)))
    } else if m.ids.len() >= GRAPH_LIMIT {
        None
    } else {
        Some((GraphModel { ids: m.ids.push(id), edges: m.edges }, m.ids.len() as int))
    }
}

/// The graph with one more edge, from the node of the first id to that of
/// the second, the nodes added where they are missing.
pub open spec fn with_link(m: GraphModel, link: Link) -> Option<GraphModel> {
    match with_node(m, link.0) {
        None => None,
        Some((m1, from)) => match with_node(m1, link.1) {
            None => None,
            Some((m2, to)) => if m2.edges.len() >= GRAPH_LIMIT {
                None
            } else {
                Some(GraphModel { ids: m2.ids, edges: m2.edges.push((from, to)) })
            },
        },
    }
}

/// The graph with an edge for each dependency, in order.
pub open spec fn build(m: GraphModel, links: Seq<Link>) -> Option<GraphModel>
    decreases links.len(),
{
    if links.len() == 0 {
        Some(m)
    } else {
        match with_link(m, links[0]) {
            None => None,
            Some(next) => build(next, links.skip(1)),
        }
    }
}

/// Whether a graph is well formed: no id names two nodes, and every edge
/// joins nodes that exist.
pub open spec fn sound(m: GraphModel) -> bool {
    &&& m.ids.no_duplicates()
    &&& forall|k: int|
        0 <= k < m.edges.len() ==> 0 <= (#[trigger] m.edges[k]).0 < m.ids.len() && 0 <= m.edges[k].1
            < m.ids.len()
}

/// Whether the collection holds a rule with this id.
pub open spec fn has_id(rules: Seq<RuleView>, id: Seq<char>) -> bool {
    exists|i: int| 0 <= i < rules.len() && (#[trigger] rules[i]).id == id
}

/// The id of the rule that goes by a name: that of the last rule added
/// under this name.
pub open spec fn named_id(rules: Seq<RuleView>, name: Seq<char>) -> Option<Seq<char>>
    decreases rules.len(),
{
    if rules.len() == 0 {
        None
    } else if rules.last().name == Some(name) {
        Some(rules.last().id)
    } else {
        named_id(rules.drop_last(), name)
    }
}

/// The id of the rule that a reference means: the reference itself where
/// it is the id of a rule, else the id of the rule of that name.
pub open spec fn resolve_ref(rules: Seq<RuleView>, reference: Seq<char>) -> Option<Seq<char>> {
    if has_id(rules, reference) {
        Some(reference)
    } else {
        named_id(rules, reference)
    }
}

/// What is done in front of what follows, or the failure that follows.
pub open spec fn attach<T, E>(done: Seq<T>, rest: Result<Seq<T>, E>) -> Result<Seq<T>, E> {
    match rest {
        Ok(more) => Ok(done + more),
        Err(e) => Err(e),
    }
}

proof fn lemma_attach<T, E>(done: Seq<T>, more: Seq<T>, rest: Result<Seq<T>, E>)
    ensures
        attach(done, attach(more, rest)) == attach(done + more, rest),
        attach(done, Ok::<Seq<T>, E>(Seq::empty())) == Ok::<Seq<T>, E>(done),
        attach(Seq::empty(), rest) == rest,
{
    match rest {
        Ok(r) => {
            assert(done + (more + r) =~= (done + more) + r);
            assert(Seq::<T>::empty() + r =~= r);
        },
        Err(_) => {},
    }
    assert(done + Seq::<T>::empty() =~= done);
}

/// The dependencies of one rule, in the order of its references; or the
/// rule with the first reference that means no rule.
pub open spec fn rule_links(rules: Seq<RuleView>, id: Seq<char>, refs: Seq<Seq<char>>) -> Result<
    Seq<Link>,
    Link,
>
    decreases refs.len(),
{
    if refs.len() == 0 {
        Ok(Seq::empty())
    } else {
        match resolve_ref(rules, refs[0]) {
            None => Err((id, refs[0])),
            Some(dep) => attach(seq![(dep, id)], rule_links(rules, id, refs.skip(1))),
        }
    }
}

/// The references of a rule: those of a correlation, none for a detection.
pub open spec fn references(rule: RuleView) -> Seq<Seq<char>> {
    match rule.body {
        BodyView::Correlation(c) => c.rules,
        BodyView::Detection(_, _) => Seq::empty(),
    }
}

/// The dependencies of the rules from `from` on, rule by rule; or the
/// first rule and reference that means no rule.
pub open spec fn all_links(rules: Seq<RuleView>, from: int) -> Result<Seq<Link>, Link>
    decreases rules.len() - from,
{
    if from < 0 || from >= rules.len() {
        Ok(Seq::empty())
    } else {
        match rule_links(rules, rules[from].id, references(rules[from])) {
            Err(e) => Err(e),
            Ok(links) => attach(links, all_links(rules, from + 1)),
        }
    }
}

/// Whether every step of a path of ids is a dependency.
pub open spec fn is_chain(links: Seq<Link>, path: Seq<Seq<char>>) -> bool {
    forall|i: int| 0 <= i < path.len() - 1 ==> links.contains((#[trigger] path[i], path[i + 1]))
}

/// Whether the dependencies form a cycle: whether a path of at least one
/// dependency leads from a rule back to itself.
pub open spec fn cyclic(links: Seq<Link>) -> bool {
    exists|path: Seq<Seq<char>>|
        path.len() >= 2 && path[0] == path.last() && #[trigger] is_chain(links, path)
}

/// The graph of the dependencies of a set of rules, or why there is none:
/// a reference means no rule, the graph cannot hold them all, or they
/// form a cycle.
pub open spec fn solved(rules: Seq<RuleView>) -> Result<GraphModel, Failure> {
    match all_links(rules, 0) {
        Err((rule, reference)) => Err(Failure::DependencyMissing(rule, reference)),
        Ok(links) => match build(empty_graph(), links) {
            None => Err(Failure::TooLarge),
            Some(m) => if cyclic(links) {
                Err(Failure::DependencyCycle)
            } else {
                Ok(m)
            },
        },
    }
}

/// Whether the edge at `k` joins the nodes of the ids of the dependency at
/// `k`.
pub open spec fn joined(m: GraphModel, links: Seq<Link>, k: int) -> bool {
    &&& 0 <= m.edges[k].0 < m.ids.len()
    &&& 0 <= m.edges[k].1 < m.ids.len()
    &&& m.ids[m.edges[k].0] == links[k].0
    &&& m.ids[m.edges[k].1] == links[k].1
}

/// Whether a dependency names an id, on either side.
pub open spec fn mentioned(links: Seq<Link>, id: Seq<char>) -> bool {
    exists|k: int| 0 <= k < links.len() && ((#[trigger] links[k]).0 == id || links[k].1 == id)
}

/// Whether a graph is that of a list of dependencies: it has an edge for
/// each of them, in order, between the nodes of their ids, and no other
/// nodes.
pub open spec fn mirrors(m: GraphModel, links: Seq<Link>) -> bool {
    &&& sound(m)
    &&& m.edges.len() == links.len()
    &&& forall|k: int| 0 <= k < links.len() ==> #[trigger] joined(m, links, k)
    &&& forall|j: int| 0 <= j < m.ids.len() ==> mentioned(links, #[trigger] m.ids[j])
}

/// Whether a path of dependencies leads from one rule to another; the
/// path of no dependency leads from a rule to itself.
pub open spec fn connects(links: Seq<Link>, from: Seq<char>, to: Seq<char>) -> bool {
    exists|path: Seq<Seq<char>>|
        path.len() >= 1 && path[0] == from && path.last() == to && #[trigger] is_chain(links, path)
}

proof fn lemma_with_node(m: GraphModel, id: Seq<char>)
    requires
        sound(m),
        with_node(m, id) is Some,
    ensures
        ({
            let (after, k) = with_node(m, id)->Some_0;
            &&& sound(after)
            &&& after.edges == m.edges
            &&& 0 <= k < after.ids.len()
            &&& after.ids[k] == id
            &&& m.ids.len() <= after.ids.len()
            &&& forall|j: int| 0 <= j < m.ids.len() ==> #[trigger] after.ids[j] == m.ids[j]
            &&& forall|j: int| m.ids.len() <= j < after.ids.len() ==> #[trigger] after.ids[j] == id
        }),
{
    let (after, k) = with_node(m, id)->Some_0;
    if m.ids.contains(id) {
        let j = choose|j: int| 0 <= j < m.ids.len() && m.ids[j] == id;
        assert(m.ids[k] == id && 0 <= k < m.ids.len());
    } else {
        assert forall|i: int, j: int|
            0 <= i < after.ids.len() && 0 <= j < after.ids.len() && i != j implies after.ids[i]
            != after.ids[j] by {
            if i < m.ids.len() && j < m.ids.len() {
            } else if i < m.ids.len() {
                assert(m.ids[i] != id);
            } else {
                assert(m.ids[j] != id);
            }
        }
        assert forall|e: int| 0 <= e < after.edges.len() implies 0 <= (#[trigger] after.edges[e]).0
            < after.ids.len() && 0 <= after.edges[e].1 < after.ids.len() by {
            assert(after.edges[e] == m.edges[e]);
        }
    }
}

proof fn lemma_with_link(m: GraphModel, done: Seq<Link>, link: Link)
    requires
        mirrors(m, done),
        with_link(m, link) is Some,
    ensures
        mirrors(with_link(m, link)->Some_0, done.push(link)),
{
    lemma_with_node(m, link.0);
    let (m1, a) = with_node(m, link.0)->Some_0;
    lemma_with_node(m1, link.1);
    let (m2, b) = with_node(m1, link.1)->Some_0;
    let after = with_link(m, link)->Some_0;
    let links = done.push(link);
    assert(after.ids == m2.ids);
    assert(after.edges == m.edges.push((a, b)));
    assert(m2.ids[a] == m1.ids[a]);
    assert forall|e: int| 0 <= e < after.edges.len() implies 0 <= (#[trigger] after.edges[e]).0
        < after.ids.len() && 0 <= after.edges[e].1 < after.ids.len() by {
        if e < m.edges.len() {
            assert(after.edges[e] == m.edges[e]);
        }
    }
    assert forall|k: int| 0 <= k < links.len() implies #[trigger] joined(after, links, k) by {
        if k < done.len() {
            assert(joined(m, done, k));
            assert(after.edges[k] == m.edges[k]);
            assert(links[k] == done[k]);
            let e = m.edges[k];
            assert(m1.ids[e.0] == m.ids[e.0] && m1.ids[e.1] == m.ids[e.1]);
            assert(m2.ids[e.0] == m1.ids[e.0] && m2.ids[e.1] == m1.ids[e.1]);
        }
    }
    assert forall|j: int| 0 <= j < after.ids.len() implies mentioned(
        links,
        #[trigger] after.ids[j],
    ) by {
        if j < m.ids.len() {
            assert(m1.ids[j] == m.ids[j]);
            assert(m2.ids[j] == m1.ids[j]);
            assert(mentioned(done, m.ids[j]));
            let k = choose|k: int|
                0 <= k < done.len() && ((#[trigger] done[k]).0 == m.ids[j] || done[k].1 == m.ids[j]);
            assert(links[k] == done[k]);
        } else {
            assert(links[done.len() as int] == link);
            if j < m1.ids.len() {
                assert(m2.ids[j] == m1.ids[j]);
                assert(m1.ids[j] == link.0);
            } else {
                assert(m2.ids[j] == link.1);
            }
        }
    }
}

proof fn lemma_build(m: GraphModel, done: Seq<Link>, rest: Seq<Link>)
    requires
        mirrors(m, done),
        build(m, rest) is Some,
    ensures
        mirrors(build(m, rest)->Some_0, done + rest),
    decreases rest.len(),
{
    if rest.len() == 0 {
        assert(done + rest =~= done);
    } else {
        lemma_with_link(m, done, rest[0]);
        lemma_build(with_link(m, rest[0])->Some_0, done.push(rest[0]), rest.skip(1));
        assert(done.push(rest[0]) + rest.skip(1) =~= done + rest);
    }
}

/// The graph that is built from a list of dependencies has an edge for
/// each of them, between the nodes of their ids.
pub proof fn lemma_built(links: Seq<Link>)
    requires
        build(empty_graph(), links) is Some,
    ensures
        mirrors(build(empty_graph(), links)->Some_0, links),
{
    lemma_build(empty_graph(), Seq::empty(), links);
    assert(Seq::<Link>::empty() + links =~= links);
}

pub proof fn lemma_edge_link(m: GraphModel, links: Seq<Link>, from: int, to: int)
    requires
        mirrors(m, links),
        m.edges.contains((from, to)),
    ensures
        0 <= from < m.ids.len(),
        0 <= to < m.ids.len(),
        links.contains((m.ids[from], m.ids[to])),
{
    let k = choose|k: int| 0 <= k < m.edges.len() && m.edges[k] == (from, to);
    assert(joined(m, links, k));
    assert(links[k] == (m.ids[from], m.ids[to]));
}

pub proof fn lemma_link_edge(m: GraphModel, links: Seq<Link>, from: Seq<char>, to: Seq<char>)
    requires
        mirrors(m, links),
        links.contains((from, to)),
    ensures
        m.edges.contains((m.ids.index_of(from), m.ids.index_of(to))),
{
    let k = choose|k: int| 0 <= k < links.len() && links[k] == (from, to);
    assert(joined(m, links, k));
    let e = m.edges[k];
    lemma_index_of(m.ids, e.0);
    lemma_index_of(m.ids, e.1);
    assert(m.edges[k] == (m.ids.index_of(from), m.ids.index_of(to)));
}

proof fn lemma_cycle_of_ids(m: GraphModel, links: Seq<Link>, p: Seq<int>)
    requires
        mirrors(m, links),
        p.len() >= 2,
        p[0] == p.last(),
        is_walk(m.edges, p),
    ensures
        cyclic(links),
{
    let q = Seq::new(p.len(), |i: int| m.ids[p[i]]);
    assert forall|i: int| 0 <= i < q.len() - 1 implies links.contains((#[trigger] q[i], q[i + 1])) by {
        assert(m.edges.contains((p[i], p[i + 1])));
        lemma_edge_link(m, links, p[i], p[i + 1]);
    }
    assert(is_chain(links, q));
    assert(q[0] == q.last());
}

proof fn lemma_cycle_of_nodes(m: GraphModel, links: Seq<Link>, q: Seq<Seq<char>>)
    requires
        mirrors(m, links),
        q.len() >= 2,
        q[0] == q.last(),
        is_chain(links, q),
    ensures
        has_cycle(m.edges),
{
    let p = Seq::new(q.len(), |i: int| m.ids.index_of(q[i]));
    assert forall|i: int| 0 <= i < p.len() - 1 implies m.edges.contains((#[trigger] p[i], p[i + 1])) by {
        assert(links.contains((q[i], q[i + 1])));
        lemma_link_edge(m, links, q[i], q[i + 1]);
    }
    assert(is_walk(m.edges, p));
    assert(p[0] == p.last());
}

/// The graph of a list of dependencies has a cycle exactly if the
/// dependencies form one.
pub proof fn lemma_cycle(m: GraphModel, links: Seq<Link>)
    requires
        mirrors(m, links),
    ensures
        has_cycle(m.edges) <==> cyclic(links),
{
    if has_cycle(m.edges) {
        let p = choose|p: Seq<int>| p.len() >= 2 && p[0] == p.last() && #[trigger] is_walk(m.edges, p);
        lemma_cycle_of_ids(m, links, p);
    }
    if cyclic(links) {
        let q = choose|q: Seq<Seq<char>>|
            q.len() >= 2 && q[0] == q.last() && #[trigger] is_chain(links, q);
        lemma_cycle_of_nodes(m, links, q);
    }
}

proof fn lemma_chain_of_ids(m: GraphModel, links: Seq<Link>, p: Seq<int>)
    requires
        mirrors(m, links),
        p.len() >= 1,
        0 <= p[0] < m.ids.len(),
        0 <= p.last() < m.ids.len(),
        is_walk(m.edges, p),
    ensures
        connects(links, m.ids[p[0]], m.ids[p.last()]),
{
    let q = Seq::new(p.len(), |i: int| m.ids[p[i]]);
    assert forall|i: int| 0 <= i < q.len() - 1 implies links.contains((#[trigger] q[i], q[i + 1])) by {
        assert(m.edges.contains((p[i], p[i + 1])));
        lemma_edge_link(m, links, p[i], p[i + 1]);
    }
    assert(is_chain(links, q));
    assert(q[0] == m.ids[p[0]] && q.last() == m.ids[p.last()]);
}

proof fn lemma_walk_of_nodes(m: GraphModel, links: Seq<Link>, q: Seq<Seq<char>>)
    requires
        mirrors(m, links),
        q.len() >= 1,
        is_chain(links, q),
    ensures
        reachable(m.edges, m.ids.index_of(q[0]), m.ids.index_of(q.last())),
{
    let p = Seq::new(q.len(), |i: int| m.ids.index_of(q[i]));
    assert forall|i: int| 0 <= i < p.len() - 1 implies m.edges.contains((#[trigger] p[i], p[i + 1])) by {
        assert(links.contains((q[i], q[i + 1])));
        lemma_link_edge(m, links, q[i], q[i + 1]);
    }
    assert(is_walk(m.edges, p));
    assert(p[0] == m.ids.index_of(q[0]) && p.last() == m.ids.index_of(q.last()));
}

/// In the graph of a list of dependencies a path leads from the node of
/// one rule to the node of another exactly if a path of dependencies
/// leads from the one rule to the other.
pub proof fn lemma_reach(m: GraphModel, links: Seq<Link>, from: Seq<char>, node: int)
    requires
        mirrors(m, links),
        m.ids.contains(from),
        0 <= node < m.ids.len(),
    ensures
        reachable(m.edges, m.ids.index_of(from), node) <==> connects(links, from, m.ids[node]),
{
    let start = m.ids.index_of(from);
    assert(0 <= start < m.ids.len() && m.ids[start] == from);
    if reachable(m.edges, start, node) {
        let p = choose|p: Seq<int>|
            p.len() >= 1 && p[0] == start && p.last() == node && #[trigger] is_walk(m.edges, p);
        lemma_chain_of_ids(m, links, p);
    }
    if connects(links, from, m.ids[node]) {
        let q = choose|q: Seq<Seq<char>>|
            q.len() >= 1 && q[0] == from && q.last() == m.ids[node] && #[trigger] is_chain(links, q);
        lemma_walk_of_nodes(m, links, q);
        lemma_index_of(m.ids, node);
    }
}

pub proof fn lemma_index_of(ids: Seq<Seq<char>>, k: int)
    requires
        ids.no_duplicates(),
        0 <= k < ids.len(),
    ensures
        ids.index_of(ids[k]) == k,
{
    let j = ids.index_of(ids[k]);
    assert(ids.contains(ids[k]));
    assert(0 <= j < ids.len() && ids[j] == ids[k]);
}

/// Whether the reference at `j` of the rule at `k` makes `link`: the rule
/// has the id on the right, and the reference means the rule on the left.
pub open spec fn refers(rules: Seq<RuleView>, k: int, j: int, link: Link) -> bool {
    &&& 0 <= k < rules.len()
    &&& 0 <= j < references(rules[k]).len()
    &&& rules[k].id == link.1
    &&& resolve_ref(rules, references(rules[k])[j]) == Some(link.0)
}

/// Whether a reference of a rule from `from` on makes `link`.
pub open spec fn made(rules: Seq<RuleView>, from: int, link: Link) -> bool {
    exists|k: int, j: int| from <= k && #[trigger] refers(rules, k, j, link)
}

proof fn lemma_rule_links_shape(rules: Seq<RuleView>, id: Seq<char>, refs: Seq<Seq<char>>)
    requires
        rule_links(rules, id, refs) is Ok,
    ensures
        ({
            let links = rule_links(rules, id, refs)->Ok_0;
            &&& links.len() == refs.len()
            &&& forall|j: int|
                0 <= j < refs.len() ==> resolve_ref(rules, refs[j]) == Some((#[trigger] links[j]).0)
                    && links[j].1 == id
        }),
    decreases refs.len(),
{
    if refs.len() > 0 {
        lemma_rule_links_shape(rules, id, refs.skip(1));
        let rest = rule_links(rules, id, refs.skip(1))->Ok_0;
        let links = rule_links(rules, id, refs)->Ok_0;
        let head = (resolve_ref(rules, refs[0])->Some_0, id);
        assert(links == seq![head] + rest);
        assert forall|j: int| 0 <= j < refs.len() implies resolve_ref(rules, refs[j]) == Some(
            (#[trigger] links[j]).0,
        ) && links[j].1 == id by {
            if j > 0 {
                assert(links[j] == rest[j - 1]);
                assert(refs.skip(1)[j - 1] == refs[j]);
            }
        }
    }
}

/// The dependencies of the rules are those that their references make.
pub proof fn lemma_links(rules: Seq<RuleView>, from: int, link: Link)
    requires
        0 <= from,
        all_links(rules, from) is Ok,
    ensures
        all_links(rules, from)->Ok_0.contains(link) <==> made(rules, from, link),
    decreases rules.len() - from,
{
    let all = all_links(rules, from)->Ok_0;
    if from >= rules.len() {
        if made(rules, from, link) {
            let (k, j) = choose|k: int, j: int| from <= k && #[trigger] refers(rules, k, j, link);
        }
    } else {
        let refs = references(rules[from]);
        let own = rule_links(rules, rules[from].id, refs)->Ok_0;
        let rest = all_links(rules, from + 1)->Ok_0;
        assert(all == own + rest);
        lemma_rule_links_shape(rules, rules[from].id, refs);
        lemma_links(rules, from + 1, link);
        if all.contains(link) {
            let i = choose|i: int| 0 <= i < all.len() && all[i] == link;
            if i < own.len() {
                assert(own[i] == link);
                assert(refers(rules, from, i, link));
            } else {
                assert(rest[i - own.len()] == link);
                assert(rest.contains(link));
                let (k, j) = choose|k: int, j: int|
                    from + 1 <= k && #[trigger] refers(rules, k, j, link);
                assert(refers(rules, k, j, link));
            }
        }
        if made(rules, from, link) {
            let (k, j) = choose|k: int, j: int| from <= k && #[trigger] refers(rules, k, j, link);
            if k == from {
                assert(own[j] == link);
                assert(all[j] == link);
            } else {
                assert(refers(rules, k, j, link));
                assert(made(rules, from + 1, link));
                let i = choose|i: int| 0 <= i < rest.len() && rest[i] == link;
                assert(all[own.len() + i] == link);
            }
        }
    }
}

/// The graph of the dependencies between rules, with a topological order
/// of its nodes.
#[derive(Debug)]
pub struct DependencyGraph {
    pub graph: Graph<String, (), Directed, u32>,
    pub ids: Vec<String>,
    pub sorted: Vec<usize>,
}

impl DependencyGraph {
    /// The graph as ids and edges.
    pub open spec fn model(&self) -> GraphModel {
        GraphModel { ids: texts(self.ids@), edges: graph_edges(self.graph) }
    }

    /// Whether the parts of the graph fit together.
    pub open spec fn wf(&self) -> bool {
        &&& graph_nodes(self.graph) == texts(self.ids@)
        &&& sound(self.model())
    }

    /// Whether the order is a topological order of the graph.
    pub open spec fn ordered(&self) -> bool {
        topological(positions(self.sorted@), self.ids@.len() as int, graph_edges(self.graph))
    }

    /// A graph without nodes.
    pub fn new() -> (r: DependencyGraph)
        ensures
            r.wf(),
            r.model() == empty_graph(),
            r.sorted@.len() == 0,
    {
        let r = DependencyGraph { graph: new_graph(), ids: Vec::new(), sorted: Vec::new() };
        assert(texts(r.ids@) =~= Seq::empty());
        r
    }

    /// The index of the node of `id`, if there is one.
    #[verifier::loop_isolation(false)]
    pub fn find(&self, id: &str) -> (r: Option<usize>)
        requires
            self.wf(),
        ensures
            match r {
                Some(k) => self.model().ids.contains(id@) && k == self.model().ids.index_of(id@)
                    && k < self.ids.len(),
                None => !self.model().ids.contains(id@),
            },
    {
        let ghost ids = texts(self.ids@);
        let mut i: usize = 0;
        while i < self.ids.len()
            invariant
                i <= self.ids.len(),
                forall|j: int| 0 <= j < i ==> ids[j] != id@,
            decreases self.ids.len() - i,
        {
            if same_text(self.ids[i].as_str(), id) {
                assert(ids[i as int] == id@);
                let ghost k = ids.index_of(id@);
                assert(ids[k] == id@ && 0 <= k < ids.len());
                return Some(i);
            }
            i += 1;
        }
        None
    }

    /// The index of the node of `id`, which is added where it is missing;
    /// none where the graph is full.
    pub fn add_node(&mut self, id: &String) -> (r: Option<usize>)
        requires
            old(self).wf(),
        ensures
            final(self).wf(),
            match r {
                Some(k) => with_node(old(self).model(), id@) == Some((final(self).model(), k as int))
                    && k < final(self).ids.len(),
                None => with_node(old(self).model(), id@) is None && final(self).model() == old(self).model(),
            },
            final(self).sorted == old(self).sorted,
    {
        match self.find(id.as_str()) {
            Some(k) => Some(k),
            None => {
                if self.ids.len() >= GRAPH_LIMIT {
                    return None;
                }
                let ghost before = texts(self.ids@);
                let k = add_node(&mut self.graph, id);
                self.ids.push(id.clone());
                proof {
                    assert(texts(self.ids@) =~= before.push(id@));
                    assert forall|i: int, j: int|
                        0 <= i < before.len() + 1 && 0 <= j < before.len() + 1 && i != j implies before.push(
                        id@,
                    )[i] != before.push(id@)[j] by {
                        if i < before.len() && j < before.len() {
                        } else if i < before.len() {
                            assert(before[i] != id@);
                        } else {
                            assert(before[j] != id@);
                        }
                    }
                }
                Some(k)
            },
        }
    }

    /// Adds an edge from the node of `from` to the node of `to`, and the
    /// nodes where they are missing.
    pub fn add_edge(&mut self, from: &String, to: &String) -> (r: Result<(), CollectionError>)
        requires
            old(self).wf(),
        ensures
            final(self).wf(),
            match r {
                Ok(_) => with_link(old(self).model(), (from@, to@)) == Some(final(self).model()),
                Err(e) => e@ == Failure::TooLarge && with_link(old(self).model(), (from@, to@))
                    is None,
            },
    {
        let a = match self.add_node(from) {
            None => {
                return Err(CollectionError::TooLarge);
            },
            Some(a) => a,
        };
        let b = match self.add_node(to) {
            None => {
                return Err(CollectionError::TooLarge);
            },
            Some(b) => b,
        };
        let ghost edges = graph_edges(self.graph);
        if edge_count(&self.graph) >= GRAPH_LIMIT {
            return Err(CollectionError::TooLarge);
        }
        add_edge(&mut self.graph, a, b);
        proof {
            assert forall|k: int| 0 <= k < edges.len() + 1 implies 0 <= (#[trigger] edges.push(
                (a as int, b as int),
            )[k]).0 < self.ids.len() && 0 <= edges.push((a as int, b as int))[k].1
                < self.ids.len() by {
                if k < edges.len() {
                    assert(edges.push((a as int, b as int))[k] == edges[k]);
                }
            }
        }
        Ok(())
    }

    /// Puts the nodes in topological order; fails on a cycle.
    pub fn sort(&mut self) -> (r: Result<(), CollectionError>)
        requires
            old(self).wf(),
        ensures
            final(self).wf(),
            final(self).model() == old(self).model(),
            match r {
                Ok(_) => !has_cycle(final(self).model().edges) && final(self).ordered(),
                Err(e) => e@ == Failure::DependencyCycle && has_cycle(final(self).model().edges)
                    && final(self).sorted == old(self).sorted,
            },
    {
        match toposort(&self.graph) {
            None => Err(CollectionError::DependencyCycle),
            Some(order) => {
                self.sorted = order;
                Ok(())
            },
        }
    }
}

/// The contents of a list of dependencies.
pub open spec fn link_views(links: Seq<(String, String)>) -> Seq<Link> {
    links.map_values(|l: (String, String)| (l.0@, l.1@))
}

/// Whether the collection holds a rule with this id.
#[verifier::loop_isolation(false)]
pub(crate) fn holds_id(rules: &Vec<SigmaRule>, id: &str) -> (r: bool)
    ensures
        r == has_id(rule_views(rules@), id@),
{
    let mut i: usize = 0;
    while i < rules.len()
        invariant
            i <= rules.len(),
            forall|j: int| 0 <= j < i ==> rule_views(rules@)[j].id != id@,
        decreases rules.len() - i,
    {
        if same_text(rules[i].id.as_str(), id) {
            assert(rule_views(rules@)[i as int].id == id@);
            return true;
        }
        i += 1;
    }
    false
}

/// The id of the rule that a reference means.
#[verifier::loop_isolation(false)]
fn resolve(rules: &Vec<SigmaRule>, reference: &String) -> (r: Option<String>)
    ensures
        match r {
            Some(id) => resolve_ref(rule_views(rules@), reference@) == Some(id@),
            None => resolve_ref(rule_views(rules@), reference@) is None,
        },
{
    if holds_id(rules, reference.as_str()) {
        return Some(reference.clone());
    }
    let ghost all = rule_views(rules@);
    let mut i: usize = rules.len();
    assert(all.take(i as int) == all);
    while i > 0
        invariant
            i <= rules.len(),
            named_id(all, reference@) == named_id(all.take(i as int), reference@),
        decreases i,
    {
        i -= 1;
        proof {
            assert(all.take(i + 1).drop_last() == all.take(i as int));
            assert(all.take(i + 1).last() == rules[i as int]@);
        }
        match &rules[i].name {
            Some(name) => {
                if same_text(name.as_str(), reference.as_str()) {
                    return Some(rules[i].id.clone());
                }
            },
            None => {},
        }
    }
    None
}

/// The references of a rule.
fn references_of(rule: &SigmaRule) -> (r: Option<&Vec<String>>)
    ensures
        match r {
            Some(refs) => texts(refs@) == references(rule@),
            None => references(rule@) == Seq::<Seq<char>>::empty(),
        },
{
    match &rule.rule {
        RuleType::Correlation(c) => Some(&c.inner.rules),
        RuleType::Detection(_) => None,
    }
}

/// Whether an executable result is the given mathematical one.
pub open spec fn links_agree(r: Result<Vec<(String, String)>, CollectionError>, m: Result<
    Seq<Link>,
    Link,
>) -> bool {
    match r {
        Ok(links) => m == Ok::<Seq<Link>, Link>(link_views(links@)),
        Err(e) => m matches Err(pair) && e@ == Failure::DependencyMissing(pair.0, pair.1),
    }
}

/// The dependencies of all rules, or the first reference that means none.
#[verifier::loop_isolation(false)]
fn collect_links(rules: &Vec<SigmaRule>) -> (r: Result<Vec<(String, String)>, CollectionError>)
    ensures
        links_agree(r, all_links(rule_views(rules@), 0)),
{
    let ghost all = rule_views(rules@);
    let mut out: Vec<(String, String)> = Vec::new();
    let mut i: usize = 0;
    proof {
        assert(link_views(out@) =~= Seq::empty());
        lemma_attach::<Link, Link>(Seq::empty(), Seq::empty(), all_links(all, 0));
    }
    while i < rules.len()
        invariant
            i <= rules.len(),
            all_links(all, 0) == attach(link_views(out@), all_links(all, i as int)),
        decreases rules.len() - i,
    {
        let ghost id = all[i as int].id;
        let ghost refs = references(all[i as int]);
        let ghost start = link_views(out@);
        assert(all[i as int] == rules[i as int]@);
        match references_of(&rules[i]) {
            None => {
                proof {
                    lemma_attach::<Link, Link>(start, Seq::empty(), all_links(all, i + 1));
                    assert(start + Seq::<Link>::empty() =~= start);
                }
            },
            Some(names) => {
                let mut j: usize = 0;
                let ghost mut done: Seq<Link> = Seq::empty();
                proof {
                    assert(refs.skip(0) == refs);
                    lemma_attach::<Link, Link>(Seq::empty(), Seq::empty(), rule_links(all, id, refs));
                    assert(start + done =~= start);
                }
                while j < names.len()
                    invariant
                        j <= names.len(),
                        texts(names@) == refs,
                        rule_links(all, id, refs) == attach(
                            done,
                            rule_links(all, id, refs.skip(j as int)),
                        ),
                        link_views(out@) == start + done,
                    decreases names.len() - j,
                {
                    proof {
                        let rest = refs.skip(j as int);
                        assert(rest[0] == names[j as int]@);
                        assert(rest.skip(1) == refs.skip(j + 1));
                    }
                    match resolve(rules, &names[j]) {
                        None => {
                            return Err(
                                CollectionError::DependencyMissing(
                                    rules[i].id.clone(),
                                    names[j].clone(),
                                ),
                            );
                        },
                        Some(dep) => {
                            let link = (dep, rules[i].id.clone());
                            proof {
                                lemma_attach::<Link, Link>(
                                    done,
                                    seq![(link.0@, link.1@)],
                                    rule_links(all, id, refs.skip(j + 1)),
                                );
                                assert(link_views(out@.push(link)) =~= link_views(out@).push(
                                    (link.0@, link.1@),
                                ));
                                assert(start + (done + seq![(link.0@, link.1@)]) =~= (start
                                    + done).push((link.0@, link.1@)));
                                done = done + seq![(link.0@, link.1@)];
                            }
                            out.push(link);
                        },
                    }
                    j += 1;
                }
                proof {
                    lemma_attach::<Link, Link>(done, Seq::empty(), Ok(Seq::empty()));
                    lemma_attach::<Link, Link>(start, done, all_links(all, i + 1));
                }
            },
        }
        i += 1;
    }
    proof {
        lemma_attach::<Link, Link>(link_views(out@), Seq::empty(), Ok(Seq::empty()));
    }
    Ok(out)
}

/// Whether an executable result is the given mathematical one.
pub open spec fn graph_agrees(r: Result<DependencyGraph, CollectionError>, m: Result<
    GraphModel,
    Failure,
>) -> bool {
    match r {
        Ok(g) => g.wf() && g.ordered() && m == Ok::<GraphModel, Failure>(g.model()),
        Err(e) => m == Err::<GraphModel, Failure>(e@),
    }
}

/// Builds the graph of the dependencies of a set of rules and puts it in
/// topological order.
#[verifier::loop_isolation(false)]
pub(crate) fn solve(rules: &Vec<SigmaRule>) -> (r: Result<DependencyGraph, CollectionError>)
    ensures
        graph_agrees(r, solved(rule_views(rules@))),
{
    let links = match collect_links(rules) {
        Err(e) => {
            return Err(e);
        },
        Ok(links) => links,
    };
    let ghost all = link_views(links@);
    let mut graph = DependencyGraph::new();
    let mut i: usize = 0;
    assert(all.skip(0) == all);
    while i < links.len()
        invariant
            i <= links.len(),
            graph.wf(),
            build(empty_graph(), all) == build(graph.model(), all.skip(i as int)),
        decreases links.len() - i,
    {
        proof {
            let rest = all.skip(i as int);
            assert(rest[0] == (links[i as int].0@, links[i as int].1@));
            assert(rest.skip(1) == all.skip(i + 1));
        }
        match graph.add_edge(&links[i].0, &links[i].1) {
            Err(e) => {
                return Err(e);
            },
            Ok(_) => {},
        }
        i += 1;
    }
    proof {
        lemma_built(all);
        lemma_cycle(graph.model(), all);
    }
    match graph.sort() {
        Err(e) => Err(e),
        Ok(_) => Ok(graph),
    }
}

/// The rule that a name goes by is a rule of the collection.
pub proof fn lemma_named_id(rules: Seq<RuleView>, name: Seq<char>)
    ensures
        named_id(rules, name) matches Some(id) ==> has_id(rules, id),
    decreases rules.len(),
{
    if rules.len() > 0 {
        if rules.last().name == Some(name) {
            assert(rules[rules.len() - 1].id == rules.last().id);
        } else {
            lemma_named_id(rules.drop_last(), name);
            if named_id(rules.drop_last(), name) is Some {
                let id = named_id(rules.drop_last(), name)->Some_0;
                let k = choose|k: int|
                    0 <= k < rules.drop_last().len() && (#[trigger] rules.drop_last()[k]).id == id;
                assert(rules[k].id == id);
            }
        }
    }
}

/// Where the dependencies of a rule can be listed, each of its references
/// means a rule.
pub proof fn lemma_rule_links(rules: Seq<RuleView>, id: Seq<char>, refs: Seq<Seq<char>>, j: int)
    requires
        rule_links(rules, id, refs) is Ok,
        0 <= j < refs.len(),
    ensures
        resolve_ref(rules, refs[j]) is Some,
    decreases refs.len(),
{
    if j > 0 {
        lemma_rule_links(rules, id, refs.skip(1), j - 1);
        assert(refs.skip(1)[j - 1] == refs[j]);
    }
}

/// Where the dependencies of the rules from `from` on can be listed, those
/// of each of them can.
pub proof fn lemma_all_links(rules: Seq<RuleView>, from: int, k: int)
    requires
        all_links(rules, from) is Ok,
        0 <= from <= k < rules.len(),
    ensures
        rule_links(rules, rules[k].id, references(rules[k])) is Ok,
    decreases rules.len() - from,
{
    if from < k {
        lemma_all_links(rules, from + 1, k);
    }
}

/// A graph without edges has no cycle.
pub proof fn lemma_no_edges_no_cycle()
    ensures
        !has_cycle(Seq::<(int, int)>::empty()),
{
    let edges = Seq::<(int, int)>::empty();
    if has_cycle(edges) {
        let path = choose|path: Seq<int>|
            path.len() >= 2 && path[0] == path.last() && #[trigger] is_walk(edges, path);
        assert(edges.contains((path[0int], path[0int + 1])));
    }
}

} // verus!
