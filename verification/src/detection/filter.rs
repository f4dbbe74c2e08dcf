//! The index that routes an event to the detection rules of its log
//! source.
use vstd::prelude::*;
use crate::event::{LogSource, LogSourceView};
use crate::rule::{RuleType, SigmaRule, BodyView};
use crate::text::{same_text, texts};

verus! {

/// The index of detection rules by log source: what was entered, in order,
/// each entry an id with the three axes under which the id is listed.
#[derive(Debug)]
pub struct Filter {
    pub entries: Vec<(String, LogSource)>,
}

/// The contents of the entries of a filter.
pub open spec fn entry_views(entries: Seq<(String, LogSource)>) -> Seq<(Seq<char>, LogSourceView)> {
    entries.map_values(|e: (String, LogSource)| (e.0@, e.1@))
}

impl View for Filter {
    type V = Seq<(Seq<char>, LogSourceView)>;

    open spec fn view(&self) -> Seq<(Seq<char>, LogSourceView)> {
        entry_views(self.entries@)
    }
}

/// Whether a rule is a candidate on one axis: the event leaves the axis
/// open, or the rule does, or both name the same value.
pub open spec fn axis_admits(rule: Option<Seq<char>>, target: Option<Seq<char>>) -> bool {
    target is None || rule is None || rule == target
}

/// Whether the log source of a rule admits an event of log source
/// `target`: it does on each of the three axes.
pub open spec fn admits(rule: LogSourceView, target: LogSourceView) -> bool {
    &&& axis_admits(rule.category, target.category)
    &&& axis_admits(rule.product, target.product)
    &&& axis_admits(rule.service, target.service)
}

/// One of the three axes of a log source: the category, the product, or
/// the service.
pub open spec fn axis(source: LogSourceView, which: int) -> Option<Seq<char>> {
    if which == 0 {
        source.category
    } else if which == 1 {
        source.product
    } else {
        source.service
    }
}

/// Whether the index lists an id for an event on one axis: whether an entry
/// of this id admits the target on that axis.
pub open spec fn listed(
    entries: Seq<(Seq<char>, LogSourceView)>,
    id: Seq<char>,
    which: int,
    target: Option<Seq<char>>,
) -> bool {
    exists|i: int|
        0 <= i < entries.len() && (#[trigger] entries[i]).0 == id && axis_admits(
            axis(entries[i].1, which),
            target,
        )
}

/// Whether the index admits an id for an event: whether it lists the id on
/// each of the three axes.
pub open spec fn admits_id(
    entries: Seq<(Seq<char>, LogSourceView)>,
    id: Seq<char>,
    target: LogSourceView,
) -> bool {
    &&& listed(entries, id, 0, target.category)
    &&& listed(entries, id, 1, target.product)
    &&& listed(entries, id, 2, target.service)
}

/// Whether the id of an entry is that of an entry before it.
pub open spec fn seen_before(entries: Seq<(Seq<char>, LogSourceView)>, k: int) -> bool {
    exists|j: int| 0 <= j < k && j < entries.len() && (#[trigger] entries[j]).0 == entries[k].0
}

/// The ids among the first `n` entries that the index admits, each once,
/// in the order in which they were first entered.
pub open spec fn admitted_upto(
    entries: Seq<(Seq<char>, LogSourceView)>,
    n: int,
    target: LogSourceView,
) -> Seq<Seq<char>>
    decreases n,
{
    if n <= 0 {
        Seq::empty()
    } else {
        let before = admitted_upto(entries, n - 1, target);
        if !seen_before(entries, n - 1) && admits_id(entries, entries[n - 1].0, target) {
            before.push(entries[n - 1].0)
        } else {
            before
        }
    }
}

/// The ids that the index admits for an event of log source `target`:
/// those that it lists on every axis, each once, in the order in which they
/// were first entered.
pub open spec fn admitted(entries: Seq<(Seq<char>, LogSourceView)>, target: LogSourceView) -> Seq<
    Seq<char>,
> {
    admitted_upto(entries, entries.len() as int, target)
}

proof fn lemma_upto_sound(
    entries: Seq<(Seq<char>, LogSourceView)>,
    n: int,
    target: LogSourceView,
    id: Seq<char>,
)
    requires
        0 <= n <= entries.len(),
        admitted_upto(entries, n, target).contains(id),
    ensures
        admits_id(entries, id, target),
    decreases n,
{
    if n > 0 {
        let before = admitted_upto(entries, n - 1, target);
        let now = admitted_upto(entries, n, target);
        let k = choose|k: int| 0 <= k < now.len() && now[k] == id;
        if k < before.len() {
            assert(before[k] == id);
            lemma_upto_sound(entries, n - 1, target, id);
        }
    }
}

proof fn lemma_upto_grows(
    entries: Seq<(Seq<char>, LogSourceView)>,
    n: int,
    m: int,
    target: LogSourceView,
    id: Seq<char>,
)
    requires
        0 <= n <= m <= entries.len(),
        admitted_upto(entries, n, target).contains(id),
    ensures
        admitted_upto(entries, m, target).contains(id),
    decreases m - n,
{
    if n < m {
        lemma_upto_grows(entries, n, m - 1, target, id);
        let before = admitted_upto(entries, m - 1, target);
        let k = choose|k: int| 0 <= k < before.len() && before[k] == id;
        assert(admitted_upto(entries, m, target)[k] == id);
    }
}

proof fn lemma_first_entry(entries: Seq<(Seq<char>, LogSourceView)>, i: int) -> (f: int)
    requires
        0 <= i < entries.len(),
    ensures
        0 <= f <= i,
        entries[f].0 == entries[i].0,
        !seen_before(entries, f),
    decreases i,
{
    if seen_before(entries, i) {
        let j = choose|j: int|
            0 <= j < i && j < entries.len() && (#[trigger] entries[j]).0 == entries[i].0;
        lemma_first_entry(entries, j)
    } else {
        i
    }
}

/// An id is among the admitted ones exactly if the index lists it on every
/// axis.
pub proof fn lemma_admitted(
    entries: Seq<(Seq<char>, LogSourceView)>,
    target: LogSourceView,
    id: Seq<char>,
)
    ensures
        admitted(entries, target).contains(id) <==> admits_id(entries, id, target),
{
    let n = entries.len() as int;
    if admitted(entries, target).contains(id) {
        lemma_upto_sound(entries, n, target, id);
    }
    if admits_id(entries, id, target) {
        let i = choose|i: int|
            0 <= i < entries.len() && (#[trigger] entries[i]).0 == id && axis_admits(
                axis(entries[i].1, 0),
                target.category,
            );
        let f = lemma_first_entry(entries, i);
        assert(admitted_upto(entries, f + 1, target).last() == id);
        lemma_upto_grows(entries, f + 1, n, target, id);
    }
}

/// Whether two optional texts admit each other on an axis.
pub fn axis_match(rule: &Option<String>, target: &Option<String>) -> (r: bool)
    ensures
        r == axis_admits(
            crate::event::optional_text(*rule),
            crate::event::optional_text(*target),
        ),
{
    match (rule, target) {
        (_, None) => true,
        (None, _) => true,
        (Some(a), Some(b)) => same_text(a.as_str(), b.as_str()),
    }
}

impl Filter {
    /// A filter without rules.
    pub fn new() -> (r: Filter)
        ensures
            r@ == Seq::<(Seq<char>, LogSourceView)>::empty(),
    {
        let r = Filter { entries: Vec::new() };
        assert(r@ =~= Seq::empty());
        r
    }

    /// Enters a rule under its log source; a rule that is no detection is
    /// passed over.
    pub fn add(&mut self, rule: &SigmaRule)
        ensures
            final(self)@ == match rule@.body {
                BodyView::Detection(logsource, _) => old(self)@.push((rule@.id, logsource)),
                BodyView::Correlation(_) => old(self)@,
            },
    {
        match &rule.rule {
            RuleType::Detection(detection) => {
                let entry = (rule.id.clone(), detection.logsource.axes());
                assert(entry_views(self.entries@.push(entry)) =~= entry_views(self.entries@).push(
                    (entry.0@, entry.1@),
                ));
                self.entries.push(entry);
            },
            RuleType::Correlation(_) => {},
        }
    }

    /// Whether the index lists an id for an event on one axis.
    #[verifier::loop_isolation(false)]
    fn is_listed(&self, id: &str, which: u8, target: &Option<String>) -> (r: bool)
        requires
            which < 3,
        ensures
            r == listed(self@, id@, which as int, crate::event::optional_text(*target)),
    {
        let ghost all = self@;
        let ghost goal = crate::event::optional_text(*target);
        let mut i: usize = 0;
        while i < self.entries.len()
            invariant
                i <= self.entries.len(),
                forall|j: int|
                    0 <= j < i ==> !((#[trigger] all[j]).0 == id@ && axis_admits(
                        axis(all[j].1, which as int),
                        goal,
                    )),
            decreases self.entries.len() - i,
        {
            assert(all[i as int] == (self.entries[i as int].0@, self.entries[i as int].1@));
            let source = &self.entries[i].1;
            let of_rule = if which == 0 {
                &source.category
            } else if which == 1 {
                &source.product
            } else {
                &source.service
            };
            if same_text(self.entries[i].0.as_str(), id) && axis_match(of_rule, target) {
                return true;
            }
            i += 1;
        }
        false
    }

    /// Whether the id of the entry at `k` is that of an entry before it.
    #[verifier::loop_isolation(false)]
    fn is_seen(&self, k: usize) -> (r: bool)
        requires
            k < self.entries.len(),
        ensures
            r == seen_before(self@, k as int),
    {
        let ghost all = self@;
        let mut j: usize = 0;
        while j < k
            invariant
                j <= k,
                forall|i: int| 0 <= i < j ==> (#[trigger] all[i]).0 != all[k as int].0,
            decreases k - j,
        {
            assert(all[j as int] == (self.entries[j as int].0@, self.entries[j as int].1@));
            assert(all[k as int] == (self.entries[k as int].0@, self.entries[k as int].1@));
            if same_text(self.entries[j].0.as_str(), self.entries[k].0.as_str()) {
                return true;
            }
            j += 1;
        }
        false
    }

    /// The ids of the rules that the index admits for an event of log
    /// source `target`, each once, in the order in which the rules were
    /// added. On each axis the target admits the ids entered under the same
    /// value or under none, and every id where the target names no value.
    #[verifier::loop_isolation(false)]
    pub fn filter(&self, target: &LogSource) -> (r: Vec<String>)
        ensures
            texts(r@) == admitted(self@, target@),
    {
        let ghost all = self@;
        let mut out: Vec<String> = Vec::new();
        let mut i: usize = 0;
        assert(texts(out@) =~= Seq::empty());
        while i < self.entries.len()
            invariant
                i <= self.entries.len(),
                texts(out@) == admitted_upto(all, i as int, target@),
            decreases self.entries.len() - i,
        {
            assert(all[i as int] == (self.entries[i as int].0@, self.entries[i as int].1@));
            let name = self.entries[i].0.as_str();
            if !self.is_seen(i) && self.is_listed(name, 0, &target.category) && self.is_listed(
                name,
                1,
                &target.product,
            ) && self.is_listed(name, 2, &target.service) {
                let id = self.entries[i].0.clone();
                assert(texts(out@.push(id)) =~= texts(out@).push(id@));
                out.push(id);
            }
            i += 1;
        }
        out
    }
}

} // verus!
