//! The state behind correlation rules: counts of what was seen of late,
//! by rule, by group and by what tells the items of a group apart.
//!
//! The state is the list of the increments that have not yet expired, in
//! the order in which they were made. Every count is read off that list, so
//! a bucket is gone as soon as its last increment has expired.
use vstd::prelude::*;
use vstd::multiset::Multiset;
use crate::text::same_text;
use crate::value::{Value, ValueView};

verus! {

/// The fields that an event is grouped by, with their values. The order of
/// the fields does not tell groups apart.
pub type GroupBy = Vec<(String, Value)>;

/// What tells apart the things that are counted within a group: the value
/// of a field, or a rule that matched.
#[derive(Debug)]
pub enum Discriminator {
    Field(String, Value),
    Rule(String),
}

/// The key of a counter.
#[derive(Debug)]
pub enum Key {
    /// Counts the events of a group.
    EventCount(GroupBy),
    /// Counts the distinct discriminators of a group.
    ValueCount(GroupBy, Discriminator),
}

/// The mathematical content of a group.
pub type GroupView = Multiset<(Seq<char>, ValueView)>;

/// The fields of a group with their values, in the order in which they are
/// held.
pub type Pairs = Seq<(Seq<char>, ValueView)>;

/// The mathematical content of a [`Discriminator`].
pub enum DiscriminatorView {
    Field(Seq<char>, ValueView),
    Rule(Seq<char>),
}

/// The mathematical content of a [`Key`].
pub enum KeyView {
    EventCount(GroupView),
    ValueCount(GroupView, DiscriminatorView),
}

/// The fields of a group with their values, in the order in which they are
/// held.
pub open spec fn pairs(group: Seq<(String, Value)>) -> Pairs {
    group.map_values(|e: (String, Value)| (e.0@, e.1@))
}

/// The content of a group: its fields with their values, whatever their
/// order. Two groups that hold the same pairs are the same group.
pub open spec fn group_view(group: Seq<(String, Value)>) -> GroupView {
    pairs(group).to_multiset()
}

impl View for Discriminator {
    type V = DiscriminatorView;

    open spec fn view(&self) -> DiscriminatorView {
        match self {
            Discriminator::Field(name, value) => DiscriminatorView::Field(name@, value@),
            Discriminator::Rule(rule) => DiscriminatorView::Rule(rule@),
        }
    }
}

impl View for Key {
    type V = KeyView;

    open spec fn view(&self) -> KeyView {
        match self {
            Key::EventCount(group) => KeyView::EventCount(group_view(group@)),
            Key::ValueCount(group, d) => KeyView::ValueCount(group_view(group@), d@),
        }
    }
}

impl KeyView {
    /// The group of the key.
    pub open spec fn group(self) -> GroupView {
        match self {
            KeyView::EventCount(g) => g,
            KeyView::ValueCount(g, _) => g,
        }
    }

    /// The discriminator of the key, where it has one.
    pub open spec fn discriminator(self) -> Option<DiscriminatorView> {
        match self {
            KeyView::EventCount(_) => None,
            KeyView::ValueCount(_, d) => Some(d),
        }
    }
}

/// Why a state could not be had.
#[derive(Debug, Clone, Copy, PartialEq, Eq, Structural)]
pub enum BackendError {
    /// The rule has a state already, or has none yet.
    StateError,
}

/// An increment that has not expired.
#[derive(Debug)]
pub struct Pending {
    pub rule: String,
    pub group: GroupBy,
    pub discriminator: Option<Discriminator>,
    pub deadline: u64,
}

/// The mathematical content of a [`Pending`].
pub struct PendingView {
    pub rule: Seq<char>,
    pub group: GroupView,
    pub discriminator: Option<DiscriminatorView>,
    pub deadline: u64,
}

impl View for Pending {
    type V = PendingView;

    open spec fn view(&self) -> PendingView {
        PendingView {
            rule: self.rule@,
            group: group_view(self.group@),
            discriminator: match self.discriminator {
                Some(d) => Some(d@),
                None => None,
            },
            deadline: self.deadline,
        }
    }
}

/// The contents of a list of increments.
pub open spec fn pending_views(items: Seq<Pending>) -> Seq<PendingView> {
    items.map_values(|p: Pending| p@)
}

/// The in-memory state of all correlation rules: a clock and the
/// increments that have not expired, oldest first.
#[derive(Debug)]
pub struct MemBackendImpl {
    pub now: u64,
    pub pending: Vec<Pending>,
}

/// The mathematical content of a [`MemBackendImpl`].
pub struct StateView {
    pub now: u64,
    pub pending: Seq<PendingView>,
}

impl View for MemBackendImpl {
    type V = StateView;

    open spec fn view(&self) -> StateView {
        StateView { now: self.now, pending: pending_views(self.pending@) }
    }
}

/// Whether an increment belongs to a group of a rule.
pub open spec fn in_group(p: PendingView, rule: Seq<char>, group: GroupView) -> bool {
    p.rule == rule && p.group == group
}

/// Whether an increment belongs to a bucket: a group of a rule and a
/// discriminator.
pub open spec fn in_bucket(
    p: PendingView,
    rule: Seq<char>,
    group: GroupView,
    d: Option<DiscriminatorView>,
) -> bool {
    in_group(p, rule, group) && p.discriminator == d
}

/// The number of increments in a bucket.
pub open spec fn bucket_count(
    pending: Seq<PendingView>,
    rule: Seq<char>,
    group: GroupView,
    d: Option<DiscriminatorView>,
) -> nat
    decreases pending.len(),
{
    if pending.len() == 0 {
        0
    } else {
        bucket_count(pending.drop_last(), rule, group, d) + if in_bucket(
            pending.last(),
            rule,
            group,
            d,
        ) {
            1nat
        } else {
            0nat
        }
    }
}

/// The number of distinct discriminators among the increments of a group.
pub open spec fn distinct_count(pending: Seq<PendingView>, rule: Seq<char>, group: GroupView) -> nat
    decreases pending.len(),
{
    if pending.len() == 0 {
        0
    } else {
        distinct_count(pending.drop_last(), rule, group) + if in_group(pending.last(), rule, group)
            && bucket_count(pending.drop_last(), rule, group, pending.last().discriminator) == 0 {
            1nat
        } else {
            0nat
        }
    }
}

/// What an increment of a key observes once it is made: the number of
/// increments of the group for an event count, the number of distinct
/// discriminators of the group for a value count.
pub open spec fn observed(pending: Seq<PendingView>, rule: Seq<char>, key: KeyView) -> nat {
    match key {
        KeyView::EventCount(g) => bucket_count(pending, rule, g, None),
        KeyView::ValueCount(g, _) => distinct_count(pending, rule, g),
    }
}

/// What reading a key gives: the number of increments in its bucket.
pub open spec fn counted(pending: Seq<PendingView>, rule: Seq<char>, key: KeyView) -> nat {
    bucket_count(pending, rule, key.group(), key.discriminator())
}

/// The time at which an increment made now expires.
pub open spec fn deadline_at(now: u64, timeout: u64) -> u64 {
    if now + timeout > u64::MAX {
        u64::MAX
    } else {
        (now + timeout) as u64
    }
}

/// The state after an increment of `key` for `rule`.
pub open spec fn after_incr(s: StateView, rule: Seq<char>, timeout: u64, key: KeyView) -> StateView {
    StateView {
        now: s.now,
        pending: s.pending.push(
            PendingView {
                rule,
                group: key.group(),
                discriminator: key.discriminator(),
                deadline: deadline_at(s.now, timeout),
            },
        ),
    }
}

/// The increments that have not expired at `now`, in their order.
pub open spec fn live(pending: Seq<PendingView>, now: u64) -> Seq<PendingView>
    decreases pending.len(),
{
    if pending.len() == 0 {
        Seq::empty()
    } else if pending.last().deadline > now {
        live(pending.drop_last(), now).push(pending.last())
    } else {
        live(pending.drop_last(), now)
    }
}

/// The state once the clock has reached `now`: every increment whose
/// deadline has come is gone. The clock never runs backwards.
pub open spec fn after_advance(s: StateView, now: u64) -> StateView {
    StateView {
        now: if now > s.now {
            now
        } else {
            s.now
        },
        pending: live(s.pending, now),
    }
}

/// Two lists of equal length hold the same items, whatever their order,
/// where each item of the first occurs as often in the second as in the
/// first.
pub proof fn lemma_same_counts<T>(a: Seq<T>, b: Seq<T>)
    requires
        a.len() == b.len(),
        forall|i: int|
            0 <= i < a.len() ==> a.to_multiset().count(#[trigger] a[i]) == b.to_multiset().count(a[i]),
    ensures
        a.to_multiset() == b.to_multiset(),
{
    broadcast use vstd::multiset::group_multiset_axioms;

    let ma = a.to_multiset();
    let mb = b.to_multiset();
    a.to_multiset_ensures();
    b.to_multiset_ensures();
    assert forall|v: T| ma.count(v) <= mb.count(v) by {
        if ma.count(v) > 0 {
            assert(a.contains(v));
            let i = choose|i: int| 0 <= i < a.len() && a[i] == v;
            assert(ma.count(a[i]) == mb.count(a[i]));
        }
    }
    assert(ma.subset_of(mb));
    let rest = mb.sub(ma);
    assert(rest.len() == 0);
    vstd::multiset::lemma_multiset_empty_len(rest);
    assert forall|v: T| ma.count(v) == mb.count(v) by {
        assert(rest.count(v) == 0);
    }
    assert(ma =~= mb);
}

/// How often a pair occurs in a group.
#[verifier::loop_isolation(false)]
pub fn occurrences(group: &GroupBy, name: &str, value: &Value) -> (r: usize)
    ensures
        r == group_view(group@).count((name@, value@)),
{
    broadcast use vstd::multiset::group_multiset_axioms;

    let ghost all = pairs(group@);
    let ghost pair = (name@, value@);
    let mut n: usize = 0;
    let mut i: usize = 0;
    assert(all.take(0) =~= Seq::empty());
    assert(all.take(0).to_multiset().count(pair) == 0) by {
        all.take(0).to_multiset_ensures();
        assert(!all.take(0).contains(pair));
    }
    while i < group.len()
        invariant
            i <= group.len(),
            n <= i,
            n == all.take(i as int).to_multiset().count(pair),
        decreases group.len() - i,
    {
        proof {
            let front = all.take(i as int);
            front.to_multiset_ensures();
            assert(all.take(i + 1) =~= front.push(all[i as int]));
            assert(all.take(i + 1).to_multiset() =~= front.to_multiset().insert(all[i as int]));
            assert(all[i as int] == (group[i as int].0@, group[i as int].1@));
        }
        if same_text(group[i].0.as_str(), name) && group[i].1.same(value) {
            n += 1;
        }
        i += 1;
    }
    assert(all.take(group.len() as int) == all);
    n
}

/// Whether two groups hold the same fields with the same values, whatever
/// their order.
#[verifier::loop_isolation(false)]
pub fn same_group(a: &GroupBy, b: &GroupBy) -> (r: bool)
    ensures
        r == (group_view(a@) == group_view(b@)),
{
    let ghost pa = pairs(a@);
    let ghost pb = pairs(b@);
    proof {
        pa.to_multiset_ensures();
        pb.to_multiset_ensures();
    }
    if a.len() != b.len() {
        assert(pa.to_multiset().len() != pb.to_multiset().len());
        return false;
    }
    let mut i: usize = 0;
    while i < a.len()
        invariant
            i <= a.len(),
            forall|j: int|
                0 <= j < i ==> pa.to_multiset().count(#[trigger] pa[j]) == pb.to_multiset().count(
                    pa[j],
                ),
        decreases a.len() - i,
    {
        assert(pa[i as int] == (a[i as int].0@, a[i as int].1@));
        let name = a[i].0.as_str();
        if occurrences(a, name, &a[i].1) != occurrences(b, name, &a[i].1) {
            return false;
        }
        i += 1;
    }
    proof {
        lemma_same_counts(pa, pb);
    }
    true
}

/// A copy of a group.
#[verifier::loop_isolation(false)]
pub fn copy_group(group: &GroupBy) -> (r: GroupBy)
    ensures
        pairs(r@) == pairs(group@),
        group_view(r@) == group_view(group@),
{
    let mut out: GroupBy = Vec::new();
    let mut i: usize = 0;
    while i < group.len()
        invariant
            i <= group.len(),
            out.len() == i,
            forall|j: int| 0 <= j < i ==> pairs(out@)[j] == pairs(group@)[j],
        decreases group.len() - i,
    {
        out.push((group[i].0.clone(), group[i].1.duplicate()));
        i += 1;
    }
    assert(pairs(out@) =~= pairs(group@));
    out
}

/// The content of an optional discriminator.
pub open spec fn optional_view(d: Option<Discriminator>) -> Option<DiscriminatorView> {
    match d {
        Some(x) => Some(x@),
        None => None,
    }
}

impl Discriminator {
    /// Whether two discriminators are the same.
    pub fn same(&self, other: &Discriminator) -> (r: bool)
        ensures
            r == (self@ == other@),
    {
        match (self, other) {
            (Discriminator::Field(a, x), Discriminator::Field(b, y)) => same_text(
                a.as_str(),
                b.as_str(),
            ) && x.same(y),
            (Discriminator::Rule(a), Discriminator::Rule(b)) => same_text(a.as_str(), b.as_str()),
            _ => false,
        }
    }

    /// A copy of the discriminator.
    pub fn duplicate(&self) -> (r: Discriminator)
        ensures
            r@ == self@,
    {
        match self {
            Discriminator::Field(name, value) => Discriminator::Field(name.clone(), value.duplicate()),
            Discriminator::Rule(rule) => Discriminator::Rule(rule.clone()),
        }
    }
}

/// Whether two optional discriminators are the same.
pub fn same_discriminator(a: &Option<Discriminator>, b: &Option<Discriminator>) -> (r: bool)
    ensures
        r == (optional_view(*a) == optional_view(*b)),
{
    match (a, b) {
        (None, None) => true,
        (Some(x), Some(y)) => x.same(y),
        _ => false,
    }
}

impl Key {
    /// The group of the key.
    pub fn group(&self) -> (r: &GroupBy)
        ensures
            group_view(r@) == self@.group(),
    {
        match self {
            Key::EventCount(g) => g,
            Key::ValueCount(g, _) => g,
        }
    }

    /// A copy of the discriminator of the key, where it has one.
    pub fn discriminator(&self) -> (r: Option<Discriminator>)
        ensures
            optional_view(r) == self@.discriminator(),
    {
        match self {
            Key::EventCount(_) => None,
            Key::ValueCount(_, d) => Some(d.duplicate()),
        }
    }
}

impl MemBackendImpl {
    /// A state without increments, at time zero.
    pub fn new() -> (r: MemBackendImpl)
        ensures
            r@ == (StateView { now: 0, pending: Seq::empty() }),
    {
        let r = MemBackendImpl { now: 0, pending: Vec::new() };
        assert(r@.pending =~= Seq::empty());
        r
    }

    /// The number of increments in a bucket among the first `upto`.
    #[verifier::loop_isolation(false)]
    fn count_bucket(
        &self,
        upto: usize,
        rule: &str,
        group: &GroupBy,
        d: &Option<Discriminator>,
    ) -> (r: usize)
        requires
            upto <= self.pending.len(),
        ensures
            r == bucket_count(
                self@.pending.take(upto as int),
                rule@,
                group_view(group@),
                optional_view(*d),
            ),
            r <= upto,
    {
        let ghost all = self@.pending;
        let mut n: usize = 0;
        let mut i: usize = 0;
        while i < upto
            invariant
                i <= upto,
                n <= i,
                n == bucket_count(all.take(i as int), rule@, group_view(group@), optional_view(*d)),
            decreases upto - i,
        {
            proof {
                assert(all.take(i + 1).drop_last() == all.take(i as int));
                assert(all.take(i + 1).last() == self.pending[i as int]@);
            }
            let p = &self.pending[i];
            if same_text(p.rule.as_str(), rule) && same_group(&p.group, group)
                && same_discriminator(&p.discriminator, d) {
                n += 1;
            }
            i += 1;
        }
        n
    }

    /// The number of distinct discriminators in a group.
    #[verifier::loop_isolation(false)]
    fn count_distinct(&self, rule: &str, group: &GroupBy) -> (r: usize)
        ensures
            r == distinct_count(self@.pending, rule@, group_view(group@)),
    {
        let ghost all = self@.pending;
        let mut n: usize = 0;
        let mut i: usize = 0;
        while i < self.pending.len()
            invariant
                i <= self.pending.len(),
                n <= i,
                n == distinct_count(all.take(i as int), rule@, group_view(group@)),
            decreases self.pending.len() - i,
        {
            proof {
                assert(all.take(i + 1).drop_last() == all.take(i as int));
                assert(all.take(i + 1).last() == self.pending[i as int]@);
            }
            let p = &self.pending[i];
            if same_text(p.rule.as_str(), rule) && same_group(&p.group, group) {
                let earlier = self.count_bucket(i, rule, group, &p.discriminator);
                if earlier == 0 {
                    n += 1;
                }
            }
            i += 1;
        }
        assert(all.take(self.pending.len() as int) == all);
        n
    }

    /// Reads the counter of a key: the number of increments of its bucket
    /// that have not expired. The state stays as it is.
    pub fn count(&self, rule_id: &String, key: &Key) -> (r: u64)
        ensures
            r == counted(self@.pending, rule_id@, key@),
    {
        let d = key.discriminator();
        let n = self.count_bucket(self.pending.len(), rule_id.as_str(), key.group(), &d);
        assert(self@.pending.take(self.pending.len() as int) == self@.pending);
        n as u64
    }

    /// Increments the counter of a key; the increment expires `timeout`
    /// after now. Returns what is observed once it is made.
    pub fn incr(&mut self, rule_id: &String, timeout: u64, key: &Key) -> (r: u64)
        ensures
            final(self)@ == after_incr(old(self)@, rule_id@, timeout, key@),
            r == observed(final(self)@.pending, rule_id@, key@),
    {
        let deadline = if timeout > u64::MAX - self.now {
            u64::MAX
        } else {
            self.now + timeout
        };
        let entry = Pending {
            rule: rule_id.clone(),
            group: copy_group(key.group()),
            discriminator: key.discriminator(),
            deadline,
        };
        proof {
            assert(pending_views(self.pending@.push(entry)) =~= pending_views(self.pending@).push(
                entry@,
            ));
        }
        self.pending.push(entry);
        let n = match key {
            Key::EventCount(g) => {
                let r = self.count_bucket(self.pending.len(), rule_id.as_str(), g, &None);
                assert(self@.pending.take(self.pending.len() as int) == self@.pending);
                r
            },
            Key::ValueCount(g, _) => self.count_distinct(rule_id.as_str(), g),
        };
        n as u64
    }

    /// Moves the clock to `now` and lets every increment expire whose
    /// deadline has come, the oldest first.
    #[verifier::loop_isolation(false)]
    pub fn advance(&mut self, now: u64)
        ensures
            final(self)@ == after_advance(old(self)@, now),
    {
        let ghost before = self@.pending;
        let mut i: usize = 0;
        let ghost mut k: int = 0;
        proof {
            assert(before.take(0) =~= Seq::empty());
            assert(live(before.take(0), now) + before.skip(0) =~= before);
        }
        while i < self.pending.len()
            invariant
                0 <= k <= before.len(),
                i == live(before.take(k), now).len(),
                self.now == old(self).now,
                self@.pending == live(before.take(k), now) + before.skip(k),
                self.pending.len() - i == before.len() - k,
            decreases self.pending.len() - i,
        {
            proof {
                assert(before.take(k + 1).drop_last() == before.take(k));
                assert(before.take(k + 1).last() == before[k]);
                assert(self@.pending[i as int] == before.skip(k)[0]);
                assert(self.pending[i as int]@ == self@.pending[i as int]);
            }
            if self.pending[i].deadline <= now {
                let ghost prev = self.pending@;
                self.pending.remove(i);
                proof {
                    assert(pending_views(self.pending@) =~= pending_views(prev).remove(i as int));
                    assert(pending_views(prev).remove(i as int) =~= live(before.take(k), now)
                        + before.skip(k + 1));
                    k = k + 1;
                }
            } else {
                proof {
                    assert(live(before.take(k), now).push(before[k]) + before.skip(k + 1)
                        =~= live(before.take(k), now) + before.skip(k));
                    k = k + 1;
                }
                i += 1;
            }
        }
        proof {
            assert(before.take(k) == before);
            assert(live(before, now) + before.skip(k) =~= live(before, now));
        }
        if now > self.now {
            self.now = now;
        }
    }
}

/// After an increment a value count stands at the number of distinct
/// discriminators of the group: an increment of a discriminator that the
/// group holds already leaves it as it was, one of a new discriminator
/// raises it by one.
pub proof fn lemma_value_count_distinct(s: StateView, rule: Seq<char>, timeout: u64, key: KeyView)
    requires
        key is ValueCount,
    ensures
        counted(s.pending, rule, key) > 0 ==> observed(
            after_incr(s, rule, timeout, key).pending,
            rule,
            key,
        ) == observed(s.pending, rule, key),
        counted(s.pending, rule, key) == 0 ==> observed(
            after_incr(s, rule, timeout, key).pending,
            rule,
            key,
        ) == observed(s.pending, rule, key) + 1,
{
    let after = after_incr(s, rule, timeout, key).pending;
    assert(after.drop_last() == s.pending);
}

/// Incrementing the same discriminator twice observes the same count both
/// times.
pub proof fn lemma_value_count_repeat(s: StateView, rule: Seq<char>, timeout: u64, key: KeyView)
    requires
        key is ValueCount,
    ensures
        ({
            let once = after_incr(s, rule, timeout, key);
            let twice = after_incr(once, rule, timeout, key);
            observed(twice.pending, rule, key) == observed(once.pending, rule, key)
        }),
{
    let once = after_incr(s, rule, timeout, key);
    let twice = after_incr(once, rule, timeout, key);
    assert(once.pending.drop_last() == s.pending);
    assert(twice.pending.drop_last() == once.pending);
    assert(counted(once.pending, rule, key) > 0);
}

/// The state after `n` increments of a key in a row.
pub open spec fn after_incrs(s: StateView, rule: Seq<char>, timeout: u64, key: KeyView, n: nat) -> StateView
    decreases n,
{
    if n == 0 {
        s
    } else {
        after_incr(after_incrs(s, rule, timeout, key, (n - 1) as nat), rule, timeout, key)
    }
}

/// After `n` increments of an event count, the counter stands `n` higher:
/// at `n`, where it stood at zero. As long as the clock has not reached the
/// deadline of those increments, letting time pass does not change that.
pub proof fn lemma_event_count_adds(
    s: StateView,
    rule: Seq<char>,
    timeout: u64,
    key: KeyView,
    n: nat,
    now: u64,
)
    requires
        key is EventCount,
    ensures
        counted(after_incrs(s, rule, timeout, key, n).pending, rule, key) == counted(
            s.pending,
            rule,
            key,
        ) + n,
        observed(after_incrs(s, rule, timeout, key, n).pending, rule, key) == counted(
            s.pending,
            rule,
            key,
        ) + n,
        now < deadline_at(s.now, timeout) ==> counted(
            after_advance(after_incrs(s, rule, timeout, key, n), now).pending,
            rule,
            key,
        ) == counted(after_advance(s, now).pending, rule, key) + n,
    decreases n,
{
    if n > 0 {
        let before = after_incrs(s, rule, timeout, key, (n - 1) as nat);
        lemma_event_count_adds(s, rule, timeout, key, (n - 1) as nat, now);
        lemma_incrs_clock(s, rule, timeout, key, (n - 1) as nat);
        let after = after_incr(before, rule, timeout, key);
        assert(after.pending.drop_last() == before.pending);
        if now < deadline_at(s.now, timeout) {
            let kept = live(after.pending, now);
            assert(kept == live(before.pending, now).push(after.pending.last()));
            assert(kept.drop_last() == live(before.pending, now));
        }
    }
}

/// Increments leave the clock as it is.
pub proof fn lemma_incrs_clock(s: StateView, rule: Seq<char>, timeout: u64, key: KeyView, n: nat)
    ensures
        after_incrs(s, rule, timeout, key, n).now == s.now,
    decreases n,
{
    if n > 0 {
        lemma_incrs_clock(s, rule, timeout, key, (n - 1) as nat);
    }
}

/// Whether every increment of a bucket expires at `bound` at the latest.
pub open spec fn expires_by(
    pending: Seq<PendingView>,
    rule: Seq<char>,
    group: GroupView,
    d: Option<DiscriminatorView>,
    bound: int,
) -> bool {
    forall|i: int|
        0 <= i < pending.len() && in_bucket(#[trigger] pending[i], rule, group, d) ==> pending[i].deadline
            <= bound
}

/// Once the clock has passed the deadline of every increment of a bucket,
/// the bucket is empty.
pub proof fn lemma_expired_bucket(
    pending: Seq<PendingView>,
    rule: Seq<char>,
    group: GroupView,
    d: Option<DiscriminatorView>,
    now: u64,
)
    requires
        expires_by(pending, rule, group, d, now as int),
    ensures
        bucket_count(live(pending, now), rule, group, d) == 0,
    decreases pending.len(),
{
    if pending.len() > 0 {
        let front = pending.drop_last();
        assert forall|i: int|
            0 <= i < front.len() && in_bucket(#[trigger] front[i], rule, group, d) implies front[i].deadline
            <= now by {
            assert(front[i] == pending[i]);
        }
        lemma_expired_bucket(front, rule, group, d, now);
        assert(pending.last() == pending[pending.len() - 1]);
        if pending.last().deadline > now {
            assert(live(pending, now).drop_last() == live(front, now));
        }
    }
}

/// Whether no increment of a bucket has expired at `now`.
pub open spec fn fresh(
    pending: Seq<PendingView>,
    rule: Seq<char>,
    group: GroupView,
    d: Option<DiscriminatorView>,
    now: u64,
) -> bool {
    forall|i: int|
        0 <= i < pending.len() && in_bucket(#[trigger] pending[i], rule, group, d) ==> pending[i].deadline
            > now
}

/// Letting time pass up to `now` leaves a bucket as it is where none of
/// its increments has expired at `now`.
pub proof fn lemma_fresh_bucket(
    pending: Seq<PendingView>,
    rule: Seq<char>,
    group: GroupView,
    d: Option<DiscriminatorView>,
    at: u64,
    now: u64,
)
    requires
        fresh(pending, rule, group, d, now),
        at <= now,
    ensures
        bucket_count(live(pending, at), rule, group, d) == bucket_count(pending, rule, group, d),
        fresh(live(pending, at), rule, group, d, now),
    decreases pending.len(),
{
    if pending.len() > 0 {
        let front = pending.drop_last();
        let last = pending.last();
        assert(last == pending[pending.len() - 1]);
        assert forall|i: int|
            0 <= i < front.len() && in_bucket(#[trigger] front[i], rule, group, d) implies front[i].deadline
            > now by {
            assert(front[i] == pending[i]);
        }
        lemma_fresh_bucket(front, rule, group, d, at, now);
        let kept = live(pending, at);
        if last.deadline > at {
            assert(kept.drop_last() == live(front, at));
            assert(kept.last() == last);
            assert forall|i: int|
                0 <= i < kept.len() && in_bucket(#[trigger] kept[i], rule, group, d) implies kept[i].deadline
                > now by {
                if i < kept.len() - 1 {
                    assert(kept[i] == live(front, at)[i]);
                }
            }
        }
    }
}

proof fn lemma_empty_bucket(
    pending: Seq<PendingView>,
    rule: Seq<char>,
    group: GroupView,
    d: Option<DiscriminatorView>,
    now: u64,
)
    requires
        bucket_count(pending, rule, group, d) == 0,
    ensures
        fresh(pending, rule, group, d, now),
    decreases pending.len(),
{
    if pending.len() > 0 {
        let front = pending.drop_last();
        lemma_empty_bucket(front, rule, group, d, now);
        assert(pending.last() == pending[pending.len() - 1]);
        assert forall|i: int|
            0 <= i < pending.len() && in_bucket(#[trigger] pending[i], rule, group, d) implies pending[i].deadline
            > now by {
            if i < front.len() {
                assert(front[i] == pending[i]);
            }
        }
    }
}

/// The state after a round for each of the times: the clock is moved to
/// the time, then the key is incremented.
pub open spec fn after_rounds(
    s: StateView,
    rule: Seq<char>,
    timeout: u64,
    key: KeyView,
    times: Seq<u64>,
) -> StateView
    decreases times.len(),
{
    if times.len() == 0 {
        s
    } else {
        after_incr(
            after_advance(after_rounds(s, rule, timeout, key, times.drop_last()), times.last()),
            rule,
            timeout,
            key,
        )
    }
}

/// The time of the clock once it has been moved to `to`.
pub open spec fn clock_at(now: u64, to: u64) -> u64 {
    if to > now {
        to
    } else {
        now
    }
}

proof fn lemma_rounds(
    s: StateView,
    rule: Seq<char>,
    timeout: u64,
    key: KeyView,
    times: Seq<u64>,
    now: u64,
)
    requires
        counted(s.pending, rule, key) == 0,
        times.len() > 0 ==> now < deadline_at(clock_at(s.now, times[0]), timeout),
        forall|i: int| 0 <= i < times.len() ==> #[trigger] times[i] <= now,
    ensures
        ({
            let after = after_rounds(s, rule, timeout, key, times);
            &&& counted(after.pending, rule, key) == times.len()
            &&& fresh(after.pending, rule, key.group(), key.discriminator(), now)
            &&& after.now >= s.now
            &&& times.len() > 0 ==> after.now >= clock_at(s.now, times[0])
        }),
    decreases times.len(),
{
    let group = key.group();
    let d = key.discriminator();
    if times.len() == 0 {
        lemma_empty_bucket(s.pending, rule, group, d, now);
    } else {
        let front = times.drop_last();
        let t = times.last();
        assert(t == times[times.len() - 1]);
        assert forall|i: int| 0 <= i < front.len() implies #[trigger] front[i] <= now by {
            assert(front[i] == times[i]);
        }
        if front.len() > 0 {
            assert(front[0] == times[0]);
        }
        lemma_rounds(s, rule, timeout, key, front, now);
        let before = after_rounds(s, rule, timeout, key, front);
        lemma_fresh_bucket(before.pending, rule, group, d, t, now);
        let moved = after_advance(before, t);
        let after = after_incr(moved, rule, timeout, key);
        assert(moved.now >= clock_at(s.now, times[0]));
        assert(after.pending.drop_last() == moved.pending);
        let entry = after.pending.last();
        assert(entry.deadline == deadline_at(moved.now, timeout));
        assert(entry.deadline > now);
        assert forall|i: int|
            0 <= i < after.pending.len() && in_bucket(#[trigger] after.pending[i], rule, group, d) implies after.pending[i].deadline
            > now by {
            if i < moved.pending.len() {
                assert(after.pending[i] == moved.pending[i]);
            }
        }
    }
}

/// Event count within the window: where the counter of a key stands at
/// zero, then after `n` increments, each made once the clock was moved to
/// its time, and none of them as long ago as the timeout, the counter
/// reads `n`.
pub proof fn lemma_event_count_window(
    s: StateView,
    rule: Seq<char>,
    timeout: u64,
    key: KeyView,
    times: Seq<u64>,
    now: u64,
)
    requires
        counted(s.pending, rule, key) == 0,
        times.len() > 0 ==> now < deadline_at(clock_at(s.now, times[0]), timeout),
        forall|i: int| 0 <= i < times.len() ==> #[trigger] times[i] <= now,
    ensures
        counted(
            after_advance(after_rounds(s, rule, timeout, key, times), now).pending,
            rule,
            key,
        ) == times.len(),
        counted(after_rounds(s, rule, timeout, key, times).pending, rule, key) == times.len(),
{
    lemma_rounds(s, rule, timeout, key, times, now);
    let after = after_rounds(s, rule, timeout, key, times);
    lemma_fresh_bucket(after.pending, rule, key.group(), key.discriminator(), now, now);
}

/// Whether two states hold the same counts at the same time: every bucket
/// holds as many increments in the one as in the other, and every group as
/// many distinct discriminators.
pub open spec fn same_counts(a: StateView, b: StateView) -> bool {
    &&& a.now == b.now
    &&& forall|rule: Seq<char>, group: GroupView, d: Option<DiscriminatorView>| #[trigger]
        bucket_count(a.pending, rule, group, d) == bucket_count(b.pending, rule, group, d)
    &&& forall|rule: Seq<char>, group: GroupView| #[trigger]
        distinct_count(a.pending, rule, group) == distinct_count(b.pending, rule, group)
}

/// States that hold the same counts answer alike: an increment observes
/// the same in both and leaves them holding the same counts, and a reading
/// gives the same in both.
pub proof fn lemma_same_counts_step(
    a: StateView,
    b: StateView,
    rule: Seq<char>,
    timeout: u64,
    key: KeyView,
)
    requires
        same_counts(a, b),
    ensures
        same_counts(after_incr(a, rule, timeout, key), after_incr(b, rule, timeout, key)),
        observed(after_incr(a, rule, timeout, key).pending, rule, key) == observed(
            after_incr(b, rule, timeout, key).pending,
            rule,
            key,
        ),
        counted(a.pending, rule, key) == counted(b.pending, rule, key),
{
    let x = after_incr(a, rule, timeout, key);
    let y = after_incr(b, rule, timeout, key);
    assert(x.pending.drop_last() == a.pending);
    assert(y.pending.drop_last() == b.pending);
    assert(x.pending.last() == y.pending.last());
    let entry = x.pending.last();
    assert forall|r: Seq<char>, g: GroupView, d: Option<DiscriminatorView>| #[trigger]
        bucket_count(x.pending, r, g, d) == bucket_count(y.pending, r, g, d) by {
        assert(bucket_count(a.pending, r, g, d) == bucket_count(b.pending, r, g, d));
    }
    assert forall|r: Seq<char>, g: GroupView| #[trigger]
        distinct_count(x.pending, r, g) == distinct_count(y.pending, r, g) by {
        assert(distinct_count(a.pending, r, g) == distinct_count(b.pending, r, g));
        assert(bucket_count(a.pending, r, g, entry.discriminator) == bucket_count(
            b.pending,
            r,
            g,
            entry.discriminator,
        ));
    }
    assert(bucket_count(a.pending, rule, key.group(), key.discriminator()) == bucket_count(
        b.pending,
        rule,
        key.group(),
        key.discriminator(),
    ));
}

/// The increments of one rule, in their order.
pub open spec fn pending_of(pending: Seq<PendingView>, rule: Seq<char>) -> Seq<PendingView>
    decreases pending.len(),
{
    if pending.len() == 0 {
        Seq::empty()
    } else if pending.last().rule == rule {
        pending_of(pending.drop_last(), rule).push(pending.last())
    } else {
        pending_of(pending.drop_last(), rule)
    }
}

/// Whether two states hold the same increments for one rule, and so the
/// same counts, at the same time.
pub open spec fn same_counts_of(a: StateView, b: StateView, rule: Seq<char>) -> bool {
    &&& a.now == b.now
    &&& pending_of(a.pending, rule) == pending_of(b.pending, rule)
    &&& forall|group: GroupView, d: Option<DiscriminatorView>| #[trigger]
        bucket_count(a.pending, rule, group, d) == bucket_count(b.pending, rule, group, d)
    &&& forall|group: GroupView| #[trigger]
        distinct_count(a.pending, rule, group) == distinct_count(b.pending, rule, group)
}

/// Whether two states hold the same increments for every rule, and so the
/// same counts, at the same time.
pub open spec fn same_store(a: StateView, b: StateView) -> bool {
    &&& same_counts(a, b)
    &&& forall|rule: Seq<char>| #[trigger] pending_of(a.pending, rule) == pending_of(b.pending, rule)
}

/// The counts of a rule are those of its own increments.
pub proof fn lemma_counts_of_rule(
    pending: Seq<PendingView>,
    rule: Seq<char>,
    group: GroupView,
    d: Option<DiscriminatorView>,
)
    ensures
        bucket_count(pending, rule, group, d) == bucket_count(
            pending_of(pending, rule),
            rule,
            group,
            d,
        ),
        distinct_count(pending, rule, group) == distinct_count(
            pending_of(pending, rule),
            rule,
            group,
        ),
    decreases pending.len(),
{
    if pending.len() > 0 {
        let front = pending.drop_last();
        let last = pending.last();
        lemma_counts_of_rule(front, rule, group, d);
        lemma_counts_of_rule(front, rule, group, last.discriminator);
        if last.rule == rule {
            let own = pending_of(pending, rule);
            assert(own.drop_last() == pending_of(front, rule));
            assert(own.last() == last);
        }
    }
}

/// The increments of a rule that have not expired are those of the
/// increments that have not expired.
pub proof fn lemma_live_of(pending: Seq<PendingView>, rule: Seq<char>, now: u64)
    ensures
        pending_of(live(pending, now), rule) == live(pending_of(pending, rule), now),
    decreases pending.len(),
{
    if pending.len() > 0 {
        let front = pending.drop_last();
        let last = pending.last();
        lemma_live_of(front, rule, now);
        if last.deadline > now {
            let kept = live(pending, now);
            assert(kept.drop_last() == live(front, now));
            assert(kept.last() == last);
        }
        if last.rule == rule {
            let own = pending_of(pending, rule);
            assert(own.drop_last() == pending_of(front, rule));
            assert(own.last() == last);
        }
    }
}

/// States that hold the same increments for every rule hold the same once
/// the clock has reached a time in both.
pub proof fn lemma_advance_same_store(a: StateView, b: StateView, now: u64)
    requires
        same_store(a, b),
    ensures
        same_store(after_advance(a, now), after_advance(b, now)),
{
    let x = after_advance(a, now);
    let y = after_advance(b, now);
    assert forall|rule: Seq<char>| #[trigger]
        pending_of(x.pending, rule) == pending_of(y.pending, rule) by {
        lemma_live_of(a.pending, rule, now);
        lemma_live_of(b.pending, rule, now);
        assert(pending_of(a.pending, rule) == pending_of(b.pending, rule));
    }
    assert forall|rule: Seq<char>, group: GroupView, d: Option<DiscriminatorView>| #[trigger]
        bucket_count(x.pending, rule, group, d) == bucket_count(y.pending, rule, group, d) by {
        lemma_counts_of_rule(x.pending, rule, group, d);
        lemma_counts_of_rule(y.pending, rule, group, d);
        assert(pending_of(x.pending, rule) == pending_of(y.pending, rule));
    }
    assert forall|rule: Seq<char>, group: GroupView| #[trigger]
        distinct_count(x.pending, rule, group) == distinct_count(y.pending, rule, group) by {
        lemma_counts_of_rule(x.pending, rule, group, None);
        lemma_counts_of_rule(y.pending, rule, group, None);
        assert(pending_of(x.pending, rule) == pending_of(y.pending, rule));
    }
}

/// The counters of a rule decide its answers: states that hold the same
/// counts for the rule answer its increments and readings alike, and hold
/// the same counts for it after them.
pub proof fn lemma_step_local(
    a: StateView,
    b: StateView,
    rule: Seq<char>,
    timeout: u64,
    key: KeyView,
)
    requires
        same_counts_of(a, b, rule),
    ensures
        same_counts_of(after_incr(a, rule, timeout, key), after_incr(b, rule, timeout, key), rule),
        observed(after_incr(a, rule, timeout, key).pending, rule, key) == observed(
            after_incr(b, rule, timeout, key).pending,
            rule,
            key,
        ),
        counted(a.pending, rule, key) == counted(b.pending, rule, key),
{
    let x = after_incr(a, rule, timeout, key);
    let y = after_incr(b, rule, timeout, key);
    assert(x.pending.drop_last() == a.pending);
    assert(y.pending.drop_last() == b.pending);
    assert(x.pending.last() == y.pending.last());
    let entry = x.pending.last();
    assert(pending_of(x.pending, rule) == pending_of(a.pending, rule).push(entry));
    assert(pending_of(y.pending, rule) == pending_of(b.pending, rule).push(entry));
    assert forall|g: GroupView, d: Option<DiscriminatorView>| #[trigger]
        bucket_count(x.pending, rule, g, d) == bucket_count(y.pending, rule, g, d) by {
        assert(bucket_count(a.pending, rule, g, d) == bucket_count(b.pending, rule, g, d));
    }
    assert forall|g: GroupView| #[trigger]
        distinct_count(x.pending, rule, g) == distinct_count(y.pending, rule, g) by {
        assert(distinct_count(a.pending, rule, g) == distinct_count(b.pending, rule, g));
        assert(bucket_count(a.pending, rule, g, entry.discriminator) == bucket_count(
            b.pending,
            rule,
            g,
            entry.discriminator,
        ));
    }
    assert(bucket_count(a.pending, rule, key.group(), key.discriminator()) == bucket_count(
        b.pending,
        rule,
        key.group(),
        key.discriminator(),
    ));
}

/// An increment for one rule leaves the counters of every other rule as
/// they are.
pub proof fn lemma_step_frame(
    s: StateView,
    rule: Seq<char>,
    timeout: u64,
    key: KeyView,
    other: Seq<char>,
)
    requires
        other != rule,
    ensures
        same_counts_of(after_incr(s, rule, timeout, key), s, other),
{
    let x = after_incr(s, rule, timeout, key);
    assert(x.pending.drop_last() == s.pending);
    assert(x.pending.last().rule == rule);
    assert(pending_of(x.pending, other) == pending_of(s.pending, other));
}

/// The order of the fields does not tell groups apart: two lists of fields
/// put together in either order are the same group.
pub proof fn lemma_group_order(a: Pairs, b: Pairs)
    ensures
        (a + b).to_multiset() == (b + a).to_multiset(),
{
    vstd::seq_lib::lemma_seq_union_to_multiset_commutative(a, b);
}

/// State expiry: where the last increment of a key was made at `last` or
/// before, each with a timeout of `timespan` at most, the counter of the
/// key reads zero once the clock has reached `last` and twice the timespan.
pub proof fn lemma_state_expiry(
    s: StateView,
    rule: Seq<char>,
    key: KeyView,
    timespan: u64,
    last: u64,
    now: u64,
)
    requires
        expires_by(s.pending, rule, key.group(), key.discriminator(), last + timespan),
        now >= last + 2 * timespan,
    ensures
        counted(after_advance(s, now).pending, rule, key) == 0,
{
    lemma_expired_bucket(s.pending, rule, key.group(), key.discriminator(), now);
}

/// An increment made at the time of the state, with a timeout of
/// `timespan`, expires at that time and the timespan at the latest, and
/// leaves what held of the other increments of the bucket.
pub proof fn lemma_incr_expires_by(
    s: StateView,
    rule: Seq<char>,
    key: KeyView,
    timespan: u64,
    bound: int,
)
    requires
        expires_by(s.pending, rule, key.group(), key.discriminator(), bound),
        bound >= s.now + timespan,
    ensures
        expires_by(
            after_incr(s, rule, timespan, key).pending,
            rule,
            key.group(),
            key.discriminator(),
            bound,
        ),
{
    let after = after_incr(s, rule, timespan, key).pending;
    assert forall|i: int|
        0 <= i < after.len() && in_bucket(
            #[trigger] after[i],
            rule,
            key.group(),
            key.discriminator(),
        ) implies after[i].deadline <= bound by {
        if i < s.pending.len() {
            assert(after[i] == s.pending[i]);
        }
    }
}

/// The state of one rule in the in-memory backend: the name under which
/// its counters stand, and how long an increment lives.
#[derive(Debug)]
pub struct MemState {
    pub rule_id: String,
    pub timespan: u64,
}

impl MemState {
    /// The state of the rule `rule_id`, whose increments live `timespan`.
    pub fn new(rule_id: &String, timespan: u64) -> (r: Result<MemState, BackendError>)
        ensures
            r matches Ok(state) && state.rule_id@ == rule_id@ && state.timespan == timespan,
    {
        Ok(MemState { rule_id: rule_id.clone(), timespan })
    }

    /// Increments the counter of a key of this rule.
    pub fn incr(&self, backend: &mut MemBackendImpl, key: &Key) -> (r: u64)
        ensures
            final(backend)@ == after_incr(old(backend)@, self.rule_id@, self.timespan, key@),
            r == observed(final(backend)@.pending, self.rule_id@, key@),
    {
        backend.incr(&self.rule_id, self.timespan, key)
    }

    /// Reads the counter of a key of this rule.
    pub fn count(&self, backend: &MemBackendImpl, key: &Key) -> (r: u64)
        ensures
            r == counted(backend@.pending, self.rule_id@, key@),
    {
        backend.count(&self.rule_id, key)
    }
}

/// The in-memory backend: the counters, and the state of each rule that
/// was registered.
#[derive(Debug)]
pub struct MemBackend {
    pub store: MemBackendImpl,
    pub states: Vec<MemState>,
}

/// The mathematical content of a [`MemBackend`].
pub struct BackendView {
    pub store: StateView,
    pub states: Seq<(Seq<char>, u64)>,
}

/// The contents of a list of states.
pub open spec fn state_views(states: Seq<MemState>) -> Seq<(Seq<char>, u64)> {
    states.map_values(|s: MemState| (s.rule_id@, s.timespan))
}

impl View for MemBackend {
    type V = BackendView;

    open spec fn view(&self) -> BackendView {
        BackendView { store: self.store@, states: state_views(self.states@) }
    }
}

/// The state of a rule: that of the first registration under its id.
pub open spec fn state_of(states: Seq<(Seq<char>, u64)>, rule: Seq<char>) -> Option<
    (Seq<char>, u64),
>
    decreases states.len(),
{
    if states.len() == 0 {
        None
    } else if states[0].0 == rule {
        Some(states[0])
    } else {
        state_of(states.skip(1), rule)
    }
}

impl MemBackend {
    /// A backend without counters and without rules.
    pub fn new() -> (r: MemBackend)
        ensures
            r@ == (BackendView {
                store: StateView { now: 0, pending: Seq::empty() },
                states: Seq::empty(),
            }),
    {
        let r = MemBackend { store: MemBackendImpl::new(), states: Vec::new() };
        assert(r@.states =~= Seq::empty());
        r
    }

    /// The state of a rule, if it is registered.
    #[verifier::loop_isolation(false)]
    pub fn find_state(&self, rule_id: &str) -> (r: Option<&MemState>)
        ensures
            match r {
                Some(state) => state_of(self@.states, rule_id@) == Some(
                    (state.rule_id@, state.timespan),
                ),
                None => state_of(self@.states, rule_id@) is None,
            },
    {
        let ghost all = self@.states;
        let mut i: usize = 0;
        assert(all.skip(0) == all);
        while i < self.states.len()
            invariant
                i <= self.states.len(),
                state_of(all, rule_id@) == state_of(all.skip(i as int), rule_id@),
            decreases self.states.len() - i,
        {
            proof {
                let rest = all.skip(i as int);
                assert(rest[0] == (self.states[i as int].rule_id@, self.states[i as int].timespan));
                assert(rest.skip(1) == all.skip(i + 1));
            }
            if same_text(self.states[i].rule_id.as_str(), rule_id) {
                return Some(&self.states[i]);
            }
            i += 1;
        }
        None
    }

    /// Registers the state of a rule; fails where the rule has one.
    pub fn register_state(&mut self, rule_id: &String, timespan: u64) -> (r: Result<
        (),
        BackendError,
    >)
        ensures
            match r {
                Ok(_) => state_of(old(self)@.states, rule_id@) is None && final(self)@ == (
                BackendView {
                    store: old(self)@.store,
                    states: old(self)@.states.push((rule_id@, timespan)),
                }),
                Err(e) => state_of(old(self)@.states, rule_id@) is Some && final(self)@ == old(self)@,
            },
    {
        if self.find_state(rule_id.as_str()).is_some() {
            return Err(BackendError::StateError);
        }
        let state = MemState { rule_id: rule_id.clone(), timespan };
        assert(state_views(self.states@.push(state)) =~= state_views(self.states@).push(
            (rule_id@, timespan),
        ));
        self.states.push(state);
        Ok(())
    }

    /// Moves the clock to `now` and lets what is due expire.
    pub fn advance(&mut self, now: u64)
        ensures
            final(self)@ == (BackendView {
                store: after_advance(old(self)@.store, now),
                states: old(self)@.states,
            }),
    {
        self.store.advance(now);
    }
}

} // verus!
