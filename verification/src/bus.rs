//! [`PubSub`], the publish/subscribe bus: topics with their subscribers in
//! insertion order, the token and handle counters, the deferred-delivery queue
//! and the immediate-exceptions flag.
//!
//! Every operation is stated over [`BusView`], the bus's model, which also
//! records every run of a subscriber the bus has made: which subscriber, with
//! which topic and data, in order. An operation whose contract leaves that
//! record unchanged runs no subscriber; a delivery appends exactly its plan.

use crate::callback::{callback_from, share, Callback, Subscriber};
use crate::token::{uid_text, Subscription, Token, Unsubscribed};
use crate::topic::{delivery_levels, lemma_delivery_levels_distinct, has_prefix, hierarchy_levels, wildcard, ALL_SUBSCRIBING};
use vstd::prelude::*;

verus! {

broadcast use vstd::seq_lib::group_filter_ensures, vstd::seq::group_seq_axioms;

/// The model of one subscription.
#[verifier::reject_recursive_types(D)]
pub struct EntryView<D> {
    /// The token's text.
    pub token: Seq<char>,
    /// The counter value the token was made from.
    pub uid: u64,
    /// The handle that groups the entries of one subscription.
    pub handle: u64,
    /// A one-shot entry is removed before its first delivery.
    pub once: bool,
    /// The subscriber itself.
    pub callback: Callback<D>,
}

/// The model of one topic: its name and its subscriptions in insertion order.
#[verifier::reject_recursive_types(D)]
pub struct TopicView<D> {
    pub name: Seq<char>,
    pub entries: Seq<EntryView<D>>,
}

/// The model of a queued deferred delivery.
pub struct JobView<D> {
    pub message: Seq<char>,
    pub data: D,
    pub immediate_exceptions: bool,
}

/// One run of a subscriber: the subscriber, the topic it was handed and the
/// data it was handed.
#[verifier::reject_recursive_types(D)]
pub struct Note<D> {
    pub callback: Callback<D>,
    pub topic: Seq<char>,
    pub data: D,
}

/// The model of a registry.
#[verifier::reject_recursive_types(D)]
pub struct BusView<D> {
    /// Topics in the order they were first subscribed to.
    pub topics: Seq<TopicView<D>>,
    /// The counter value of the next token.
    pub next_uid: u64,
    /// The last handle handed out (0 before the first).
    pub last_handle: u64,
    /// Queued deferred deliveries, oldest first.
    pub deferred: Seq<JobView<D>>,
    /// Whether a panicking subscriber stops delivery at once.
    pub immediate_exceptions: bool,
    /// Every run of a subscriber this bus has made, oldest first.
    pub delivered: Seq<Note<D>>,
}

/// No two topics share a name.
pub open spec fn names_distinct<D>(topics: Seq<TopicView<D>>) -> bool {
    forall|i: int, j: int| 0 <= i < j < topics.len() ==> #[trigger] topics[i].name != #[trigger] topics[j].name
}

/// No two subscriptions of one topic share a counter value.
pub open spec fn entry_uids_distinct<D>(entries: Seq<EntryView<D>>) -> bool {
    forall|k: int, l: int| 0 <= k < l < entries.len() ==> #[trigger] entries[k].uid != #[trigger] entries[l].uid
}

/// No two registered subscriptions share a counter value.
pub open spec fn uids_distinct<D>(topics: Seq<TopicView<D>>) -> bool {
    forall|i: int, k: int, j: int, l: int|
        0 <= i < topics.len() && 0 <= k < topics[i].entries.len() && 0 <= j < topics.len() && 0 <= l
            < topics[j].entries.len() && (i != j || k != l) ==> #[trigger] topics[i].entries[k].uid
            != #[trigger] topics[j].entries[l].uid
}

/// Some topic is named `name`.
pub open spec fn has_topic<D>(topics: Seq<TopicView<D>>, name: Seq<char>) -> bool {
    exists|i: int| 0 <= i < topics.len() && #[trigger] topics[i].name == name
}

/// The position of the topic named `name`, or -1 when there is none.
pub open spec fn topic_index<D>(topics: Seq<TopicView<D>>, name: Seq<char>) -> int {
    if has_topic(topics, name) {
        choose|i: int| 0 <= i < topics.len() && #[trigger] topics[i].name == name
    } else {
        -1
    }
}

/// The topic named `name` has at least one subscription.
pub open spec fn is_live<D>(topics: Seq<TopicView<D>>, name: Seq<char>) -> bool {
    exists|i: int| 0 <= i < topics.len() && #[trigger] topics[i].name == name && topics[i].entries.len() > 0
}

/// Some topic that a publish of `message` reaches has a subscription.
pub open spec fn has_subscribers<D>(topics: Seq<TopicView<D>>, message: Seq<char>) -> bool {
    exists|k: int| 0 <= k < delivery_levels(message).len() && #[trigger] is_live(topics, delivery_levels(message)[k])
}

/// The topics after `e` joins the topic named `name`, which is created at the
/// end when it does not exist yet.
pub open spec fn add_entry<D>(topics: Seq<TopicView<D>>, name: Seq<char>, e: EntryView<D>) -> Seq<TopicView<D>> {
    let i = topic_index(topics, name);
    if i >= 0 {
        topics.update(i, TopicView { name: topics[i].name, entries: topics[i].entries.push(e) })
    } else {
        topics.push(TopicView { name, entries: seq![e] })
    }
}

/// Selects the names that begin with `prefix`.
pub open spec fn begins_with(prefix: Seq<char>) -> spec_fn(Seq<char>) -> bool {
    |n: Seq<char>| prefix.is_prefix_of(n)
}

/// Selects the topics whose names do not begin with `prefix`.
pub open spec fn outside_prefix<D>(prefix: Seq<char>) -> spec_fn(TopicView<D>) -> bool {
    |t: TopicView<D>| !prefix.is_prefix_of(t.name)
}

/// The topic names, in insertion order.
pub open spec fn topic_names<D>(topics: Seq<TopicView<D>>) -> Seq<Seq<char>> {
    topics.map_values(|t: TopicView<D>| t.name)
}

/// The names of the topics that begin with `prefix`, in insertion order.
pub open spec fn names_with_prefix<D>(topics: Seq<TopicView<D>>, prefix: Seq<char>) -> Seq<Seq<char>> {
    topic_names(topics).filter(begins_with(prefix))
}

/// The topics whose names do not begin with `prefix`, in insertion order.
pub open spec fn without_prefix<D>(topics: Seq<TopicView<D>>, prefix: Seq<char>) -> Seq<TopicView<D>> {
    topics.filter(outside_prefix(prefix))
}

/// The position of the first topic whose name begins with `prefix`, or -1.
pub open spec fn first_with_prefix<D>(topics: Seq<TopicView<D>>, prefix: Seq<char>) -> int {
    if exists|i: int| 0 <= i < topics.len() && prefix.is_prefix_of(#[trigger] topics[i].name) {
        choose|i: int|
            0 <= i < topics.len() && prefix.is_prefix_of(#[trigger] topics[i].name) && forall|j: int|
                0 <= j < i ==> !prefix.is_prefix_of(#[trigger] topics[j].name)
    } else {
        -1
    }
}

/// The number of subscriptions that a prefix count reports: those of the
/// first topic whose name begins with `prefix`, or 0.
pub open spec fn prefix_count<D>(topics: Seq<TopicView<D>>, prefix: Seq<char>) -> nat {
    let i = first_with_prefix(topics, prefix);
    if i >= 0 {
        topics[i].entries.len()
    } else {
        0
    }
}


/// The subscribers handed out when delivery reaches the topic named `name`:
/// all of its subscribers, in subscription order.
pub open spec fn snapshot_callbacks<D>(topics: Seq<TopicView<D>>, name: Seq<char>) -> Seq<Callback<D>> {
    entries_of(topics, name).map_values(|e: EntryView<D>| e.callback)
}

/// The subscriptions of the topic named `name`, in subscription order; none
/// when there is no such topic.
pub open spec fn entries_of<D>(topics: Seq<TopicView<D>>, name: Seq<char>) -> Seq<EntryView<D>> {
    let i = topic_index(topics, name);
    if i >= 0 {
        topics[i].entries
    } else {
        Seq::empty()
    }
}

/// `callback` is the `k`-th subscriber of the topic named `name`.
pub open spec fn subscribed_at<D>(topics: Seq<TopicView<D>>, name: Seq<char>, k: int, callback: Callback<D>) -> bool {
    0 <= k < entries_of(topics, name).len() && entries_of(topics, name)[k].callback == callback
}

/// Keeps the entries that are not one-shot.
pub open spec fn recurring<D>() -> spec_fn(EntryView<D>) -> bool {
    |e: EntryView<D>| !e.once
}

/// The topics after delivery reaches the topic named `name`: its one-shot
/// entries are gone.
pub open spec fn after_snapshot<D>(topics: Seq<TopicView<D>>, name: Seq<char>) -> Seq<TopicView<D>> {
    let i = topic_index(topics, name);
    if i >= 0 {
        topics.update(i, TopicView { name: topics[i].name, entries: topics[i].entries.filter(recurring()) })
    } else {
        topics
    }
}


/// The topics after delivery has reached each of `levels` in turn.
pub open spec fn after_levels<D>(topics: Seq<TopicView<D>>, levels: Seq<Seq<char>>) -> Seq<TopicView<D>>
    decreases levels.len(),
{
    if levels.len() == 0 {
        topics
    } else {
        after_snapshot(after_levels(topics, levels.drop_last()), levels.last())
    }
}

/// The topics after a delivery of `message`: every topic it reaches has lost
/// its one-shot entries.
pub open spec fn after_delivery<D>(topics: Seq<TopicView<D>>, message: Seq<char>) -> Seq<TopicView<D>> {
    after_levels(topics, delivery_levels(message))
}

/// The topics after the queued `jobs` have been delivered, oldest first.
pub open spec fn after_jobs<D>(topics: Seq<TopicView<D>>, jobs: Seq<JobView<D>>) -> Seq<TopicView<D>>
    decreases jobs.len(),
{
    if jobs.len() == 0 {
        topics
    } else {
        after_delivery(after_jobs(topics, jobs.drop_last()), jobs.last().message)
    }
}

/// The runs of `callbacks`, in order, each handed `message` and `data`.
pub open spec fn runs_of<D>(callbacks: Seq<Callback<D>>, message: Seq<char>, data: D) -> Seq<Note<D>> {
    callbacks.map_values(|cb: Callback<D>| Note { callback: cb, topic: message, data })
}

/// The runs a delivery of `message` makes when it reaches each of `levels` in
/// turn: the subscribers of each level in subscription order, as registered
/// in `topics`, each handed `message` and `data`.
pub open spec fn levels_plan<D>(topics: Seq<TopicView<D>>, levels: Seq<Seq<char>>, message: Seq<char>, data: D) -> Seq<
    Note<D>,
>
    decreases levels.len(),
{
    if levels.len() == 0 {
        Seq::empty()
    } else {
        levels_plan(topics, levels.drop_last(), message, data) + runs_of(
            snapshot_callbacks(topics, levels.last()),
            message,
            data,
        )
    }
}

/// The runs a delivery of `message` with `data` makes: the subscribers of the
/// topic itself, then of each dot-ancestor deepest first, then of `*`, each
/// topic's in subscription order, every one handed `message` and `data`.
pub open spec fn delivery_plan<D>(topics: Seq<TopicView<D>>, message: Seq<char>, data: D) -> Seq<Note<D>> {
    levels_plan(topics, delivery_levels(message), message, data)
}

/// The runs that delivering the queued `jobs`, oldest first, makes; each job
/// sees the topics as the jobs before it left them.
pub open spec fn jobs_plan<D>(topics: Seq<TopicView<D>>, jobs: Seq<JobView<D>>) -> Seq<Note<D>>
    decreases jobs.len(),
{
    if jobs.len() == 0 {
        Seq::empty()
    } else {
        jobs_plan(topics, jobs.drop_last()) + delivery_plan(
            after_jobs(topics, jobs.drop_last()),
            jobs.last().message,
            jobs.last().data,
        )
    }
}

/// Delivery keeps every topic's name in its place.
pub proof fn lemma_after_levels_keeps_names<D>(topics: Seq<TopicView<D>>, levels: Seq<Seq<char>>)
    ensures
        after_levels(topics, levels).len() == topics.len(),
        forall|i: int| 0 <= i < topics.len() ==> #[trigger] after_levels(topics, levels)[i].name == topics[i].name,
    decreases levels.len(),
{
    if levels.len() > 0 {
        lemma_after_levels_keeps_names(topics, levels.drop_last());
    }
}

/// Reaching some levels leaves the subscribers of any other topic as they were.
proof fn lemma_other_level_untouched<D>(topics: Seq<TopicView<D>>, levels: Seq<Seq<char>>, name: Seq<char>)
    requires
        names_distinct(topics),
        !levels.contains(name),
    ensures
        snapshot_callbacks(after_levels(topics, levels), name) == snapshot_callbacks(topics, name),
    decreases levels.len(),
{
    if levels.len() > 0 {
        let prev = levels.drop_last();
        let last = levels.last();
        assert(!prev.contains(name)) by {
            if prev.contains(name) {
                let j = choose|j: int| 0 <= j < prev.len() && prev[j] == name;
                assert(levels[j] == name);
            }
        }
        assert(last != name) by {
            assert(levels[levels.len() - 1] == last);
        }
        lemma_other_level_untouched(topics, prev, name);
        let a = after_levels(topics, prev);
        lemma_after_levels_keeps_names(topics, prev);
        assert(names_distinct(a)) by {
            assert forall|x: int, y: int| 0 <= x < y < a.len() implies #[trigger] a[x].name != #[trigger] a[y].name by {
                assert(topics[x].name != topics[y].name);
            }
        }
        let r = after_snapshot(a, last);
        assert(r == after_levels(topics, levels));
        let t = topic_index(a, last);
        assert(r.len() == a.len());
        assert(forall|x: int| 0 <= x < a.len() ==> #[trigger] r[x].name == a[x].name);
        if has_topic(a, name) {
            let ia = topic_index(a, name);
            assert(0 <= ia < a.len() && a[ia].name == name);
            assert(r[ia].name == name);
            assert(has_topic(r, name));
            let ir = topic_index(r, name);
            assert(0 <= ir < r.len() && r[ir].name == name);
            assert(a[ir].name == name);
            assert(ir == ia) by {
                if ir < ia {
                    assert(a[ir].name != a[ia].name);
                } else if ia < ir {
                    assert(a[ia].name != a[ir].name);
                }
            }
            assert(ia != t);
            assert(r[ia] == a[ia]);
        } else {
            assert(!has_topic(r, name)) by {
                if has_topic(r, name) {
                    let x = choose|x: int| 0 <= x < r.len() && #[trigger] r[x].name == name;
                    assert(a[x].name == name);
                }
            }
        }
    }
}

/// Position `k` of topic `i` holds the subscription with token text `token`.
pub open spec fn holds_token<D>(topics: Seq<TopicView<D>>, i: int, k: int, token: Seq<char>) -> bool {
    &&& 0 <= i < topics.len()
    &&& 0 <= k < topics[i].entries.len()
    &&& topics[i].entries[k].token == token
}

/// Some subscription has token text `token`.
pub open spec fn has_token<D>(topics: Seq<TopicView<D>>, token: Seq<char>) -> bool {
    exists|i: int, k: int| holds_token(topics, i, k, token)
}

/// Position `(i, k)` is the first to hold `token`, scanning topics in order
/// and each topic's subscriptions in order.
pub open spec fn first_holder<D>(topics: Seq<TopicView<D>>, i: int, k: int, token: Seq<char>) -> bool {
    &&& holds_token(topics, i, k, token)
    &&& forall|i2: int, k2: int| #[trigger] holds_token(topics, i2, k2, token) ==> i < i2 || (i == i2 && k <= k2)
}

/// The topics without the subscription at position `k` of topic `i`.
pub open spec fn remove_entry<D>(topics: Seq<TopicView<D>>, i: int, k: int) -> Seq<TopicView<D>> {
    topics.update(i, TopicView { name: topics[i].name, entries: topics[i].entries.remove(k) })
}

/// Keeps the entries of other handles.
pub open spec fn other_handle<D>(handle: u64) -> spec_fn(EntryView<D>) -> bool {
    |e: EntryView<D>| e.handle != handle
}

/// The topics without the subscriptions made under `handle`.
pub open spec fn without_handle<D>(topics: Seq<TopicView<D>>, handle: u64) -> Seq<TopicView<D>> {
    topics.map_values(|t: TopicView<D>| TopicView { name: t.name, entries: t.entries.filter(other_handle(handle)) })
}

/// Some subscription was made under `handle`.
pub open spec fn has_handle<D>(topics: Seq<TopicView<D>>, handle: u64) -> bool {
    exists|i: int, k: int|
        0 <= i < topics.len() && 0 <= k < topics[i].entries.len() && #[trigger] topics[i].entries[k].handle == handle
}

/// Some topic's name begins with `prefix`.
pub open spec fn has_prefixed<D>(topics: Seq<TopicView<D>>, prefix: Seq<char>) -> bool {
    exists|i: int| 0 <= i < topics.len() && prefix.is_prefix_of(#[trigger] topics[i].name)
}

/// Every element of a filtered sequence is an element of the sequence it came from.
proof fn lemma_filter_subset<A>(s: Seq<A>, p: spec_fn(A) -> bool)
    ensures
        forall|k: int| 0 <= k < s.filter(p).len() ==> s.contains(#[trigger] s.filter(p)[k]),
{
    assert forall|k: int| 0 <= k < s.filter(p).len() implies s.contains(#[trigger] s.filter(p)[k]) by {
        assert(s.filter(p).contains(s.filter(p)[k]));
        s.lemma_filter_contains_rev(p, s.filter(p)[k]);
    }
}

/// Filtering keeps distinct keys distinct.
proof fn lemma_filter_keys_distinct<A, K>(s: Seq<A>, p: spec_fn(A) -> bool, key: spec_fn(A) -> K)
    requires
        forall|i: int, j: int| 0 <= i < j < s.len() ==> key(#[trigger] s[i]) != key(#[trigger] s[j]),
    ensures
        forall|i: int, j: int|
            0 <= i < j < s.filter(p).len() ==> key(#[trigger] s.filter(p)[i]) != key(#[trigger] s.filter(p)[j]),
    decreases s.len(),
{
    reveal(Seq::filter);
    if s.len() > 0 {
        let rest = s.drop_last();
        assert forall|i: int, j: int| 0 <= i < j < rest.len() implies key(#[trigger] rest[i]) != key(#[trigger] rest[j]) by {
            assert(rest[i] == s[i] && rest[j] == s[j]);
        }
        lemma_filter_keys_distinct(rest, p, key);
        if p(s.last()) {
            let f = rest.filter(p);
            lemma_filter_subset(rest, p);
            let g = f.push(s.last());
            assert forall|i: int, j: int| 0 <= i < j < g.len() implies key(#[trigger] g[i]) != key(#[trigger] g[j]) by {
                if j == g.len() - 1 {
                    assert(rest.contains(f[i]));
                    let m = choose|m: int| 0 <= m < rest.len() && rest[m] == f[i];
                    assert(s[m] == f[i]);
                    assert(key(s[m]) != key(s[s.len() - 1]));
                } else {
                    assert(g[i] == f[i] && g[j] == f[j]);
                }
            }
        }
    }
}

/// Filtering topics keeps their names distinct.
proof fn lemma_filter_names_distinct<D>(s: Seq<TopicView<D>>, p: spec_fn(TopicView<D>) -> bool)
    requires
        names_distinct(s),
    ensures
        names_distinct(s.filter(p)),
{
    let key = |t: TopicView<D>| t.name;
    assert forall|i: int, j: int| 0 <= i < j < s.len() implies key(#[trigger] s[i]) != key(#[trigger] s[j]) by {
        assert(s[i].name != s[j].name);
    }
    lemma_filter_keys_distinct(s, p, key);
    let f = s.filter(p);
    assert forall|i: int, j: int| 0 <= i < j < f.len() implies #[trigger] f[i].name != #[trigger] f[j].name by {
        assert(key(f[i]) != key(f[j]));
    }
}

/// Filtering subscriptions keeps their counter values distinct.
proof fn lemma_filter_uids_distinct<D>(s: Seq<EntryView<D>>, p: spec_fn(EntryView<D>) -> bool)
    requires
        entry_uids_distinct(s),
    ensures
        entry_uids_distinct(s.filter(p)),
{
    let key = |e: EntryView<D>| e.uid;
    assert forall|i: int, j: int| 0 <= i < j < s.len() implies key(#[trigger] s[i]) != key(#[trigger] s[j]) by {
        assert(s[i].uid != s[j].uid);
    }
    lemma_filter_keys_distinct(s, p, key);
    let f = s.filter(p);
    assert forall|i: int, j: int| 0 <= i < j < f.len() implies #[trigger] f[i].uid != #[trigger] f[j].uid by {
        assert(key(f[i]) != key(f[j]));
    }
}

/// Within one topic, counter values are distinct too.
proof fn lemma_topic_uids_distinct<D>(ts: Seq<TopicView<D>>, i: int)
    requires
        uids_distinct(ts),
        0 <= i < ts.len(),
    ensures
        entry_uids_distinct(ts[i].entries),
{
    assert forall|k: int, l: int| 0 <= k < l < ts[i].entries.len() implies #[trigger] ts[i].entries[k].uid
        != #[trigger] ts[i].entries[l].uid by {
        assert(ts[i].entries[k].uid != ts[i].entries[l].uid);
    }
}

/// Shrinking each topic's subscriptions to distinct ones it already had keeps
/// counter values distinct across the registry.
proof fn lemma_shrunk_entries_uids_distinct<D>(ts: Seq<TopicView<D>>, nts: Seq<TopicView<D>>)
    requires
        uids_distinct(ts),
        nts.len() == ts.len(),
        forall|i: int| 0 <= i < nts.len() ==> entry_uids_distinct(#[trigger] nts[i].entries),
        forall|i: int, k: int|
            0 <= i < nts.len() && 0 <= k < nts[i].entries.len() ==> ts[i].entries.contains(#[trigger] nts[i].entries[k]),
    ensures
        uids_distinct(nts),
{
    assert forall|i: int, k: int, j: int, l: int|
        0 <= i < nts.len() && 0 <= k < nts[i].entries.len() && 0 <= j < nts.len() && 0 <= l < nts[j].entries.len() && (i
            != j || k != l) implies #[trigger] nts[i].entries[k].uid != #[trigger] nts[j].entries[l].uid by {
        if i == j {
            assert(entry_uids_distinct(nts[i].entries));
            if k < l {
                assert(nts[i].entries[k].uid != nts[i].entries[l].uid);
            } else {
                assert(nts[i].entries[l].uid != nts[i].entries[k].uid);
            }
        } else {
            assert(ts[i].entries.contains(nts[i].entries[k]));
            assert(ts[j].entries.contains(nts[j].entries[l]));
            let m = choose|m: int| 0 <= m < ts[i].entries.len() && ts[i].entries[m] == nts[i].entries[k];
            let n = choose|n: int| 0 <= n < ts[j].entries.len() && ts[j].entries[n] == nts[j].entries[l];
            assert(ts[i].entries[m].uid != ts[j].entries[n].uid);
        }
    }
}

impl<D> BusView<D> {
    /// An entry is consistent with the counters: its token is the text of its
    /// counter value, which was handed out already, and its handle, handed out
    /// with it, is one more.
    pub open spec fn entry_ok(self, e: EntryView<D>) -> bool {
        &&& e.uid < self.next_uid
        &&& e.token == uid_text(e.uid as nat)
        &&& 1 <= e.handle <= self.last_handle
        &&& e.handle == e.uid + 1
    }

    /// Well-formedness: the two counters advance together, topic names are
    /// distinct, no two subscriptions share a counter value, and every entry
    /// is consistent with the counters.
    pub open spec fn wf(self) -> bool {
        &&& self.last_handle == self.next_uid
        &&& names_distinct(self.topics)
        &&& uids_distinct(self.topics)
        &&& forall|i: int, k: int|
            0 <= i < self.topics.len() && 0 <= k < self.topics[i].entries.len() ==> self.entry_ok(
                #[trigger] self.topics[i].entries[k],
            )
    }

    /// Both counters can still advance.
    pub open spec fn can_subscribe(self) -> bool {
        self.next_uid < u64::MAX && self.last_handle < u64::MAX
    }

    /// The entry the next subscription creates.
    pub open spec fn next_entry(self, callback: Callback<D>, once: bool) -> EntryView<D> {
        EntryView {
            token: uid_text(self.next_uid as nat),
            uid: self.next_uid,
            handle: (self.last_handle + 1) as u64,
            once,
            callback,
        }
    }

    /// The registry after subscribing `callback` to the topic named `name`.
    pub open spec fn subscribed(self, name: Seq<char>, callback: Callback<D>, once: bool) -> BusView<D> {
        BusView {
            topics: add_entry(self.topics, name, self.next_entry(callback, once)),
            next_uid: (self.next_uid + 1) as u64,
            last_handle: (self.last_handle + 1) as u64,
            deferred: self.deferred,
            immediate_exceptions: self.immediate_exceptions,
            delivered: self.delivered,
        }
    }

    /// The same registry with other topics.
    pub open spec fn with_topics(self, topics: Seq<TopicView<D>>) -> BusView<D> {
        BusView {
            topics,
            next_uid: self.next_uid,
            last_handle: self.last_handle,
            deferred: self.deferred,
            immediate_exceptions: self.immediate_exceptions,
            delivered: self.delivered,
        }
    }

    /// The same registry with another deferred queue.
    pub open spec fn with_deferred(self, deferred: Seq<JobView<D>>) -> BusView<D> {
        BusView {
            topics: self.topics,
            next_uid: self.next_uid,
            last_handle: self.last_handle,
            deferred,
            immediate_exceptions: self.immediate_exceptions,
            delivered: self.delivered,
        }
    }

    /// The same registry with another record of subscriber runs.
    pub open spec fn with_delivered(self, delivered: Seq<Note<D>>) -> BusView<D> {
        BusView {
            topics: self.topics,
            next_uid: self.next_uid,
            last_handle: self.last_handle,
            deferred: self.deferred,
            immediate_exceptions: self.immediate_exceptions,
            delivered,
        }
    }
}

/// Which entries a pass over a topic drops.
enum Sieve {
    /// Drop one-shot entries.
    DropOnce,
    /// Drop the entries made under this handle.
    DropHandle(u64),
}

impl Sieve {
    /// The entries this sieve keeps.
    spec fn keeps<D>(self) -> spec_fn(EntryView<D>) -> bool {
        match self {
            Sieve::DropOnce => recurring(),
            Sieve::DropHandle(h) => other_handle(h),
        }
    }

    fn keeps_entry<D>(&self, e: &Entry<D>) -> (r: bool)
        ensures
            r == (self.keeps())(e@),
    {
        match self {
            Sieve::DropOnce => !e.once,
            Sieve::DropHandle(h) => e.handle != *h,
        }
    }
}

#[verifier::reject_recursive_types(D)]
struct Entry<D> {
    token: Token,
    uid: u64,
    handle: u64,
    once: bool,
    callback: Callback<D>,
}

impl<D> View for Entry<D> {
    type V = EntryView<D>;

    closed spec fn view(&self) -> EntryView<D> {
        EntryView {
            token: self.token@,
            uid: self.uid,
            handle: self.handle,
            once: self.once,
            callback: self.callback,
        }
    }
}

#[verifier::reject_recursive_types(D)]
struct TopicSubs<D> {
    name: String,
    entries: Vec<Entry<D>>,
}

impl<D> View for TopicSubs<D> {
    type V = TopicView<D>;

    closed spec fn view(&self) -> TopicView<D> {
        TopicView { name: self.name@, entries: self.entries@.map_values(|e: Entry<D>| e@) }
    }
}

/// A queued deferred delivery: the leaf topic, the data, and the
/// immediate-exceptions flag as it was when the message was published.
pub struct DeferredJob<D> {
    pub message: String,
    pub data: D,
    pub immediate_exceptions: bool,
}

impl<D> View for DeferredJob<D> {
    type V = JobView<D>;

    open spec fn view(&self) -> JobView<D> {
        JobView { message: self.message@, data: self.data, immediate_exceptions: self.immediate_exceptions }
    }
}

/// An in-process hierarchical-topic publish/subscribe bus.
///
/// `D` is the payload type passed to subscribers. Publishing a topic reaches
/// its subscribers, those of each dot-ancestor (deepest first) and then those
/// of the wildcard topic `*`.
///
/// Operations take `&mut self`, so a subscriber cannot reach this bus while it
/// delivers; [`crate::SharedPubSub`] is the same bus behind a shared
/// reference, for subscribers that call back into it.
///
/// A panicking subscriber propagates out of the publish or drain that called
/// it, and the subscribers after it in that delivery do not run. The
/// immediate-exceptions flag is kept, read at publish time and captured by
/// deferred deliveries, but this crate does not catch unwinding, so it does
/// not change how a panic travels.
#[verifier::reject_recursive_types(D)]
pub struct PubSub<D> {
    topics: Vec<TopicSubs<D>>,
    next_uid: u64,
    last_handle: u64,
    deferred: Vec<DeferredJob<D>>,
    immediate_exceptions: bool,
    delivered: Ghost<Seq<Note<D>>>,
}

impl<D> View for PubSub<D> {
    type V = BusView<D>;

    closed spec fn view(&self) -> BusView<D> {
        BusView {
            topics: self.topics@.map_values(|t: TopicSubs<D>| t@),
            next_uid: self.next_uid,
            last_handle: self.last_handle,
            deferred: self.deferred@.map_values(|j: DeferredJob<D>| j@),
            immediate_exceptions: self.immediate_exceptions,
            delivered: self.delivered@,
        }
    }
}

impl<D> Default for PubSub<D> {
    /// An empty bus, as [`PubSub::new`] makes it.
    fn default() -> (bus: Self)
        ensures
            bus@.wf(),
            bus@.topics == Seq::<TopicView<D>>::empty(),
            bus@.next_uid == 0,
            bus@.last_handle == 0,
            bus@.deferred == Seq::<JobView<D>>::empty(),
            !bus@.immediate_exceptions,
            bus@.delivered == Seq::<Note<D>>::empty(),
    {
        PubSub::new()
    }
}

impl<D> PubSub<D> {
    /// An empty registry: no topics, no queued deliveries, the first token
    /// will be `uid_0`, and panics are collected rather than immediate.
    pub fn new() -> (r: PubSub<D>)
        ensures
            r@.wf(),
            r@.topics == Seq::<TopicView<D>>::empty(),
            r@.next_uid == 0,
            r@.last_handle == 0,
            r@.deferred == Seq::<JobView<D>>::empty(),
            !r@.immediate_exceptions,
            r@.delivered == Seq::<Note<D>>::empty(),
    {
        let r = PubSub {
            topics: Vec::new(),
            next_uid: 0,
            last_handle: 0,
            deferred: Vec::new(),
            immediate_exceptions: false,
            delivered: Ghost(Seq::empty()),
        };
        assert(r@.topics =~= Seq::<TopicView<D>>::empty());
        assert(r@.deferred =~= Seq::<JobView<D>>::empty());
        r
    }

    /// The position of the topic named `name`.
    fn find_topic(&self, name: &String) -> (r: Option<usize>)
        requires
            self@.wf(),
        ensures
            match r {
                Some(i) => i < self@.topics.len() && self@.topics[i as int].name == name@ && topic_index(
                    self@.topics,
                    name@,
                ) == i,
                None => !has_topic(self@.topics, name@) && topic_index(self@.topics, name@) == -1,
            },
    {
        let ghost ts = self@.topics;
        let mut i: usize = 0;
        while i < self.topics.len()
            invariant
                ts == self@.topics,
                self@.wf(),
                i <= self.topics.len(),
                forall|j: int| 0 <= j < i ==> ts[j].name != name@,
            decreases self.topics.len() - i,
        {
            assert(ts[i as int] == self.topics@[i as int]@);
            if self.topics[i].name == *name {
                proof {
                    assert(ts[i as int].name == name@);
                    assert(has_topic(ts, name@));
                    let c = choose|c: int| 0 <= c < ts.len() && #[trigger] ts[c].name == name@;
                    if c != i {
                        assert(names_distinct(ts));
                        if c < i {
                            assert(ts[c].name != ts[i as int].name);
                        } else {
                            assert(ts[i as int].name != ts[c].name);
                        }
                    }
                }
                return Some(i);
            }
            i = i + 1;
        }
        None
    }

    /// Whether another subscription can still be made: the token and handle
    /// counters have not reached their limit.
    pub fn can_subscribe(&self) -> (r: bool)
        ensures
            r == self@.can_subscribe(),
    {
        self.next_uid < u64::MAX && self.last_handle < u64::MAX
    }

    /// A second handle on every registered subscriber, topic by topic in
    /// subscription order.
    pub(crate) fn subscribers(&self) -> (cbs: Vec<Callback<D>>)
        ensures
            forall|i: int, k: int|
                0 <= i < self@.topics.len() && 0 <= k < self@.topics[i].entries.len() ==> cbs@.contains(
                    #[trigger] self@.topics[i].entries[k].callback,
                ),
    {
        let ghost ts = self@.topics;
        let mut cbs: Vec<Callback<D>> = Vec::new();
        let mut i: usize = 0;
        while i < self.topics.len()
            invariant
                ts == self@.topics,
                i <= self.topics.len(),
                forall|a: int, b: int|
                    0 <= a < i && 0 <= b < ts[a].entries.len() ==> cbs@.contains(#[trigger] ts[a].entries[b].callback),
            decreases self.topics.len() - i,
        {
            let entries = &self.topics[i].entries;
            assert(ts[i as int] == self.topics@[i as int]@);
            let ghost before = cbs@;
            let mut k: usize = 0;
            while k < entries.len()
                invariant
                    ts == self@.topics,
                    i < self.topics.len(),
                    *entries == self.topics@[i as int].entries,
                    ts[i as int] == self.topics@[i as int]@,
                    k <= entries.len(),
                    before.len() <= cbs@.len(),
                    forall|m: int| 0 <= m < before.len() ==> cbs@[m] == before[m],
                    forall|a: int, b: int|
                        0 <= a < i && 0 <= b < ts[a].entries.len() ==> before.contains(#[trigger] ts[a].entries[b].callback),
                    forall|b: int| 0 <= b < k ==> cbs@.contains(#[trigger] ts[i as int].entries[b].callback),
                decreases entries.len() - k,
            {
                assert(ts[i as int].entries[k as int] == entries@[k as int]@);
                let ghost prev = cbs@;
                cbs.push(share(&entries[k].callback));
                assert(cbs@[cbs@.len() - 1] == ts[i as int].entries[k as int].callback);
                assert forall|b: int| 0 <= b < k + 1 implies cbs@.contains(#[trigger] ts[i as int].entries[b].callback) by {
                    if b < k {
                        let m = choose|m: int| 0 <= m < prev.len() && prev[m] == ts[i as int].entries[b].callback;
                        assert(cbs@[m] == prev[m]);
                    }
                }
                k = k + 1;
            }
            proof {
                assert forall|a: int, b: int|
                    0 <= a < i + 1 && 0 <= b < ts[a].entries.len() implies cbs@.contains(
                    #[trigger] ts[a].entries[b].callback,
                ) by {
                    if a < i {
                        let m = choose|m: int| 0 <= m < before.len() && before[m] == ts[a].entries[b].callback;
                        assert(cbs@[m] == before[m]);
                    }
                }
            }
            i = i + 1;
        }
        cbs
    }

    /// Adds a subscription of `callback` to the topic named `topic`, one-shot
    /// when `once` holds, and returns its token and handle.
    ///
    /// The topic need not exist first; a new topic goes after the others.
    fn subscribe_entry(&mut self, topic: String, callback: Callback<D>, once: bool) -> (r: (Token, u64))
        requires
            old(self)@.wf(),
            old(self)@.can_subscribe(),
        ensures
            final(self)@ == old(self)@.subscribed(topic@, callback, once),
            final(self)@.wf(),
            r.0@ == uid_text(old(self)@.next_uid as nat),
            r.1 == old(self)@.last_handle + 1,
    {
        let ghost old_view = self@;
        let uid = self.next_uid;
        let handle = self.last_handle + 1;
        let token = Token::from_uid(uid);
        let entry = Entry { token: token.duplicate(), uid, handle, once, callback };
        let ghost e = entry@;
        assert(e == old_view.next_entry(callback, once));
        match self.find_topic(&topic) {
            Some(i) => {
                let mut t = self.topics.remove(i);
                let ghost tv = t@;
                t.entries.push(entry);
                assert(t@.entries =~= tv.entries.push(e));
                self.topics.insert(i, t);
                assert(self@.topics =~= old_view.topics.update(
                    i as int,
                    TopicView { name: old_view.topics[i as int].name, entries: old_view.topics[i as int].entries.push(e) },
                ));
            },
            None => {
                let mut entries: Vec<Entry<D>> = Vec::new();
                entries.push(entry);
                let t = TopicSubs { name: topic, entries };
                assert(t@.entries =~= seq![e]);
                self.topics.push(t);
                assert(self@.topics =~= old_view.topics.push(TopicView { name: topic@, entries: seq![e] }));
            },
        }
        self.next_uid = uid + 1;
        self.last_handle = handle;
        let ghost nv = self@;
        assert(nv.topics == add_entry(old_view.topics, topic@, e));
        assert(nv.deferred =~= old_view.deferred);
        assert(nv.wf()) by {
            assert forall|i: int, j: int| 0 <= i < j < nv.topics.len() implies #[trigger] nv.topics[i].name
                != #[trigger] nv.topics[j].name by {
                if j == old_view.topics.len() {
                    assert(old_view.topics[i].name != topic@);
                }
            }
            assert forall|i: int, k: int|
                0 <= i < nv.topics.len() && 0 <= k < nv.topics[i].entries.len() implies nv.entry_ok(
                #[trigger] nv.topics[i].entries[k],
            ) by {
                if i < old_view.topics.len() && k < old_view.topics[i].entries.len() {
                    assert(nv.topics[i].entries[k] == old_view.topics[i].entries[k]);
                    assert(old_view.entry_ok(old_view.topics[i].entries[k]));
                }
            }
        }
        (token, handle)
    }

    /// True when the topic named `name` has at least one subscription.
    fn topic_is_live(&self, name: &String) -> (r: bool)
        requires
            self@.wf(),
        ensures
            r == is_live(self@.topics, name@),
    {
        let ghost ts = self@.topics;
        match self.find_topic(name) {
            Some(i) => {
                assert(ts[i as int] == self.topics@[i as int]@);
                let r = self.topics[i].entries.len() > 0;
                proof {
                    if is_live(ts, name@) {
                        let j = choose|j: int| 0 <= j < ts.len() && #[trigger] ts[j].name == name@ && ts[j].entries.len() > 0;
                        if j != i {
                            if j < i {
                                assert(ts[j].name != ts[i as int].name);
                            } else {
                                assert(ts[i as int].name != ts[j].name);
                            }
                        }
                    }
                }
                r
            },
            None => {
                proof {
                    if is_live(ts, name@) {
                        let j = choose|j: int| 0 <= j < ts.len() && #[trigger] ts[j].name == name@ && ts[j].entries.len() > 0;
                        assert(has_topic(ts, name@));
                    }
                }
                false
            },
        }
    }

    /// True if `message`, any of its ancestors, or the wildcard topic has a
    /// subscriber.
    pub fn message_has_subscribers(&self, message: &str) -> (r: bool)
        requires
            self@.wf(),
        ensures
            r == has_subscribers(self@.topics, message@),
    {
        let levels = hierarchy_levels(message);
        let ghost lv = delivery_levels(message@);
        let ghost ts = self@.topics;
        let mut k: usize = 0;
        while k < levels.len()
            invariant
                self@.wf(),
                ts == self@.topics,
                lv == delivery_levels(message@),
                levels@.map_values(|s: String| s@) == lv,
                k <= levels.len(),
                forall|j: int| 0 <= j < k ==> !#[trigger] is_live(ts, lv[j]),
            decreases levels.len() - k,
        {
            assert(lv[k as int] == levels@[k as int]@);
            if self.topic_is_live(&levels[k]) {
                return true;
            }
            k = k + 1;
        }
        false
    }

    /// Publish `data` to `topic` for deferred delivery.
    ///
    /// Queues delivery and returns at once; subscribers run on a later
    /// [`PubSub::process_deferred`]. Returns whether the topic had at least one
    /// matching subscriber (direct, ancestor, or `*`); otherwise nothing is
    /// queued. The queued job records the current immediate-exceptions flag.
    pub fn publish(&mut self, topic: &str, data: D) -> (r: bool)
        requires
            old(self)@.wf(),
        ensures
            r == has_subscribers(old(self)@.topics, topic@),
            final(self)@ == if r {
                old(self)@.with_deferred(
                    old(self)@.deferred.push(
                        JobView { message: topic@, data, immediate_exceptions: old(self)@.immediate_exceptions },
                    ),
                )
            } else {
                old(self)@
            },
            final(self)@.wf(),
    {
        let reachable = self.message_has_subscribers(topic);
        if !reachable {
            return false;
        }
        let job = DeferredJob { message: topic.to_owned(), data, immediate_exceptions: self.immediate_exceptions };
        let ghost before = self@;
        self.deferred.push(job);
        assert(self@.deferred =~= before.deferred.push(job@));
        assert(self@.topics =~= before.topics);
        true
    }

    /// The number of queued deferred deliveries.
    pub fn pending(&self) -> (n: usize)
        ensures
            n == self@.deferred.len(),
    {
        self.deferred.len()
    }

    /// Takes the oldest queued deferred delivery, if any.
    pub fn next_deferred(&mut self) -> (job: Option<DeferredJob<D>>)
        requires
            old(self)@.wf(),
        ensures
            final(self)@.wf(),
            old(self)@.deferred.len() == 0 ==> job is None && final(self)@ == old(self)@,
            old(self)@.deferred.len() > 0 ==> (job matches Some(j) && j@ == old(self)@.deferred[0]
                && final(self)@ == old(self)@.with_deferred(old(self)@.deferred.drop_first())),
    {
        if self.deferred.len() == 0 {
            return None;
        }
        let ghost before = self@;
        let job = self.deferred.remove(0);
        assert(self@.deferred =~= before.deferred.drop_first());
        assert(self@.topics =~= before.topics);
        Some(job)
    }

    /// Sets whether a panicking subscriber stops later deliveries at once.
    pub fn set_immediate_exceptions(&mut self, value: bool)
        requires
            old(self)@.wf(),
        ensures
            final(self)@ == (BusView { immediate_exceptions: value, ..old(self)@ }),
            final(self)@.wf(),
    {
        self.immediate_exceptions = value;
    }

    /// The current immediate-exceptions flag.
    pub fn immediate_exceptions(&self) -> (b: bool)
        ensures
            b == self@.immediate_exceptions,
    {
        self.immediate_exceptions
    }

    /// The entries of `entries` that `sieve` keeps, in order, and whether it
    /// dropped any.
    fn sift_entries(entries: Vec<Entry<D>>, sieve: Sieve) -> (r: (Vec<Entry<D>>, bool))
        ensures
            r.0@.map_values(|e: Entry<D>| e@) == entries@.map_values(|e: Entry<D>| e@).filter(sieve.keeps()),
            r.1 == exists|j: int| 0 <= j < entries@.len() && !(sieve.keeps())(#[trigger] entries@[j]@),
    {
        let ghost orig = entries@.map_values(|e: Entry<D>| e@);
        let ghost ent = entries@;
        let mut rest = entries;
        let mut kept: Vec<Entry<D>> = Vec::new();
        let mut dropped = false;
        let ghost mut done: int = 0;
        assert(orig.take(0) =~= Seq::<EntryView<D>>::empty());
        assert(orig.take(0).filter(sieve.keeps()) =~= Seq::<EntryView<D>>::empty()) by {
            reveal(Seq::filter);
        }
        assert(rest@.map_values(|e: Entry<D>| e@) =~= orig.skip(0));
        while rest.len() > 0
            invariant
                0 <= done <= orig.len(),
                kept@.map_values(|e: Entry<D>| e@) == orig.take(done).filter(sieve.keeps()),
                rest@.map_values(|e: Entry<D>| e@) == orig.skip(done),
                dropped == exists|j: int| 0 <= j < done && !(sieve.keeps())(#[trigger] orig[j]),
            decreases rest.len(),
        {
            let ghost before_rest = rest@.map_values(|e: Entry<D>| e@);
            let ghost before_kept = kept@.map_values(|e: Entry<D>| e@);
            let ghost r0 = rest@;
            assert(before_rest.len() == r0.len());
            assert(done < orig.len());
            let e = rest.remove(0);
            assert(e@ == orig[done]) by {
                assert(e == r0[0]);
                assert(before_rest[0] == r0[0]@);
                assert(before_rest[0] == orig.skip(done)[0]);
            }
            assert(orig.take(done + 1) =~= orig.take(done).push(orig[done]));
            proof {
                orig.take(done).lemma_filter_push(orig[done], sieve.keeps());
            }
            if sieve.keeps_entry(&e) {
                kept.push(e);
                assert(kept@.map_values(|e: Entry<D>| e@) =~= before_kept.push(orig[done]));
            } else {
                dropped = true;
                assert(kept@.map_values(|e: Entry<D>| e@) =~= before_kept);
            }
            assert(rest@.map_values(|e: Entry<D>| e@) =~= orig.skip(done + 1)) by {
                assert(rest@ =~= r0.remove(0));
                assert forall|j: int| 0 <= j < rest@.len() implies #[trigger] rest@[j]@ == orig.skip(done + 1)[j] by {
                    assert(rest@[j] == r0[j + 1]);
                    assert(before_rest[j + 1] == r0[j + 1]@);
                    assert(before_rest[j + 1] == orig.skip(done)[j + 1]);
                }
            }
            proof {
                done = done + 1;
            }
        }
        assert(orig.take(done) =~= orig);
        proof {
            if dropped {
                let j = choose|j: int| 0 <= j < done && !(sieve.keeps())(#[trigger] orig[j]);
                assert(orig[j] == ent[j]@);
            }
            if exists|j: int| 0 <= j < ent.len() && !(sieve.keeps())(#[trigger] ent[j]@) {
                let j = choose|j: int| 0 <= j < ent.len() && !(sieve.keeps())(#[trigger] ent[j]@);
                assert(orig[j] == ent[j]@);
            }
        }
        (kept, dropped)
    }

    /// Hands out the subscribers of the topic named `level`, in subscription
    /// order, and removes its one-shot entries before any of them runs.
    pub fn snapshot_level(&mut self, level: &String) -> (snapshot: Vec<Callback<D>>)
        requires
            old(self)@.wf(),
        ensures
            snapshot@ == snapshot_callbacks(old(self)@.topics, level@),
            final(self)@ == old(self)@.with_topics(after_snapshot(old(self)@.topics, level@)),
            final(self)@.wf(),
    {
        let ghost old_view = self@;
        let mut snapshot: Vec<Callback<D>> = Vec::new();
        match self.find_topic(level) {
            None => {
                assert(snapshot@ =~= Seq::<Callback<D>>::empty());
                assert(self@ =~= old_view.with_topics(old_view.topics));
            },
            Some(i) => {
                let t = self.topics.remove(i);
                let ghost tv = t@;
                assert(tv == old_view.topics[i as int]);
                let mut k: usize = 0;
                while k < t.entries.len()
                    invariant
                        tv == t@,
                        k <= t.entries.len(),
                        snapshot@ =~= tv.entries.take(k as int).map_values(|e: EntryView<D>| e.callback),
                    decreases t.entries.len() - k,
                {
                    assert(tv.entries[k as int] == t.entries@[k as int]@);
                    snapshot.push(share(&t.entries[k].callback));
                    assert(tv.entries.take(k + 1) =~= tv.entries.take(k as int).push(tv.entries[k as int]));
                    k = k + 1;
                }
                assert(tv.entries.take(k as int) =~= tv.entries);
                let TopicSubs { name, entries } = t;
                let (kept, _) = Self::sift_entries(entries, Sieve::DropOnce);
                self.topics.insert(i, TopicSubs { name, entries: kept });
                let ghost nt = TopicView { name: tv.name, entries: tv.entries.filter(recurring()) };
                assert(self@.topics =~= old_view.topics.update(i as int, nt));
                proof {
                    let nv = self@;
                    lemma_filter_subset(tv.entries, recurring());
                    assert forall|a: int, b: int|
                        0 <= a < nv.topics.len() && 0 <= b < nv.topics[a].entries.len() implies nv.entry_ok(
                        #[trigger] nv.topics[a].entries[b],
                    ) by {
                        if a == i {
                            assert(tv.entries.contains(nv.topics[a].entries[b]));
                            let m = choose|m: int| 0 <= m < tv.entries.len() && tv.entries[m] == nv.topics[a].entries[b];
                            assert(old_view.entry_ok(old_view.topics[a].entries[m]));
                        } else {
                            assert(old_view.entry_ok(old_view.topics[a].entries[b]));
                        }
                    }
                    assert forall|a: int, b: int| 0 <= a < b < nv.topics.len() implies #[trigger] nv.topics[a].name
                        != #[trigger] nv.topics[b].name by {
                        assert(old_view.topics[a].name != old_view.topics[b].name);
                    }
                    let ts = old_view.topics;
                    lemma_topic_uids_distinct(ts, i as int);
                    lemma_filter_uids_distinct(tv.entries, recurring());
                    assert forall|a: int| 0 <= a < nv.topics.len() implies entry_uids_distinct(#[trigger] nv.topics[a].entries) by {
                        if a != i {
                            lemma_topic_uids_distinct(ts, a);
                        }
                    }
                    assert forall|a: int, b: int|
                        0 <= a < nv.topics.len() && 0 <= b < nv.topics[a].entries.len() implies ts[a].entries.contains(
                        #[trigger] nv.topics[a].entries[b],
                    ) by {
                        if a != i {
                            assert(ts[a].entries[b] == nv.topics[a].entries[b]);
                        }
                    }
                    lemma_shrunk_entries_uids_distinct(ts, nv.topics);
                }
            },
        }
        snapshot
    }

    /// Removes the single subscription identified by `token`: the first one
    /// that holds it, scanning topics in order. Returns the token when it
    /// matched, else `NoMatch`. An emptied topic stays registered.
    pub fn unsubscribe(&mut self, token: &Token) -> (r: Unsubscribed)
        requires
            old(self)@.wf(),
        ensures
            final(self)@.wf(),
            (r matches Unsubscribed::Token(_)) == has_token(old(self)@.topics, token@),
            r matches Unsubscribed::Token(t) ==> t@ == token@ && exists|i: int, k: int|
                first_holder(old(self)@.topics, i, k, token@) && final(self)@ == old(self)@.with_topics(
                    remove_entry(old(self)@.topics, i, k),
                ),
            !has_token(old(self)@.topics, token@) ==> r is NoMatch && final(self)@ == old(self)@,
    {
        let ghost old_view = self@;
        let ghost ts = self@.topics;
        let mut i: usize = 0;
        while i < self.topics.len()
            invariant
                self@ == old_view,
                old_view == old(self)@,
                ts == old_view.topics,
                old_view.wf(),
                i <= ts.len(),
                forall|i2: int, k2: int| 0 <= i2 < i ==> !#[trigger] holds_token(ts, i2, k2, token@),
            decreases self.topics.len() - i,
        {
            let n = self.topics[i].entries.len();
            assert(ts[i as int] == self.topics@[i as int]@);
            let mut k: usize = 0;
            while k < n
                invariant
                    self@ == old_view,
                    old_view == old(self)@,
                    ts == old_view.topics,
                    old_view.wf(),
                    forall|i2: int, k2: int| 0 <= i2 < i ==> !#[trigger] holds_token(ts, i2, k2, token@),
                    i < self.topics.len(),
                    n == self.topics@[i as int].entries.len(),
                    ts[i as int] == self.topics@[i as int]@,
                    k <= n,
                    forall|k2: int| 0 <= k2 < k ==> !#[trigger] holds_token(ts, i as int, k2, token@),
                decreases n - k,
            {
                assert(ts[i as int].entries[k as int] == self.topics@[i as int].entries@[k as int]@);
                if self.topics[i].entries[k].token.same_as(token) {
                    let t = self.topics.remove(i);
                    let TopicSubs { name, mut entries } = t;
                    let ghost ev = entries@;
                    entries.remove(k);
                    self.topics.insert(i, TopicSubs { name, entries });
                    proof {
                        assert(holds_token(ts, i as int, k as int, token@));
                        assert forall|i2: int, k2: int| #[trigger] holds_token(ts, i2, k2, token@) implies (i < i2 || (
                        i == i2 && k <= k2)) by {
                            if i2 < i {
                                assert(!holds_token(ts, i2, k2, token@));
                            } else if i2 == i && k2 < k {
                                assert(!holds_token(ts, i2, k2, token@));
                            }
                        }
                        assert(first_holder(ts, i as int, k as int, token@));
                        assert(self@.topics[i as int].entries =~= ts[i as int].entries.remove(k as int));
                        assert(self@.topics =~= remove_entry(ts, i as int, k as int));
                        assert(self@ =~= old_view.with_topics(remove_entry(ts, i as int, k as int)));
                        let nv = self@;
                        assert forall|a: int, b: int|
                            0 <= a < nv.topics.len() && 0 <= b < nv.topics[a].entries.len() implies nv.entry_ok(
                            #[trigger] nv.topics[a].entries[b],
                        ) by {
                            if a == i && b >= k {
                                assert(nv.topics[a].entries[b] == ts[a].entries[b + 1]);
                                assert(old_view.entry_ok(ts[a].entries[b + 1]));
                            } else {
                                assert(nv.topics[a].entries[b] == ts[a].entries[b]);
                                assert(old_view.entry_ok(ts[a].entries[b]));
                            }
                        }
                        assert forall|a: int, b: int| 0 <= a < b < nv.topics.len() implies #[trigger] nv.topics[a].name
                            != #[trigger] nv.topics[b].name by {
                            assert(ts[a].name != ts[b].name);
                        }
                    }
                    let found = token.duplicate();
                    proof {
                        assert(has_token(ts, token@));
                        assert(exists|a: int, b: int|
                            first_holder(ts, a, b, token@) && self@ == old_view.with_topics(remove_entry(ts, a, b)));
                    }
                    return Unsubscribed::Token(found);
                }
                k = k + 1;
            }
            proof {
                assert forall|i2: int, k2: int| 0 <= i2 < i + 1 implies !#[trigger] holds_token(ts, i2, k2, token@) by {
                    if i2 == i && 0 <= k2 < n {
                        assert(!holds_token(ts, i2, k2, token@));
                    }
                }
            }
            i = i + 1;
        }
        proof {
            if has_token(ts, token@) {
                let (a, b) = choose|a: int, b: int| holds_token(ts, a, b, token@);
                assert(!holds_token(ts, a, b, token@));
            }
        }
        Unsubscribed::NoMatch
    }

    /// Removes every subscription made under `subscription`'s handle.
    /// Returns `Removed` when it removed at least one, else `NoMatch`.
    pub fn unsubscribe_subscription(&mut self, subscription: &Subscription) -> (r: Unsubscribed)
        requires
            old(self)@.wf(),
        ensures
            final(self)@.wf(),
            final(self)@ == old(self)@.with_topics(without_handle(old(self)@.topics, subscription@.1)),
            r == if has_handle(old(self)@.topics, subscription@.1) {
                Unsubscribed::Removed
            } else {
                Unsubscribed::NoMatch
            },
    {
        let ghost old_view = self@;
        let ghost ts = old_view.topics;
        let h = subscription.handle();
        let ghost target = without_handle(ts, h);
        let mut rest: Vec<TopicSubs<D>> = Vec::new();
        std::mem::swap(&mut rest, &mut self.topics);
        let mut out: Vec<TopicSubs<D>> = Vec::new();
        let mut removed = false;
        let ghost mut done: int = 0;
        assert(rest@.map_values(|t: TopicSubs<D>| t@) =~= ts.skip(0));
        while rest.len() > 0
            invariant
                0 <= done <= ts.len(),
                out@.map_values(|t: TopicSubs<D>| t@) =~= target.take(done),
                rest@.map_values(|t: TopicSubs<D>| t@) == ts.skip(done),
                target == without_handle(ts, h),
                removed == exists|a: int, b: int|
                    0 <= a < done && 0 <= b < ts[a].entries.len() && #[trigger] ts[a].entries[b].handle == h,
            decreases rest.len(),
        {
            let ghost before_rest = rest@.map_values(|t: TopicSubs<D>| t@);
            let ghost before_out = out@.map_values(|t: TopicSubs<D>| t@);
            let ghost r0 = rest@;
            assert(before_rest.len() == r0.len());
            assert(done < ts.len());
            let t = rest.remove(0);
            assert(t@ == ts[done]) by {
                assert(t == r0[0]);
                assert(before_rest[0] == r0[0]@);
                assert(before_rest[0] == ts.skip(done)[0]);
            }
            let ghost tv = t@;
            let TopicSubs { name, entries } = t;
            let ghost ent = entries@;
            assert(ent.map_values(|e: Entry<D>| e@) == ts[done].entries);
            let (kept, dropped) = Self::sift_entries(entries, Sieve::DropHandle(h));
            if dropped {
                removed = true;
            }
            out.push(TopicSubs { name, entries: kept });
            assert(out@.map_values(|t: TopicSubs<D>| t@) =~= target.take(done + 1)) by {
                assert(Sieve::DropHandle(h).keeps::<D>() == other_handle::<D>(h));
                assert(target[done] == TopicView { name: ts[done].name, entries: ts[done].entries.filter(other_handle(h)) });
                assert(out@.map_values(|t: TopicSubs<D>| t@) =~= before_out.push(target[done]));
                assert(target.take(done + 1) =~= target.take(done).push(target[done]));
            }
            proof {
                if dropped {
                    let j = choose|j: int| 0 <= j < ent.len() && !(Sieve::DropHandle(h).keeps::<D>())(#[trigger] ent[j]@);
                    assert(ts[done].entries[j] == ent[j]@);
                    assert(ts[done].entries[j].handle == h);
                }
                if exists|b: int| 0 <= b < ts[done].entries.len() && #[trigger] ts[done].entries[b].handle == h {
                    let b = choose|b: int| 0 <= b < ts[done].entries.len() && #[trigger] ts[done].entries[b].handle == h;
                    assert(ts[done].entries[b] == ent[b]@);
                    assert(!(Sieve::DropHandle(h).keeps::<D>())(ent[b]@));
                }
            }
            assert(rest@.map_values(|t: TopicSubs<D>| t@) =~= ts.skip(done + 1)) by {
                assert(rest@ =~= r0.remove(0));
                assert forall|j: int| 0 <= j < rest@.len() implies #[trigger] rest@[j]@ == ts.skip(done + 1)[j] by {
                    assert(rest@[j] == r0[j + 1]);
                    assert(before_rest[j + 1] == r0[j + 1]@);
                    assert(before_rest[j + 1] == ts.skip(done)[j + 1]);
                }
            }
            proof {
                done = done + 1;
            }
        }
        self.topics = out;
        assert(target.take(done) =~= target);
        assert(self@ =~= old_view.with_topics(target));
        proof {
            let nv = self@;
            assert forall|a: int, b: int|
                0 <= a < nv.topics.len() && 0 <= b < nv.topics[a].entries.len() implies nv.entry_ok(
                #[trigger] nv.topics[a].entries[b],
            ) by {
                lemma_filter_subset(ts[a].entries, other_handle(h));
                assert(ts[a].entries.contains(nv.topics[a].entries[b]));
                let m = choose|m: int| 0 <= m < ts[a].entries.len() && ts[a].entries[m] == nv.topics[a].entries[b];
                assert(old_view.entry_ok(ts[a].entries[m]));
            }
            assert forall|a: int, b: int| 0 <= a < b < nv.topics.len() implies #[trigger] nv.topics[a].name
                != #[trigger] nv.topics[b].name by {
                assert(ts[a].name != ts[b].name);
            }
            assert forall|a: int| 0 <= a < nv.topics.len() implies entry_uids_distinct(#[trigger] nv.topics[a].entries) by {
                lemma_topic_uids_distinct(ts, a);
                lemma_filter_uids_distinct(ts[a].entries, other_handle(h));
            }
            assert forall|a: int, b: int|
                0 <= a < nv.topics.len() && 0 <= b < nv.topics[a].entries.len() implies ts[a].entries.contains(
                #[trigger] nv.topics[a].entries[b],
            ) by {
                lemma_filter_subset(ts[a].entries, other_handle(h));
            }
            lemma_shrunk_entries_uids_distinct(ts, nv.topics);
        }
        if removed {
            Unsubscribed::Removed
        } else {
            Unsubscribed::NoMatch
        }
    }

    /// Empties the registry of topics. The token and handle counters and the
    /// deferred queue are untouched.
    pub fn clear_all_subscriptions(&mut self)
        requires
            old(self)@.wf(),
        ensures
            final(self)@ == old(self)@.with_topics(Seq::empty()),
            final(self)@.wf(),
    {
        self.topics = Vec::new();
        assert(self@.topics =~= Seq::<TopicView<D>>::empty());
    }

    /// Removes every topic whose name begins with `prefix` (a raw character
    /// prefix, so `a` also removes `ab`). The other topics keep their order.
    pub fn clear_subscriptions(&mut self, prefix: &str)
        requires
            old(self)@.wf(),
        ensures
            final(self)@ == old(self)@.with_topics(without_prefix(old(self)@.topics, prefix@)),
            final(self)@.wf(),
    {
        let ghost old_view = self@;
        let ghost ts = old_view.topics;
        let ghost keep = outside_prefix::<D>(prefix@);
        let mut rest: Vec<TopicSubs<D>> = Vec::new();
        std::mem::swap(&mut rest, &mut self.topics);
        let mut out: Vec<TopicSubs<D>> = Vec::new();
        let ghost mut done: int = 0;
        assert(rest@.map_values(|t: TopicSubs<D>| t@) =~= ts.skip(0));
        assert(ts.take(0).filter(keep) =~= Seq::<TopicView<D>>::empty()) by {
            reveal(Seq::filter);
        }
        assert(out@.map_values(|t: TopicSubs<D>| t@) =~= Seq::<TopicView<D>>::empty());
        while rest.len() > 0
            invariant
                0 <= done <= ts.len(),
                keep == outside_prefix::<D>(prefix@),
                out@.map_values(|t: TopicSubs<D>| t@) == ts.take(done).filter(keep),
                rest@.map_values(|t: TopicSubs<D>| t@) == ts.skip(done),
            decreases rest.len(),
        {
            let ghost before_rest = rest@.map_values(|t: TopicSubs<D>| t@);
            let ghost before_out = out@.map_values(|t: TopicSubs<D>| t@);
            let ghost r0 = rest@;
            assert(before_rest.len() == r0.len());
            assert(done < ts.len());
            let t = rest.remove(0);
            assert(t@ == ts[done]) by {
                assert(t == r0[0]);
                assert(before_rest[0] == r0[0]@);
                assert(before_rest[0] == ts.skip(done)[0]);
            }
            assert(ts.take(done + 1) =~= ts.take(done).push(ts[done]));
            proof {
                ts.take(done).lemma_filter_push(ts[done], keep);
            }
            if !has_prefix(t.name.as_str(), prefix) {
                out.push(t);
                assert(out@.map_values(|t: TopicSubs<D>| t@) =~= before_out.push(ts[done]));
            } else {
                assert(out@.map_values(|t: TopicSubs<D>| t@) =~= before_out);
            }
            assert(rest@.map_values(|t: TopicSubs<D>| t@) =~= ts.skip(done + 1)) by {
                assert(rest@ =~= r0.remove(0));
                assert forall|j: int| 0 <= j < rest@.len() implies #[trigger] rest@[j]@ == ts.skip(done + 1)[j] by {
                    assert(rest@[j] == r0[j + 1]);
                    assert(before_rest[j + 1] == r0[j + 1]@);
                    assert(before_rest[j + 1] == ts.skip(done)[j + 1]);
                }
            }
            proof {
                done = done + 1;
            }
        }
        self.topics = out;
        assert(ts.take(done) =~= ts);
        assert(self@ =~= old_view.with_topics(without_prefix(ts, prefix@)));
        proof {
            let nv = self@;
            lemma_filter_names_distinct(ts, keep);
            lemma_filter_subset(ts, keep);
            assert forall|a: int, b: int|
                0 <= a < nv.topics.len() && 0 <= b < nv.topics[a].entries.len() implies nv.entry_ok(
                #[trigger] nv.topics[a].entries[b],
            ) by {
                assert(ts.contains(nv.topics[a]));
                let m = choose|m: int| 0 <= m < ts.len() && ts[m] == nv.topics[a];
                assert(old_view.entry_ok(ts[m].entries[b]));
            }
        }
    }

    /// True when some topic's name begins with `prefix`.
    fn any_with_prefix(&self, prefix: &str) -> (r: bool)
        ensures
            r == has_prefixed(self@.topics, prefix@),
    {
        let ghost ts = self@.topics;
        let mut i: usize = 0;
        while i < self.topics.len()
            invariant
                ts == self@.topics,
                i <= self.topics.len(),
                forall|j: int| 0 <= j < i ==> !prefix@.is_prefix_of(#[trigger] ts[j].name),
            decreases self.topics.len() - i,
        {
            assert(ts[i as int] == self.topics@[i as int]@);
            if has_prefix(self.topics[i].name.as_str(), prefix) {
                assert(prefix@.is_prefix_of(ts[i as int].name));
                return true;
            }
            i = i + 1;
        }
        false
    }

    /// Removes a topic and every topic whose name begins with it (a raw
    /// character prefix). Returns `Topic` when some topic's name begins with
    /// `prefix`, else `NoMatch`.
    pub fn unsubscribe_topic(&mut self, prefix: &str) -> (r: Unsubscribed)
        requires
            old(self)@.wf(),
        ensures
            final(self)@.wf(),
            r == if has_prefixed(old(self)@.topics, prefix@) {
                Unsubscribed::Topic
            } else {
                Unsubscribed::NoMatch
            },
            final(self)@ == if has_prefixed(old(self)@.topics, prefix@) {
                old(self)@.with_topics(without_prefix(old(self)@.topics, prefix@))
            } else {
                old(self)@
            },
    {
        if self.any_with_prefix(prefix) {
            self.clear_subscriptions(prefix);
            Unsubscribed::Topic
        } else {
            Unsubscribed::NoMatch
        }
    }

    /// The number of subscriptions of the first topic, in insertion order,
    /// whose name begins with `prefix`; 0 when there is none. Later matching
    /// topics are not counted.
    pub fn count_subscriptions(&self, prefix: &str) -> (n: usize)
        ensures
            n == prefix_count(self@.topics, prefix@),
    {
        let ghost ts = self@.topics;
        let mut i: usize = 0;
        while i < self.topics.len()
            invariant
                ts == self@.topics,
                i <= self.topics.len(),
                forall|j: int| 0 <= j < i ==> !prefix@.is_prefix_of(#[trigger] ts[j].name),
            decreases self.topics.len() - i,
        {
            assert(ts[i as int] == self.topics@[i as int]@);
            if has_prefix(self.topics[i].name.as_str(), prefix) {
                proof {
                    assert(prefix@.is_prefix_of(ts[i as int].name));
                    let c = first_with_prefix(ts, prefix@);
                    assert(0 <= c < ts.len() && prefix@.is_prefix_of(ts[c].name) && forall|j: int|
                        0 <= j < c ==> !prefix@.is_prefix_of(#[trigger] ts[j].name));
                    if c < i {
                        assert(!prefix@.is_prefix_of(ts[c].name));
                    }
                    if c > i {
                        assert(!prefix@.is_prefix_of(ts[i as int].name));
                    }
                }
                return self.topics[i].entries.len();
            }
            i = i + 1;
        }
        0
    }

    /// The names of the topics that begin with `prefix`, in insertion order.
    pub fn get_subscriptions(&self, prefix: &str) -> (names: Vec<String>)
        ensures
            names@.map_values(|s: String| s@) == names_with_prefix(self@.topics, prefix@),
    {
        let ghost ts = self@.topics;
        let ghost all = topic_names(ts);
        let ghost p = begins_with(prefix@);
        let mut out: Vec<String> = Vec::new();
        let mut i: usize = 0;
        assert(all.take(0).filter(p) =~= Seq::<Seq<char>>::empty()) by {
            reveal(Seq::filter);
        }
        assert(out@.map_values(|s: String| s@) =~= Seq::<Seq<char>>::empty());
        while i < self.topics.len()
            invariant
                ts == self@.topics,
                all == topic_names(ts),
                p == begins_with(prefix@),
                i <= self.topics.len(),
                out@.map_values(|s: String| s@) == all.take(i as int).filter(p),
            decreases self.topics.len() - i,
        {
            let ghost before = out@.map_values(|s: String| s@);
            assert(ts[i as int] == self.topics@[i as int]@);
            assert(all[i as int] == ts[i as int].name);
            assert(all.take(i + 1) =~= all.take(i as int).push(all[i as int]));
            proof {
                all.take(i as int).lemma_filter_push(all[i as int], p);
            }
            if has_prefix(self.topics[i].name.as_str(), prefix) {
                out.push(self.topics[i].name.clone());
                assert(out@.map_values(|s: String| s@) =~= before.push(all[i as int]));
            } else {
                assert(out@.map_values(|s: String| s@) =~= before);
            }
            i = i + 1;
        }
        assert(all.take(i as int) =~= all);
        out
    }

    /// Subscribe `func` to `topic`. Returns a [`Token`] for later removal.
    ///
    /// Each call gets a fresh, unique token, even for the same callback on the
    /// same topic. The topic does not need to exist first.
    pub fn subscribe<F>(&mut self, topic: &str, func: F) -> (token: Token) where F: Fn(&str, &D) + 'static
        requires
            old(self)@.wf(),
            old(self)@.can_subscribe(),
        ensures
            final(self)@.wf(),
            token@ == uid_text(old(self)@.next_uid as nat),
            exists|cb: Callback<D>| final(self)@ == #[trigger] old(self)@.subscribed(topic@, cb, false),
    {
        let callback = callback_from(func);
        let (token, _) = self.subscribe_entry(topic.to_owned(), callback, false);
        token
    }

    /// Subscribe and get back a [`Subscription`] that holds the token and the
    /// handle grouping this call's entries, for
    /// [`PubSub::unsubscribe_subscription`].
    pub fn subscribe_handle<F>(&mut self, topic: &str, func: F) -> (sub: Subscription) where
        F: Fn(&str, &D) + 'static,
        requires
            old(self)@.wf(),
            old(self)@.can_subscribe(),
        ensures
            final(self)@.wf(),
            sub@ == (uid_text(old(self)@.next_uid as nat), (old(self)@.last_handle + 1) as u64),
            sub@.1 == old(self)@.next_uid + 1,
            exists|cb: Callback<D>| final(self)@ == #[trigger] old(self)@.subscribed(topic@, cb, false),
    {
        let callback = callback_from(func);
        let (token, handle) = self.subscribe_entry(topic.to_owned(), callback, false);
        Subscription::new(token, handle)
    }

    /// Subscribe `func` to the wildcard topic `*`. It then runs for every
    /// published message. Returns the token, like [`PubSub::subscribe`].
    pub fn subscribe_all<F>(&mut self, func: F) -> (token: Token) where F: Fn(&str, &D) + 'static
        requires
            old(self)@.wf(),
            old(self)@.can_subscribe(),
        ensures
            final(self)@.wf(),
            token@ == uid_text(old(self)@.next_uid as nat),
            exists|cb: Callback<D>| final(self)@ == #[trigger] old(self)@.subscribed(wildcard(), cb, false),
    {
        proof {
            reveal_strlit("*");
        }
        assert(ALL_SUBSCRIBING@ =~= wildcard());
        self.subscribe(ALL_SUBSCRIBING, func)
    }

    /// Subscribe `func` to fire at most once: delivery removes the entry
    /// before it calls `func`.
    pub fn subscribe_once<F>(&mut self, topic: &str, func: F) -> (token: Token) where F: Fn(&str, &D) + 'static
        requires
            old(self)@.wf(),
            old(self)@.can_subscribe(),
        ensures
            final(self)@.wf(),
            token@ == uid_text(old(self)@.next_uid as nat),
            exists|cb: Callback<D>| final(self)@ == #[trigger] old(self)@.subscribed(topic@, cb, true),
    {
        let callback = callback_from(func);
        let (token, _) = self.subscribe_entry(topic.to_owned(), callback, true);
        token
    }

    /// Runs `callback` with `(message, data)` and records the run.
    fn run_subscriber(&mut self, callback: &Callback<D>, message: &str, data: &D)
        ensures
            final(self)@ == old(self)@.with_delivered(
                old(self)@.delivered.push(Note { callback: *callback, topic: message@, data: *data }),
            ),
    {
        callback.notify(message, data);
        self.delivered = Ghost(self.delivered@.push(Note { callback: *callback, topic: message@, data: *data }));
    }

    /// Delivers `data` to every subscriber of `message`, its ancestors and the
    /// wildcard, level by level: each level's subscribers are handed out, and
    /// its one-shot entries removed, before any of them runs. Every subscriber
    /// is handed `message` itself, whichever level it was reached through.
    fn deliver(&mut self, message: &str, data: &D, immediate_exceptions: bool)
        requires
            old(self)@.wf(),
        ensures
            final(self)@.wf(),
            final(self)@ == old(self)@.with_topics(after_delivery(old(self)@.topics, message@)).with_delivered(
                old(self)@.delivered + delivery_plan(old(self)@.topics, message@, *data),
            ),
    {
        let _ = immediate_exceptions;
        let levels = hierarchy_levels(message);
        let ghost lv = delivery_levels(message@);
        let ghost start = self@;
        proof {
            lemma_delivery_levels_distinct(message@);
        }
        let mut i: usize = 0;
        assert(lv.take(0) =~= Seq::<Seq<char>>::empty());
        assert(start.delivered + levels_plan(start.topics, lv.take(0), message@, *data) =~= start.delivered);
        assert(self@ =~= start.with_topics(after_levels(start.topics, lv.take(0))).with_delivered(
            start.delivered + levels_plan(start.topics, lv.take(0), message@, *data),
        ));
        while i < levels.len()
            invariant
                self@.wf(),
                start.wf(),
                levels@.map_values(|s: String| s@) == lv,
                lv == delivery_levels(message@),
                forall|x: int, y: int| 0 <= x < y < lv.len() ==> #[trigger] lv[x] != #[trigger] lv[y],
                i <= levels.len(),
                self@ == start.with_topics(after_levels(start.topics, lv.take(i as int))).with_delivered(
                    start.delivered + levels_plan(start.topics, lv.take(i as int), message@, *data),
                ),
            decreases levels.len() - i,
        {
            let ghost before = self@;
            let ghost level = lv[i as int];
            assert(levels@[i as int]@ == level);
            let snapshot = self.snapshot_level(&levels[i]);
            proof {
                assert(!lv.take(i as int).contains(level)) by {
                    if lv.take(i as int).contains(level) {
                        let j = choose|j: int| 0 <= j < lv.take(i as int).len() && lv.take(i as int)[j] == level;
                        assert(lv[j] != lv[i as int]);
                    }
                }
                lemma_other_level_untouched(start.topics, lv.take(i as int), level);
            }
            let ghost runs = runs_of(snapshot@, message@, *data);
            let ghost mid = self@;
            let mut j: usize = 0;
            while j < snapshot.len()
                invariant
                    j <= snapshot.len(),
                    runs == runs_of(snapshot@, message@, *data),
                    self@ == mid.with_delivered(mid.delivered + runs.take(j as int)),
                decreases snapshot.len() - j,
            {
                self.run_subscriber(&snapshot[j], message, data);
                assert(runs.take(j + 1) =~= runs.take(j as int).push(runs[j as int]));
                assert(mid.delivered + runs.take(j + 1) =~= (mid.delivered + runs.take(j as int)).push(runs[j as int]));
                j = j + 1;
            }
            proof {
                assert(runs.take(j as int) =~= runs);
                assert(lv.take(i + 1).drop_last() =~= lv.take(i as int));
                assert(lv.take(i + 1).last() == level);
                assert(start.delivered + levels_plan(start.topics, lv.take(i + 1), message@, *data) =~= start.delivered
                    + levels_plan(start.topics, lv.take(i as int), message@, *data) + runs);
            }
            i = i + 1;
        }
        assert(lv.take(i as int) =~= lv);
    }

    /// Publish `data` to `topic` and deliver to all matching subscribers now.
    ///
    /// Returns whether there was at least one matching subscriber, computed
    /// before any subscriber runs; without one nothing happens.
    pub fn publish_sync(&mut self, topic: &str, data: D) -> (r: bool)
        requires
            old(self)@.wf(),
        ensures
            final(self)@.wf(),
            r == has_subscribers(old(self)@.topics, topic@),
            final(self)@ == if r {
                old(self)@.with_topics(after_delivery(old(self)@.topics, topic@)).with_delivered(
                    old(self)@.delivered + delivery_plan(old(self)@.topics, topic@, data),
                )
            } else {
                old(self)@
            },
    {
        let immediate = self.immediate_exceptions;
        if !self.message_has_subscribers(topic) {
            return false;
        }
        self.deliver(topic, &data, immediate);
        true
    }

    /// Runs every queued deferred delivery, oldest first, and empties the
    /// queue. This stands in for an event loop tick.
    pub fn process_deferred(&mut self)
        requires
            old(self)@.wf(),
        ensures
            final(self)@.wf(),
            final(self)@ == old(self)@.with_topics(after_jobs(old(self)@.topics, old(self)@.deferred)).with_deferred(
                Seq::empty(),
            ).with_delivered(old(self)@.delivered + jobs_plan(old(self)@.topics, old(self)@.deferred)),
    {
        let ghost start = self@;
        let n = self.deferred.len();
        let mut done: usize = 0;
        assert(start.deferred.take(0) =~= Seq::<JobView<D>>::empty());
        assert(start.deferred.skip(0) =~= start.deferred);
        assert(start.delivered + jobs_plan(start.topics, start.deferred.take(0)) =~= start.delivered);
        assert(self@ =~= start.with_topics(after_jobs(start.topics, start.deferred.take(0))).with_deferred(
            start.deferred.skip(0),
        ).with_delivered(start.delivered + jobs_plan(start.topics, start.deferred.take(0))));
        while done < n
            invariant
                self@.wf(),
                n == start.deferred.len(),
                done <= n,
                self@ == start.with_topics(after_jobs(start.topics, start.deferred.take(done as int))).with_deferred(
                    start.deferred.skip(done as int),
                ).with_delivered(start.delivered + jobs_plan(start.topics, start.deferred.take(done as int))),
            decreases n - done,
        {
            match self.next_deferred() {
                Some(job) => {
                    assert(job@ == start.deferred[done as int]);
                    self.deliver(job.message.as_str(), &job.data, job.immediate_exceptions);
                    proof {
                        assert(start.deferred.take(done + 1).drop_last() =~= start.deferred.take(done as int));
                        assert(start.deferred.take(done + 1).last() == start.deferred[done as int]);
                        assert(start.deferred.skip(done as int).drop_first() =~= start.deferred.skip(done + 1));
                        assert(start.delivered + jobs_plan(start.topics, start.deferred.take(done + 1)) =~= start.delivered
                            + jobs_plan(start.topics, start.deferred.take(done as int)) + delivery_plan(
                            after_jobs(start.topics, start.deferred.take(done as int)),
                            job@.message,
                            job@.data,
                        ));
                    }
                },
                None => {
                    assert(false);
                },
            }
            done = done + 1;
        }
        assert(start.deferred.take(n as int) =~= start.deferred);
        assert(start.deferred.skip(n as int) =~= Seq::<JobView<D>>::empty());
    }
}

} // verus!
