//! Laws of the bus that relate several operations, proved over the models the
//! operations' contracts use.

use crate::callback::Callback;
use crate::bus::{
    after_delivery, after_levels, lemma_after_levels_keeps_names, after_jobs, delivery_plan, jobs_plan,
    levels_plan, runs_of, snapshot_callbacks, Note, entries_of, subscribed_at,
    add_entry, after_snapshot, first_holder, has_handle, has_prefixed, has_subscribers, has_token,
    has_topic, holds_token, is_live, remove_entry, topic_index, topic_names, without_handle,
    without_prefix, EntryView, JobView, BusView, TopicView, names_distinct, recurring,
    other_handle, outside_prefix,
};
use crate::token::{lemma_uid_text_injective, uid_text};
use crate::topic::{delivery_levels, is_ancestor, lemma_delivery_reaches, wildcard, ALL_SUBSCRIBING};
use vstd::prelude::*;

verus! {

broadcast use vstd::seq_lib::group_filter_ensures;

/// The wildcard constant is the one-character topic `*`.
pub proof fn lemma_wildcard_text()
    ensures
        ALL_SUBSCRIBING@ == wildcard(),
{
    reveal_strlit("*");
    assert(ALL_SUBSCRIBING@ =~= wildcard());
}

/// Law of the publish result: a publish of `message` reports a subscriber
/// exactly when some topic with a subscriber is the message itself, one of its
/// dot-ancestors, or the wildcard.
pub proof fn lemma_has_subscribers_iff<D>(topics: Seq<TopicView<D>>, message: Seq<char>)
    ensures
        has_subscribers(topics, message) <==> exists|t: Seq<char>|
            #[trigger] is_live(topics, t) && (t == message || is_ancestor(t, message) || t == wildcard()),
{
    let levels = delivery_levels(message);
    if has_subscribers(topics, message) {
        let k = choose|k: int| 0 <= k < levels.len() && #[trigger] is_live(topics, levels[k]);
        lemma_delivery_reaches(message, levels[k]);
        assert(levels.contains(levels[k]));
    }
    if exists|t: Seq<char>|
        #[trigger] is_live(topics, t) && (t == message || is_ancestor(t, message) || t == wildcard()) {
        let t = choose|t: Seq<char>|
            #[trigger] is_live(topics, t) && (t == message || is_ancestor(t, message) || t == wildcard());
        lemma_delivery_reaches(message, t);
        let k = choose|k: int| 0 <= k < levels.len() && levels[k] == t;
        assert(is_live(topics, levels[k]));
    }
}

/// Law: a wildcard subscriber makes every publish report a subscriber.
pub proof fn lemma_wildcard_reaches_every_message<D>(topics: Seq<TopicView<D>>, message: Seq<char>)
    requires
        is_live(topics, wildcard()),
    ensures
        has_subscribers(topics, message),
{
    lemma_has_subscribers_iff(topics, message);
}

/// Law: a subscriber of a dot-ancestor makes a publish of the descendant
/// report a subscriber.
pub proof fn lemma_ancestor_reaches_descendant<D>(topics: Seq<TopicView<D>>, parent: Seq<char>, message: Seq<char>)
    requires
        is_live(topics, parent),
        is_ancestor(parent, message),
    ensures
        has_subscribers(topics, message),
{
    lemma_has_subscribers_iff(topics, message);
}

/// Law: publishing to a topic right after subscribing to it reports a
/// subscriber.
pub proof fn lemma_subscribed_topic_is_reached<D>(v: BusView<D>, name: Seq<char>, callback: Callback<D>, once: bool)
    ensures
        has_subscribers(v.subscribed(name, callback, once).topics, name),
{
    let e = v.next_entry(callback, once);
    let nt = add_entry(v.topics, name, e);
    let levels = delivery_levels(name);
    assert(levels[0] == name);
    if has_topic(v.topics, name) {
        let i = topic_index(v.topics, name);
        assert(nt[i].name == name && nt[i].entries.len() > 0);
    } else {
        assert(nt[v.topics.len() as int].name == name && nt[v.topics.len() as int].entries.len() > 0);
    }
    assert(is_live(nt, levels[0]));
}


/// Law: subscribing disturbs no existing subscription. Every topic keeps its
/// place and name, every earlier subscription keeps its place, and the new one
/// comes after the others of its topic.
pub proof fn lemma_subscribe_keeps_others<D>(topics: Seq<TopicView<D>>, name: Seq<char>, e: EntryView<D>)
    ensures
        add_entry(topics, name, e).len() >= topics.len(),
        forall|i: int|
            0 <= i < topics.len() ==> (#[trigger] add_entry(topics, name, e)[i]).name == topics[i].name
                && add_entry(topics, name, e)[i].entries.len() >= topics[i].entries.len(),
        forall|i: int, k: int|
            0 <= i < topics.len() && 0 <= k < topics[i].entries.len() ==> #[trigger] add_entry(topics, name, e)[i].entries[k]
                == topics[i].entries[k],
{
}

/// Law: a new subscription's token is held by no subscription registered
/// before it, so tokens are never reused while the bus lives.
pub proof fn lemma_new_token_is_fresh<D>(v: BusView<D>)
    requires
        v.wf(),
    ensures
        !has_token(v.topics, uid_text(v.next_uid as nat)),
{
    if has_token(v.topics, uid_text(v.next_uid as nat)) {
        let (i, k) = choose|i: int, k: int| holds_token(v.topics, i, k, uid_text(v.next_uid as nat));
        let e = v.topics[i].entries[k];
        assert(v.entry_ok(e));
        lemma_uid_text_injective(e.uid as nat, v.next_uid as nat);
    }
}


/// Law: tokens are unique. No two registered subscriptions hold the same
/// token.
pub proof fn lemma_tokens_unique<D>(v: BusView<D>)
    requires
        v.wf(),
    ensures
        forall|i: int, k: int, j: int, l: int|
            0 <= i < v.topics.len() && 0 <= k < v.topics[i].entries.len() && 0 <= j < v.topics.len() && 0 <= l
                < v.topics[j].entries.len() && (i != j || k != l) ==> #[trigger] v.topics[i].entries[k].token
                != #[trigger] v.topics[j].entries[l].token,
{
    assert forall|i: int, k: int, j: int, l: int|
        0 <= i < v.topics.len() && 0 <= k < v.topics[i].entries.len() && 0 <= j < v.topics.len() && 0 <= l
            < v.topics[j].entries.len() && (i != j || k != l) implies #[trigger] v.topics[i].entries[k].token
            != #[trigger] v.topics[j].entries[l].token by {
        let a = v.topics[i].entries[k];
        let b = v.topics[j].entries[l];
        assert(v.entry_ok(a) && v.entry_ok(b));
        assert(a.uid != b.uid);
        lemma_uid_text_injective(a.uid as nat, b.uid as nat);
    }
}

/// Law: after a subscription is removed by its token, no subscription holds
/// that token any more.
pub proof fn lemma_unsubscribed_token_is_gone<D>(v: BusView<D>, i: int, k: int, token: Seq<char>)
    requires
        v.wf(),
        first_holder(v.topics, i, k, token),
    ensures
        !has_token(remove_entry(v.topics, i, k), token),
{
    let r = remove_entry(v.topics, i, k);
    if has_token(r, token) {
        let (a, b) = choose|a: int, b: int| holds_token(r, a, b, token);
        // The position in the registry before the removal.
        let ob = if a == i && b >= k { b + 1 } else { b };
        assert(r[a].entries[b] == v.topics[a].entries[ob]);
        assert(a != i || ob != k);
        let x = v.topics[a].entries[ob];
        let y = v.topics[i].entries[k];
        assert(v.entry_ok(x) && v.entry_ok(y));
        assert(x.uid != y.uid);
        lemma_uid_text_injective(x.uid as nat, y.uid as nat);
    }
}

/// Law: removing by token right after subscribing removes exactly the new
/// subscription. Every other subscription stays where it was; a topic the
/// subscription created stays registered, empty.
pub proof fn lemma_unsubscribe_undoes_subscribe<D>(v: BusView<D>, name: Seq<char>, callback: Callback<D>, once: bool)
    requires
        v.wf(),
    ensures
        ({
            let w = v.subscribed(name, callback, once);
            let token = uid_text(v.next_uid as nat);
            &&& has_token(w.topics, token)
            &&& forall|i: int, k: int| #[trigger] first_holder(w.topics, i, k, token) ==> remove_entry(w.topics, i, k) == if has_topic(
                v.topics,
                name,
            ) {
                v.topics
            } else {
                v.topics.push(TopicView { name, entries: Seq::empty() })
            }
        }),
{
    let w = v.subscribed(name, callback, once);
    let token = uid_text(v.next_uid as nat);
    let e = v.next_entry(callback, once);
    let ts = v.topics;
    let nt = w.topics;
    lemma_new_token_is_fresh(v);
    // The position of the new entry.
    let (pi, pk) = if has_topic(ts, name) {
        let i = topic_index(ts, name);
        (i, ts[i].entries.len() as int)
    } else {
        (ts.len() as int, 0int)
    };
    assert(holds_token(nt, pi, pk, token));
    // No other position holds the token.
    assert forall|i: int, k: int| #[trigger] holds_token(nt, i, k, token) implies i == pi && k == pk by {
        if !(i == pi && k == pk) {
            if i < ts.len() && k < ts[i].entries.len() {
                assert(nt[i].entries[k] == ts[i].entries[k]);
                assert(holds_token(ts, i, k, token));
            }
        }
    }
    assert forall|i: int, k: int| #[trigger] first_holder(nt, i, k, token) implies remove_entry(nt, i, k) == if has_topic(
        ts,
        name,
    ) {
        ts
    } else {
        ts.push(TopicView { name, entries: Seq::empty() })
    } by {
        assert(i == pi && k == pk);
        if has_topic(ts, name) {
            assert(nt[pi].entries.remove(pk) =~= ts[pi].entries);
            assert(remove_entry(nt, i, k) =~= ts);
        } else {
            assert(nt[pi].entries.remove(pk) =~= Seq::<EntryView<D>>::empty());
            assert(remove_entry(nt, i, k) =~= ts.push(TopicView { name, entries: Seq::empty() }));
        }
    }
}

/// Law: removing one subscription keeps every topic registered, in order,
/// even a topic it leaves empty.
pub proof fn lemma_removal_keeps_topic_names<D>(topics: Seq<TopicView<D>>, i: int, k: int)
    requires
        0 <= i < topics.len(),
    ensures
        topic_names(remove_entry(topics, i, k)) == topic_names(topics),
{
    assert(topic_names(remove_entry(topics, i, k)) =~= topic_names(topics));
}

/// Law: once delivery has reached a topic, none of its one-shot subscribers
/// remains, so a one-shot subscriber is handed out at most once.
pub proof fn lemma_once_is_handed_out_once<D>(topics: Seq<TopicView<D>>, name: Seq<char>)
    requires
        names_distinct(topics),
    ensures
        forall|i: int, k: int|
            0 <= i < after_snapshot(topics, name).len() && 0 <= k < after_snapshot(topics, name)[i].entries.len()
                && after_snapshot(topics, name)[i].name == name ==> !#[trigger] after_snapshot(topics, name)[i].entries[k].once,
{
    let a = after_snapshot(topics, name);
    assert forall|i: int, k: int|
        0 <= i < a.len() && 0 <= k < a[i].entries.len() && a[i].name == name implies !#[trigger] a[i].entries[k].once by {
        let j = topic_index(topics, name);
        if j >= 0 {
            if i != j {
                assert(a[i] == topics[i]);
                if i < j {
                    assert(topics[i].name != topics[j].name);
                } else {
                    assert(topics[j].name != topics[i].name);
                }
            }
            assert((recurring::<D>())(a[j].entries[k]));
        } else {
            assert(topics[i].name == name);
            assert(has_topic(topics, name));
        }
    }
}


/// No topic named `name` holds a one-shot subscriber.
pub open spec fn holds_no_once<D>(topics: Seq<TopicView<D>>, name: Seq<char>) -> bool {
    forall|i: int, k: int|
        0 <= i < topics.len() && topics[i].name == name && 0 <= k < topics[i].entries.len()
            ==> !#[trigger] topics[i].entries[k].once
}

/// After delivery has reached each of `levels` in turn, none of the topics
/// it reached holds a one-shot subscriber.
proof fn lemma_levels_retire_once<D>(topics: Seq<TopicView<D>>, levels: Seq<Seq<char>>)
    requires
        names_distinct(topics),
    ensures
        forall|j: int| 0 <= j < levels.len() ==> holds_no_once(after_levels(topics, levels), #[trigger] levels[j]),
    decreases levels.len(),
{
    if levels.len() > 0 {
        let prev = levels.drop_last();
        let a = after_levels(topics, prev);
        let last = levels.last();
        lemma_levels_retire_once(topics, prev);
        lemma_after_levels_keeps_names(topics, prev);
        assert(names_distinct(a)) by {
            assert forall|x: int, y: int| 0 <= x < y < a.len() implies #[trigger] a[x].name != #[trigger] a[y].name by {
                assert(topics[x].name != topics[y].name);
            }
        }
        lemma_once_is_handed_out_once(a, last);
        let r = after_levels(topics, levels);
        assert(r == after_snapshot(a, last));
        assert forall|j: int| 0 <= j < levels.len() implies holds_no_once(r, #[trigger] levels[j]) by {
            if j == levels.len() - 1 {
                assert forall|i: int, k: int|
                    0 <= i < r.len() && r[i].name == levels[j] && 0 <= k < r[i].entries.len()
                        implies !#[trigger] r[i].entries[k].once by {
                    assert(r[i].name == last);
                }
            } else {
                assert(prev[j] == levels[j]);
                assert(holds_no_once(a, prev[j]));
                assert forall|i: int, k: int|
                    0 <= i < r.len() && r[i].name == levels[j] && 0 <= k < r[i].entries.len()
                        implies !#[trigger] r[i].entries[k].once by {
                    let t = topic_index(a, last);
                    if t >= 0 && i == t {
                        assert((recurring::<D>())(r[i].entries[k]));
                    } else {
                        assert(r[i] == a[i]);
                        assert(!a[i].entries[k].once);
                    }
                }
            }
        }
    }
}

/// Law: a delivery retires one-shot subscribers. After a publish has been
/// delivered, none of the topics it reached holds a one-shot subscriber, so
/// each fired at most once.
pub proof fn lemma_delivery_retires_once<D>(topics: Seq<TopicView<D>>, message: Seq<char>)
    requires
        names_distinct(topics),
    ensures
        forall|t: Seq<char>|
            #[trigger] delivery_levels(message).contains(t) ==> holds_no_once(after_delivery(topics, message), t),
{
    let levels = delivery_levels(message);
    lemma_levels_retire_once(topics, levels);
    assert forall|t: Seq<char>| #[trigger] levels.contains(t) implies holds_no_once(after_delivery(topics, message), t) by {
        let j = choose|j: int| 0 <= j < levels.len() && levels[j] == t;
        assert(holds_no_once(after_levels(topics, levels), levels[j]));
    }
}

/// Law: after removing by subscription handle, no subscription made under
/// that handle remains.
pub proof fn lemma_handle_removal_is_complete<D>(topics: Seq<TopicView<D>>, handle: u64)
    ensures
        !has_handle(without_handle(topics, handle), handle),
{
    let w = without_handle(topics, handle);
    if has_handle(w, handle) {
        let (i, k) = choose|i: int, k: int|
            0 <= i < w.len() && 0 <= k < w[i].entries.len() && #[trigger] w[i].entries[k].handle == handle;
        assert((other_handle::<D>(handle))(w[i].entries[k]));
    }
}

/// Law: after clearing by prefix, no topic's name begins with that prefix,
/// and every topic whose name does not begin with it is still registered.
pub proof fn lemma_prefix_clear_is_complete<D>(topics: Seq<TopicView<D>>, prefix: Seq<char>)
    ensures
        !has_prefixed(without_prefix(topics, prefix), prefix),
        forall|i: int|
            0 <= i < topics.len() && !prefix.is_prefix_of(#[trigger] topics[i].name) ==> without_prefix(
                topics,
                prefix,
            ).contains(topics[i]),
{
    let w = without_prefix(topics, prefix);
    if has_prefixed(w, prefix) {
        let i = choose|i: int| 0 <= i < w.len() && prefix.is_prefix_of(#[trigger] w[i].name);
        assert((outside_prefix::<D>(prefix))(w[i]));
    }
    assert forall|i: int| 0 <= i < topics.len() && !prefix.is_prefix_of(#[trigger] topics[i].name) implies w.contains(
        topics[i],
    ) by {
        assert((outside_prefix::<D>(prefix))(topics[i]));
    }
}

/// Law: deferred delivery is first in, first out. Draining a queue that a
/// publish extended by `job` makes the runs of the jobs queued before it
/// first, then the runs of `job`, against the topics the earlier jobs left.
pub proof fn lemma_deferred_is_fifo<D>(topics: Seq<TopicView<D>>, queue: Seq<JobView<D>>, job: JobView<D>)
    ensures
        jobs_plan(topics, queue.push(job)) == jobs_plan(topics, queue) + delivery_plan(
            after_jobs(topics, queue),
            job.message,
            job.data,
        ),
        after_jobs(topics, queue.push(job)) == after_delivery(after_jobs(topics, queue), job.message),
{
    assert(queue.push(job).drop_last() =~= queue);
}

/// Every run of `levels_plan` hands out `message` and `data`, and runs a
/// subscriber of one of `levels`; every subscriber of each of `levels` runs.
proof fn lemma_levels_plan_runs<D>(
    topics: Seq<TopicView<D>>,
    levels: Seq<Seq<char>>,
    message: Seq<char>,
    data: D,
)
    ensures
        forall|n: int|
            0 <= n < levels_plan(topics, levels, message, data).len() ==> {
                let run = #[trigger] levels_plan(topics, levels, message, data)[n];
                &&& run.topic == message
                &&& run.data == data
                &&& exists|j: int, k: int|
                    0 <= j < levels.len() && subscribed_at(topics, levels[j], k, run.callback)
            },
        forall|j: int, k: int|
            0 <= j < levels.len() && 0 <= k < entries_of(topics, levels[j]).len() ==> levels_plan(
                topics,
                levels,
                message,
                data,
            ).contains(Note { callback: #[trigger] entries_of(topics, levels[j])[k].callback, topic: message, data }),
    decreases levels.len(),
{
    if levels.len() > 0 {
        let prev = levels.drop_last();
        let last = levels.last();
        lemma_levels_plan_runs(topics, prev, message, data);
        let p = levels_plan(topics, prev, message, data);
        let cbs = snapshot_callbacks(topics, last);
        let r = runs_of(cbs, message, data);
        let whole = levels_plan(topics, levels, message, data);
        assert(whole == p + r);
        assert(cbs.len() == entries_of(topics, last).len());
        assert forall|n: int| 0 <= n < whole.len() implies {
            let run = #[trigger] whole[n];
            &&& run.topic == message
            &&& run.data == data
            &&& exists|j: int, k: int| 0 <= j < levels.len() && subscribed_at(topics, levels[j], k, run.callback)
        } by {
            if n < p.len() {
                assert(whole[n] == p[n]);
                let (j, k) = choose|j: int, k: int| 0 <= j < prev.len() && subscribed_at(topics, prev[j], k, p[n].callback);
                assert(levels[j] == prev[j]);
            } else {
                let k = n - p.len();
                assert(whole[n] == r[k]);
                assert(r[k].callback == cbs[k]);
                assert(subscribed_at(topics, levels[levels.len() - 1], k, r[k].callback));
            }
        }
        assert forall|j: int, k: int|
            0 <= j < levels.len() && 0 <= k < entries_of(topics, levels[j]).len() implies whole.contains(
                Note { callback: #[trigger] entries_of(topics, levels[j])[k].callback, topic: message, data },
            ) by {
            let note = Note { callback: entries_of(topics, levels[j])[k].callback, topic: message, data };
            if j < prev.len() {
                assert(prev[j] == levels[j]);
                assert(p.contains(note));
                let m = choose|m: int| 0 <= m < p.len() && p[m] == note;
                assert(whole[m] == p[m]);
            } else {
                assert(levels[j] == last);
                assert(r[k] == note);
                assert(whole[p.len() + k] == r[k]);
            }
        }
    }
}

/// Law: a delivery runs exactly the subscribers of the topics it reaches.
/// Every run hands the subscriber the published topic itself (not the level
/// it was reached through) and the published data, and runs a subscriber of
/// the topic, of one of its dot-ancestors or of `*`; and every subscriber of
/// each of those topics runs.
pub proof fn lemma_delivery_runs_reached_subscribers<D>(topics: Seq<TopicView<D>>, message: Seq<char>, data: D)
    ensures
        forall|n: int|
            0 <= n < delivery_plan(topics, message, data).len() ==> {
                let run = #[trigger] delivery_plan(topics, message, data)[n];
                &&& run.topic == message
                &&& run.data == data
                &&& exists|t: Seq<char>, k: int|
                    (t == message || is_ancestor(t, message) || t == wildcard()) && subscribed_at(topics, t, k, run.callback)
            },
        forall|t: Seq<char>, k: int|
            (t == message || is_ancestor(t, message) || t == wildcard()) && 0 <= k < entries_of(topics, t).len()
                ==> delivery_plan(topics, message, data).contains(
                Note { callback: #[trigger] entries_of(topics, t)[k].callback, topic: message, data },
            ),
{
    let levels = delivery_levels(message);
    lemma_levels_plan_runs(topics, levels, message, data);
    let plan = delivery_plan(topics, message, data);
    assert forall|n: int| 0 <= n < plan.len() implies {
        let run = #[trigger] plan[n];
        &&& run.topic == message
        &&& run.data == data
        &&& exists|t: Seq<char>, k: int|
            (t == message || is_ancestor(t, message) || t == wildcard()) && subscribed_at(topics, t, k, run.callback)
    } by {
        let (j, k) = choose|j: int, k: int| 0 <= j < levels.len() && subscribed_at(topics, levels[j], k, plan[n].callback);
        lemma_delivery_reaches(message, levels[j]);
        assert(levels.contains(levels[j]));
    }
    assert forall|t: Seq<char>, k: int|
        (t == message || is_ancestor(t, message) || t == wildcard()) && 0 <= k < entries_of(topics, t).len()
            implies plan.contains(Note { callback: #[trigger] entries_of(topics, t)[k].callback, topic: message, data }) by {
        lemma_delivery_reaches(message, t);
        let j = choose|j: int| 0 <= j < levels.len() && levels[j] == t;
        assert(entries_of(topics, levels[j])[k] == entries_of(topics, t)[k]);
    }
}

/// Law: a subscription handle and its token name the same subscription. In
/// a well-formed bus the subscriptions under handle `h` are exactly those
/// holding the token `uid_<h-1>`, and there is at most one, so removing by a
/// subscription removes what removing by its token removes.
pub proof fn lemma_handle_and_token_agree<D>(v: BusView<D>, h: u64)
    requires
        v.wf(),
        h >= 1,
    ensures
        forall|i: int, k: int|
            0 <= i < v.topics.len() && 0 <= k < v.topics[i].entries.len() ==> (#[trigger] v.topics[i].entries[k].handle
                == h <==> holds_token(v.topics, i, k, uid_text((h - 1) as nat))),
        forall|i: int, k: int, j: int, l: int|
            0 <= i < v.topics.len() && 0 <= k < v.topics[i].entries.len() && 0 <= j < v.topics.len() && 0 <= l
                < v.topics[j].entries.len() && #[trigger] v.topics[i].entries[k].handle == h
                && #[trigger] v.topics[j].entries[l].handle == h ==> i == j && k == l,
{
    assert forall|i: int, k: int|
        0 <= i < v.topics.len() && 0 <= k < v.topics[i].entries.len() implies (#[trigger] v.topics[i].entries[k].handle
            == h <==> holds_token(v.topics, i, k, uid_text((h - 1) as nat))) by {
        let e = v.topics[i].entries[k];
        assert(v.entry_ok(e));
        if e.uid != h - 1 {
            lemma_uid_text_injective(e.uid as nat, (h - 1) as nat);
        }
    }
    assert forall|i: int, k: int, j: int, l: int|
        0 <= i < v.topics.len() && 0 <= k < v.topics[i].entries.len() && 0 <= j < v.topics.len() && 0 <= l
            < v.topics[j].entries.len() && #[trigger] v.topics[i].entries[k].handle == h
            && #[trigger] v.topics[j].entries[l].handle == h implies i == j && k == l by {
        assert(v.entry_ok(v.topics[i].entries[k]));
        assert(v.entry_ok(v.topics[j].entries[l]));
        if i != j || k != l {
            assert(v.topics[i].entries[k].uid != v.topics[j].entries[l].uid);
        }
    }
}

/// Law: delivering, now or from the queue, keeps every topic registered, in
/// its place; only clearing removes a topic.
pub proof fn lemma_delivery_keeps_topic_names<D>(topics: Seq<TopicView<D>>, message: Seq<char>, jobs: Seq<JobView<D>>)
    ensures
        topic_names(after_delivery(topics, message)) == topic_names(topics),
        topic_names(after_jobs(topics, jobs)) == topic_names(topics),
    decreases jobs.len(),
{
    lemma_after_levels_keeps_names(topics, delivery_levels(message));
    assert(topic_names(after_delivery(topics, message)) =~= topic_names(topics));
    if jobs.len() > 0 {
        let rest = after_jobs(topics, jobs.drop_last());
        lemma_delivery_keeps_topic_names(topics, message, jobs.drop_last());
        lemma_delivery_keeps_topic_names(rest, jobs.last().message, Seq::empty());
    } else {
        assert(after_jobs(topics, jobs) == topics);
    }
}

/// Law: a subscriber runs when a publish reaches its topic. After
/// subscribing `callback` to `name`, a publish of `message` where `name` is the
/// message itself, one of its dot-ancestors or `*` reports a subscriber, and
/// its delivery runs `callback` with the published `message` and `data`.
pub proof fn lemma_subscriber_runs_when_reached<D>(
    v: BusView<D>,
    name: Seq<char>,
    callback: Callback<D>,
    once: bool,
    message: Seq<char>,
    data: D,
)
    requires
        v.wf(),
        name == message || is_ancestor(name, message) || name == wildcard(),
    ensures
        has_subscribers(v.subscribed(name, callback, once).topics, message),
        delivery_plan(v.subscribed(name, callback, once).topics, message, data).contains(
            Note { callback, topic: message, data },
        ),
{
    let e = v.next_entry(callback, once);
    let nt = add_entry(v.topics, name, e);
    assert(v.subscribed(name, callback, once).topics == nt);
    let ts = v.topics;
    let pos: int = if has_topic(ts, name) { topic_index(ts, name) } else { ts.len() as int };
    assert(0 <= pos < nt.len() && nt[pos].name == name);
    assert(nt[pos].entries.len() > 0 && nt[pos].entries.last() == e);
    assert(forall|x: int| 0 <= x < nt.len() && x != pos ==> #[trigger] nt[x].name != name) by {
        assert forall|x: int| 0 <= x < nt.len() && x != pos implies #[trigger] nt[x].name != name by {
            if has_topic(ts, name) {
                assert(nt[x] == ts[x]);
                if x < pos {
                    assert(ts[x].name != ts[pos].name);
                } else {
                    assert(ts[pos].name != ts[x].name);
                }
            } else {
                assert(nt[x] == ts[x]);
                if ts[x].name == name {
                    assert(has_topic(ts, name));
                }
            }
        }
    }
    assert(has_topic(nt, name));
    assert(topic_index(nt, name) == pos);
    assert(entries_of(nt, name) == nt[pos].entries);
    let k = nt[pos].entries.len() - 1;
    assert(entries_of(nt, name)[k].callback == callback);
    lemma_delivery_runs_reached_subscribers(nt, message, data);
    assert(is_live(nt, name));
    lemma_has_subscribers_iff(nt, message);
}

/// Law: with no subscriber anywhere, no publish reports one.
pub proof fn lemma_no_subscriber_no_report<D>(topics: Seq<TopicView<D>>, message: Seq<char>)
    requires
        forall|i: int| 0 <= i < topics.len() ==> #[trigger] topics[i].entries.len() == 0,
    ensures
        !has_subscribers(topics, message),
{
    lemma_has_subscribers_iff(topics, message);
    assert forall|t: Seq<char>| !#[trigger] is_live(topics, t) by {
        if is_live(topics, t) {
            let i = choose|i: int| 0 <= i < topics.len() && #[trigger] topics[i].name == t && topics[i].entries.len() > 0;
            assert(topics[i].entries.len() == 0);
        }
    }
}

/// Keeping the entries of `s` that all pass `p` keeps `s` whole.
proof fn lemma_filter_keeps_all<A>(s: Seq<A>, p: spec_fn(A) -> bool)
    requires
        forall|j: int| 0 <= j < s.len() ==> p(#[trigger] s[j]),
    ensures
        s.filter(p) == s,
    decreases s.len(),
{
    if s.len() > 0 {
        let r = s.drop_last();
        lemma_filter_keeps_all(r, p);
        r.lemma_filter_push(s.last(), p);
        assert(r.push(s.last()) =~= s);
    } else {
        assert(s.filter(p) =~= s) by {
            reveal(Seq::filter);
        }
    }
}

/// Law: removing by a subscription undoes subscribing it. Right after a
/// subscription is made, its handle names a registered subscription (so the
/// removal reports `Removed`); removing by that handle leaves none under it,
/// and every subscription that was registered before comes back unchanged.
pub proof fn lemma_subscription_removal_undoes_subscribe<D>(
    v: BusView<D>,
    name: Seq<char>,
    callback: Callback<D>,
    once: bool,
)
    requires
        v.wf(),
        v.can_subscribe(),
    ensures
        has_handle(v.subscribed(name, callback, once).topics, (v.last_handle + 1) as u64),
        !has_handle(without_handle(v.subscribed(name, callback, once).topics, (v.last_handle + 1) as u64), (v.last_handle + 1) as u64),
        topic_names(without_handle(v.subscribed(name, callback, once).topics, (v.last_handle + 1) as u64))
            == topic_names(v.subscribed(name, callback, once).topics),
        forall|i: int|
            0 <= i < v.topics.len() ==> #[trigger] without_handle(
                v.subscribed(name, callback, once).topics,
                (v.last_handle + 1) as u64,
            )[i].entries == v.topics[i].entries,
{
    let h = (v.last_handle + 1) as u64;
    let e = v.next_entry(callback, once);
    let ts = v.topics;
    let nt = add_entry(ts, name, e);
    assert(v.subscribed(name, callback, once).topics == nt);
    let w = without_handle(nt, h);
    let pos: int = if has_topic(ts, name) { topic_index(ts, name) } else { ts.len() as int };
    assert(nt[pos].entries.last() == e);
    assert(nt[pos].entries[nt[pos].entries.len() - 1].handle == h);
    assert(has_handle(nt, h));
    lemma_handle_removal_is_complete(nt, h);
    assert(topic_names(w) =~= topic_names(nt));
    assert forall|i: int| 0 <= i < ts.len() implies #[trigger] w[i].entries == ts[i].entries by {
        assert forall|j: int| 0 <= j < ts[i].entries.len() implies (other_handle::<D>(h))(#[trigger] ts[i].entries[j]) by {
            assert(v.entry_ok(ts[i].entries[j]));
        }
        lemma_filter_keeps_all(ts[i].entries, other_handle::<D>(h));
        if i == pos {
            ts[i].entries.lemma_filter_push(e, other_handle::<D>(h));
        }
    }
}

/// Law: the kept elements of a filter, in order. Every element of
/// `s.filter(p)` is an element of `s` that passes `p`, taken from strictly
/// increasing positions, and every element of `s` that passes `p` is taken.
pub proof fn lemma_filter_in_order<A>(s: Seq<A>, p: spec_fn(A) -> bool) -> (at: spec_fn(int) -> int)
    ensures
        forall|j: int|
            0 <= j < s.filter(p).len() ==> 0 <= #[trigger] at(j) < s.len() && s.filter(p)[j] == s[at(j)] && p(s[at(j)]),
        forall|j1: int, j2: int| 0 <= j1 < j2 < s.filter(p).len() ==> #[trigger] at(j1) < #[trigger] at(j2),
        forall|i: int| 0 <= i < s.len() && p(#[trigger] s[i]) ==> exists|j: int| 0 <= j < s.filter(p).len() && #[trigger] at(j) == i,
    decreases s.len(),
{
    if s.len() == 0 {
        assert(s.filter(p) =~= Seq::<A>::empty()) by {
            reveal(Seq::filter);
        }
        |j: int| 0int
    } else {
        let r = s.drop_last();
        let x = s.last();
        let prev = lemma_filter_in_order(r, p);
        r.lemma_filter_push(x, p);
        assert(r.push(x) =~= s);
        let rf = r.filter(p);
        if p(x) {
            let at = |j: int| if j < rf.len() { prev(j) } else { r.len() as int };
            assert forall|i: int| 0 <= i < s.len() && p(#[trigger] s[i]) implies exists|j: int|
                0 <= j < s.filter(p).len() && #[trigger] at(j) == i by {
                if i < r.len() {
                    assert(r[i] == s[i]);
                    let j = choose|j: int| 0 <= j < rf.len() && #[trigger] prev(j) == i;
                    assert(at(j) == i);
                } else {
                    assert(at(rf.len() as int) == i);
                }
            }
            assert forall|j: int| 0 <= j < s.filter(p).len() implies 0 <= #[trigger] at(j) < s.len() && s.filter(p)[j]
                == s[at(j)] && p(s[at(j)]) by {
                if j < rf.len() {
                    assert(r[prev(j)] == s[prev(j)]);
                }
            }
            at
        } else {
            assert forall|i: int| 0 <= i < s.len() && p(#[trigger] s[i]) implies exists|j: int|
                0 <= j < s.filter(p).len() && #[trigger] prev(j) == i by {
                assert(i < r.len());
                assert(r[i] == s[i]);
            }
            assert forall|j: int| 0 <= j < s.filter(p).len() implies 0 <= #[trigger] prev(j) < s.len() && s.filter(p)[j]
                == s[prev(j)] && p(s[prev(j)]) by {
                assert(r[prev(j)] == s[prev(j)]);
            }
            prev
        }
    }
}

/// Law: clearing by prefix keeps exactly the other topics, whole and in their
/// order. Every topic left is an earlier topic whose name does not begin with
/// `prefix`, with the same subscribers; the topics left keep their relative
/// order; and every topic whose name does not begin with `prefix` is left.
pub proof fn lemma_prefix_clear_keeps_the_rest_in_order<D>(topics: Seq<TopicView<D>>, prefix: Seq<char>) -> (at: spec_fn(
    int,
) -> int)
    ensures
        forall|j: int|
            0 <= j < without_prefix(topics, prefix).len() ==> 0 <= #[trigger] at(j) < topics.len() && without_prefix(
                topics,
                prefix,
            )[j] == topics[at(j)] && !prefix.is_prefix_of(topics[at(j)].name),
        forall|j1: int, j2: int|
            0 <= j1 < j2 < without_prefix(topics, prefix).len() ==> #[trigger] at(j1) < #[trigger] at(j2),
        forall|i: int|
            0 <= i < topics.len() && !prefix.is_prefix_of(#[trigger] topics[i].name) ==> exists|j: int|
                0 <= j < without_prefix(topics, prefix).len() && #[trigger] at(j) == i,
{
    let p = outside_prefix::<D>(prefix);
    let at = lemma_filter_in_order(topics, p);
    assert forall|i: int| 0 <= i < topics.len() && !prefix.is_prefix_of(#[trigger] topics[i].name) implies exists|j: int|
        0 <= j < without_prefix(topics, prefix).len() && #[trigger] at(j) == i by {
        assert(p(topics[i]));
    }
    at
}

/// Law: a drain delivers each queued job in turn. For every job, the record
/// of the whole drain begins with the runs of the jobs before it followed by
/// that job's own delivery, made on the topics the earlier jobs left; and
/// every run hands out the message and data of some queued job.
pub proof fn lemma_drain_delivers_each_job<D>(topics: Seq<TopicView<D>>, jobs: Seq<JobView<D>>)
    ensures
        forall|i: int|
            0 <= i < jobs.len() ==> (jobs_plan(topics, jobs.take(i)) + delivery_plan(
                after_jobs(topics, jobs.take(i)),
                #[trigger] jobs[i].message,
                jobs[i].data,
            )).is_prefix_of(jobs_plan(topics, jobs)),
        forall|n: int|
            0 <= n < jobs_plan(topics, jobs).len() ==> exists|i: int|
                0 <= i < jobs.len() && (#[trigger] jobs_plan(topics, jobs)[n]).topic == jobs[i].message
                    && jobs_plan(topics, jobs)[n].data == jobs[i].data,
    decreases jobs.len(),
{
    if jobs.len() > 0 {
        let prev = jobs.drop_last();
        let last = jobs.last();
        lemma_drain_delivers_each_job(topics, prev);
        let whole = jobs_plan(topics, jobs);
        let pp = jobs_plan(topics, prev);
        let lp = delivery_plan(after_jobs(topics, prev), last.message, last.data);
        assert(whole == pp + lp);
        lemma_delivery_runs_reached_subscribers(after_jobs(topics, prev), last.message, last.data);
        assert forall|i: int| 0 <= i < jobs.len() implies (jobs_plan(topics, jobs.take(i)) + delivery_plan(
            after_jobs(topics, jobs.take(i)),
            #[trigger] jobs[i].message,
            jobs[i].data,
        )).is_prefix_of(whole) by {
            if i < prev.len() {
                assert(jobs.take(i) =~= prev.take(i));
                assert(prev[i] == jobs[i]);
                let a = jobs_plan(topics, prev.take(i)) + delivery_plan(after_jobs(topics, prev.take(i)), prev[i].message, prev[i].data);
                assert(a.is_prefix_of(pp));
                assert forall|m: int| 0 <= m < a.len() implies a[m] == whole[m] by {
                    assert(pp[m] == whole[m]);
                }
            } else {
                assert(jobs.take(i) =~= prev);
                assert(jobs[i] == last);
                assert(pp + lp =~= whole);
            }
        }
        assert forall|n: int| 0 <= n < whole.len() implies exists|i: int|
            0 <= i < jobs.len() && (#[trigger] whole[n]).topic == jobs[i].message && whole[n].data == jobs[i].data by {
            if n < pp.len() {
                assert(whole[n] == pp[n]);
                let i = choose|i: int| 0 <= i < prev.len() && (#[trigger] pp[n]).topic == prev[i].message && pp[n].data == prev[i].data;
                assert(jobs[i] == prev[i]);
            } else {
                assert(whole[n] == lp[n - pp.len()]);
                assert(jobs[jobs.len() - 1] == last);
            }
        }
    }
}

} // verus!
