//! [`SharedPubSub`], the bus behind a shared reference: every operation takes
//! `&self`, so a subscriber may call back into the bus while it delivers.
//!
//! The [`PubSub`] lives in a cell whose invariant is that it is well formed.
//! Each operation takes the bus out, runs one [`PubSub`] operation on it, and
//! puts it back before any subscriber runs. Delivery hands out a snapshot of
//! each level's subscribers first and calls them afterwards, so a subscriber
//! that changes the bus cannot make delivery skip a peer that was matched for
//! this publish. An operation that removes subscriptions keeps a second
//! handle on every subscriber until the bus is back in its cell, so a
//! subscriber's destructor that runs when it is removed, and calls back into
//! the bus, finds the whole bus there.
//!
//! A shared reference is, to the verifier, a value that never changes, so no
//! contract here can name the bus before or after a call; each method runs
//! exactly one [`PubSub`] operation, whose contract is exact, on the bus the
//! cell holds. The contracts here state what holds of every outcome; what each
//! operation does to the bus is stated, and proved, on [`PubSub`] and in
//! [`crate::laws`].

use crate::bus::{names_with_prefix, DeferredJob, PubSub};
use crate::callback::Callback;
use crate::token::{uid_text, Subscription, Token, Unsubscribed};
use crate::topic::{hierarchy_levels, ALL_SUBSCRIBING};
use vstd::cell::invcell::InvCell;
use vstd::predicate::Predicate;
use vstd::prelude::*;

verus! {

/// The invariant the bus cell keeps: the bus is well formed.
pub struct WellFormed;

impl<D> Predicate<PubSub<D>> for WellFormed {
    open spec fn predicate(&self, bus: PubSub<D>) -> bool {
        bus@.wf()
    }
}

/// A publish/subscribe bus that every subscriber may share: operations take
/// `&self`, so a subscriber may subscribe, publish or unsubscribe while the bus
/// delivers to it.
///
/// A panicking subscriber propagates out of the publish or drain that called
/// it, as with [`PubSub`].
#[verifier::reject_recursive_types(D)]
pub struct SharedPubSub<D> {
    inner: InvCell<PubSub<D>, WellFormed>,
}

impl<D> Default for SharedPubSub<D> {
    /// An empty bus, as [`SharedPubSub::new`] makes it.
    fn default() -> Self {
        SharedPubSub::new()
    }
}

impl<D> SharedPubSub<D> {
    #[verifier::type_invariant]
    spec fn cell_keeps_bus_well_formed(self) -> bool {
        self.inner.predicate() == WellFormed
    }

    /// Create an empty bus.
    pub fn new() -> Self {
        SharedPubSub { inner: InvCell::new(PubSub::new(), Ghost(WellFormed)) }
    }

    /// Takes the bus out of the cell, leaving an empty one there.
    fn take(&self) -> (bus: PubSub<D>)
        ensures
            bus@.wf(),
    {
        proof {
            use_type_invariant(self);
        }
        self.inner.replace(PubSub::new())
    }

    /// Puts the bus back into the cell.
    fn put(&self, bus: PubSub<D>)
        requires
            bus@.wf(),
    {
        proof {
            use_type_invariant(self);
        }
        let _ = self.inner.replace(bus);
    }

    /// Set whether a panicking subscriber aborts delivery immediately.
    pub fn set_immediate_exceptions(&self, value: bool) {
        let mut bus = self.take();
        bus.set_immediate_exceptions(value);
        self.put(bus);
    }

    /// Current value of the immediate-exceptions flag.
    pub fn immediate_exceptions(&self) -> bool {
        let bus = self.take();
        let value = bus.immediate_exceptions();
        self.put(bus);
        value
    }

    /// Subscribe `func` to `topic`, one-shot when `once` holds.
    ///
    /// When the 64-bit token or handle counter is exhausted (after 2^64 - 1
    /// subscriptions), nothing is registered and the subscription returned
    /// has a token that no subscription holds and handle 0, which none holds
    /// either.
    fn subscribe_with<F>(&self, topic: &str, func: F, once: bool) -> (sub: Subscription) where
        F: Fn(&str, &D) + 'static,
        ensures
            exists|k: nat| sub@.0 == uid_text(k),
    {
        let mut bus = self.take();
        let sub = if !bus.can_subscribe() {
            Subscription::new(Token::from_uid(u64::MAX), 0)
        } else if once {
            let token = bus.subscribe_once(topic, func);
            Subscription::new(token, 0)
        } else {
            bus.subscribe_handle(topic, func)
        };
        self.put(bus);
        sub
    }

    /// Subscribe `func` to `topic`. Returns a [`Token`] for later removal.
    pub fn subscribe<F>(&self, topic: &str, func: F) -> (token: Token) where F: Fn(&str, &D) + 'static
        ensures
            exists|k: nat| token@ == uid_text(k),
    {
        self.subscribe_with(topic, func, false).token().duplicate()
    }

    /// Subscribe and get back a [`Subscription`] handle that holds the token.
    pub fn subscribe_handle<F>(&self, topic: &str, func: F) -> (sub: Subscription) where
        F: Fn(&str, &D) + 'static,
        ensures
            exists|k: nat| sub@.0 == uid_text(k),
    {
        self.subscribe_with(topic, func, false)
    }

    /// Subscribe `func` to the wildcard topic `*`.
    pub fn subscribe_all<F>(&self, func: F) -> (token: Token) where F: Fn(&str, &D) + 'static
        ensures
            exists|k: nat| token@ == uid_text(k),
    {
        self.subscribe(ALL_SUBSCRIBING, func)
    }

    /// Subscribe `func` to fire at most once. Delivery removes the entry
    /// before it calls `func`, so a republish from inside `func` does not
    /// retrigger it.
    pub fn subscribe_once<F>(&self, topic: &str, func: F) -> (token: Token) where F: Fn(&str, &D) + 'static
        ensures
            exists|k: nat| token@ == uid_text(k),
    {
        self.subscribe_with(topic, func, true).token().duplicate()
    }

    /// Publish `data` to `topic` for deferred delivery. Returns whether the
    /// topic had a matching subscriber when this was called.
    pub fn publish(&self, topic: &str, data: D) -> bool {
        let mut bus = self.take();
        let reachable = bus.publish(topic, data);
        self.put(bus);
        reachable
    }

    /// Publish `data` to `topic` and deliver to all matching subscribers now.
    /// Returns whether there was a matching subscriber, computed before any
    /// subscriber runs.
    pub fn publish_sync(&self, topic: &str, data: D) -> bool {
        let immediate = self.immediate_exceptions();
        if !self.message_has_subscribers(topic) {
            return false;
        }
        self.deliver(topic, &data, immediate);
        true
    }

    /// True if `message`, any of its ancestors, or the wildcard topic has a
    /// subscriber now.
    pub fn message_has_subscribers(&self, message: &str) -> bool {
        let bus = self.take();
        let reachable = bus.message_has_subscribers(message);
        self.put(bus);
        reachable
    }

    /// Hands out the subscribers of the topic named `level`, in subscription
    /// order, removing its one-shot entries before any of them runs.
    pub fn snapshot_level(&self, level: &String) -> Vec<Callback<D>> {
        let mut bus = self.take();
        let snapshot = bus.snapshot_level(level);
        self.put(bus);
        snapshot
    }

    /// Takes the oldest queued deferred delivery, if any.
    pub fn next_deferred(&self) -> Option<DeferredJob<D>> {
        let mut bus = self.take();
        let job = bus.next_deferred();
        self.put(bus);
        job
    }

    /// Run the deliveries that were queued when this call began, oldest
    /// first. A delivery queued by a subscriber during the drain waits for
    /// the next call.
    pub fn process_deferred(&self) {
        let n = self.pending();
        let mut done: usize = 0;
        while done < n
            decreases n - done,
        {
            match self.next_deferred() {
                Some(job) => {
                    self.deliver(job.message.as_str(), &job.data, job.immediate_exceptions);
                },
                None => {
                    break;
                },
            }
            done = done + 1;
        }
    }

    /// Number of queued deferred deliveries.
    pub fn pending(&self) -> usize {
        let bus = self.take();
        let n = bus.pending();
        self.put(bus);
        n
    }

    /// Delivers `data` to every subscriber of `message` and its ancestors,
    /// then the wildcard topic, putting the bus back before each level's
    /// subscribers run.
    fn deliver(&self, message: &str, data: &D, immediate_exceptions: bool) {
        let _ = immediate_exceptions;
        let levels = hierarchy_levels(message);
        let mut i: usize = 0;
        while i < levels.len()
            decreases levels.len() - i,
        {
            let snapshot = self.snapshot_level(&levels[i]);
            let mut j: usize = 0;
            while j < snapshot.len()
                decreases snapshot.len() - j,
            {
                snapshot[j].notify(message, data);
                j = j + 1;
            }
            i = i + 1;
        }
    }

    /// Remove the single subscription identified by `token`.
    pub fn unsubscribe(&self, token: &Token) -> (r: Unsubscribed)
        ensures
            r is NoMatch || (r matches Unsubscribed::Token(t) && t@ == token@),
    {
        let mut bus = self.take();
        let _held = bus.subscribers();
        let r = bus.unsubscribe(token);
        self.put(bus);
        r
    }

    /// Remove every subscription created under `subscription`.
    pub fn unsubscribe_subscription(&self, subscription: &Subscription) -> (r: Unsubscribed)
        ensures
            r is Removed || r is NoMatch,
    {
        let mut bus = self.take();
        let _held = bus.subscribers();
        let r = bus.unsubscribe_subscription(subscription);
        self.put(bus);
        r
    }

    /// Remove a topic and every topic whose name begins with it.
    pub fn unsubscribe_topic(&self, topic: &str) -> (r: Unsubscribed)
        ensures
            r is Topic || r is NoMatch,
    {
        let mut bus = self.take();
        let _held = bus.subscribers();
        let r = bus.unsubscribe_topic(topic);
        self.put(bus);
        r
    }

    /// Empty the whole registry. Does not reset the token counter.
    pub fn clear_all_subscriptions(&self) {
        let mut bus = self.take();
        let _held = bus.subscribers();
        bus.clear_all_subscriptions();
        self.put(bus);
    }

    /// Remove every topic whose name starts with `topic`.
    pub fn clear_subscriptions(&self, topic: &str) {
        let mut bus = self.take();
        let _held = bus.subscribers();
        bus.clear_subscriptions(topic);
        self.put(bus);
    }

    /// Count subscribers in the first registered topic whose name starts with
    /// `topic`.
    pub fn count_subscriptions(&self, topic: &str) -> usize {
        let bus = self.take();
        let n = bus.count_subscriptions(topic);
        self.put(bus);
        n
    }

    /// List every registered topic name that starts with `topic`, in
    /// insertion order.
    pub fn get_subscriptions(&self, topic: &str) -> (names: Vec<String>)
        ensures
            forall|i: int| 0 <= i < names@.len() ==> topic@.is_prefix_of(#[trigger] names@[i]@),
    {
        let bus = self.take();
        let names = bus.get_subscriptions(topic);
        proof {
            let ts = bus@.topics;
            assert forall|i: int| 0 <= i < names@.len() implies topic@.is_prefix_of(#[trigger] names@[i]@) by {
                assert(names@.map_values(|s: String| s@)[i] == names@[i]@);
                assert(names_with_prefix(ts, topic@)[i] == names@[i]@);
            }
        }
        self.put(bus);
        names
    }
}

} // verus!
