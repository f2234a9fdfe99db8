//! Behaviour of the bus through its public front end: subscription, deferred
//! and synchronous publishing, hierarchical addressing, removal, listing and
//! counting.

use std::cell::{Cell, RefCell};
use std::rc::Rc;
use tiny_pubsub::{PubSub, SharedPubSub, Token, Unsubscribed};

/// Hands out distinct strings, `"my unique String number N"`.
struct UniqueNames {
    count: Cell<usize>,
}

impl UniqueNames {
    fn new() -> Self {
        UniqueNames { count: Cell::new(0) }
    }

    fn next(&self) -> String {
        let n = self.count.get() + 1;
        self.count.set(n);
        format!("my unique String number {n}")
    }
}

/// A subscriber that records every `(message, data)` it receives.
#[derive(Clone, Default)]
struct Spy {
    calls: Rc<RefCell<Vec<(String, String)>>>,
}

impl Spy {
    fn new() -> Self {
        Spy::default()
    }

    fn subscriber(&self) -> impl Fn(&str, &String) + 'static {
        let calls = self.calls.clone();
        move |message: &str, data: &String| {
            calls.borrow_mut().push((message.to_string(), data.clone()));
        }
    }

    fn call_count(&self) -> usize {
        self.calls.borrow().len()
    }

    fn called(&self) -> bool {
        self.call_count() > 0
    }

    fn called_once(&self) -> bool {
        self.call_count() == 1
    }

    fn called_with_message(&self, message: &str) -> bool {
        self.calls.borrow().iter().any(|(m, _)| m == message)
    }

    fn called_with(&self, message: &str, data: &str) -> bool {
        self.calls.borrow().iter().any(|(m, d)| m == message && d == data)
    }
}

/// The list must be non-empty and every pair of tokens must differ.
fn assert_all_tokens_different(tokens: &[Token]) {
    assert!(!tokens.is_empty(), "token list must be non-empty");
    for (j, a) in tokens.iter().enumerate() {
        for b in &tokens[j + 1..] {
            assert!(a != b, "tokens must all differ: {} == {}", a.as_str(), b.as_str());
        }
    }
}

// ---- added behaviour ----

#[test]
fn ancestor_subscriber_receives_original_message() {
    let mut bus: PubSub<String> = PubSub::new();
    let spy_a = Spy::new();
    let spy_abc = Spy::new();
    bus.subscribe("a", spy_a.subscriber());
    bus.subscribe("a.b.c", spy_abc.subscriber());

    let _ = bus.publish_sync("a.b.c", "payload".into());

    assert!(spy_a.called_with_message("a.b.c"));
    assert!(spy_abc.called_with_message("a.b.c"));
}

#[test]
fn wildcard_fires_last_and_counts_for_publish_return() {
    let mut bus: PubSub<String> = PubSub::new();
    bus.subscribe_all(|_, _| {});
    assert!(bus.publish_sync("anything", String::new()));

    let mut bus2: PubSub<&'static str> = PubSub::new();
    let order = Rc::new(RefCell::new(Vec::<&'static str>::new()));
    let o1 = order.clone();
    bus2.subscribe("x", move |_, _| o1.borrow_mut().push("x"));
    let o2 = order.clone();
    bus2.subscribe_all(move |_, _| o2.borrow_mut().push("star"));

    let _ = bus2.publish_sync("x", "");
    assert_eq!(*order.borrow(), vec!["x", "star"]);
}

#[test]
fn subscribe_once_is_not_reentrant() {
    let bus: Rc<SharedPubSub<String>> = Rc::new(SharedPubSub::new());
    let count = Rc::new(RefCell::new(0u32));

    let bus_inner = bus.clone();
    let count_inner = count.clone();
    bus.subscribe_once("topic", move |_, _| {
        *count_inner.borrow_mut() += 1;
        let _ = bus_inner.publish_sync("topic", String::new());
    });

    let _ = bus.publish_sync("topic", String::new());
    assert_eq!(*count.borrow(), 1);
}

#[test]
fn delivery_preserves_subscription_order() {
    let mut bus: PubSub<&'static str> = PubSub::new();
    let order = Rc::new(RefCell::new(Vec::<&'static str>::new()));
    let o1 = order.clone();
    bus.subscribe("topic", move |_, _| o1.borrow_mut().push("first"));
    let o2 = order.clone();
    bus.subscribe("topic", move |_, _| o2.borrow_mut().push("second"));

    let _ = bus.publish_sync("topic", "");
    assert_eq!(*order.borrow(), vec!["first", "second"]);
}

#[test]
fn no_dot_topic_delivers_self_then_wildcard() {
    let mut bus: PubSub<String> = PubSub::new();
    let spy = Spy::new();
    let star = Spy::new();
    bus.subscribe("plain", spy.subscriber());
    bus.subscribe_all(star.subscriber());

    let _ = bus.publish_sync("plain", String::new());
    assert!(spy.called_once());
    assert!(star.called_once());
}

#[test]
fn empty_topic_is_valid() {
    let mut bus: PubSub<String> = PubSub::new();
    let spy = Spy::new();
    bus.subscribe("", spy.subscriber());
    let _ = bus.publish_sync("", String::new());
    assert!(spy.called_once());
}

#[test]
fn trailing_dot_topic_walk() {
    let mut bus: PubSub<String> = PubSub::new();
    let spy_dot = Spy::new();
    let spy_a = Spy::new();
    bus.subscribe("a.", spy_dot.subscriber());
    bus.subscribe("a", spy_a.subscriber());

    let _ = bus.publish_sync("a.", String::new());
    assert!(spy_dot.called_once());
    assert!(spy_a.called_once());
}

/// Independent reference: the published topic, every prefix before a dot,
/// and the wildcard.
fn expected_matches(published: &str) -> Vec<String> {
    let mut out = vec![published.to_string()];
    let mut topic = published.to_string();
    while let Some(pos) = topic.rfind('.') {
        topic.truncate(pos);
        out.push(topic.clone());
    }
    out.push("*".to_string());
    out
}

#[test]
fn hierarchy_matches_independent_reference() {
    let all_topics = ["a", "a.b", "a.b.c", "a.b.c.d", "a.x", "a.x.y", "z", "*"];
    let published = ["a.b.c.d", "a.b", "a", "a.x.y", "z", "q.r"];

    for pub_topic in published {
        let mut bus: PubSub<String> = PubSub::new();
        let spies: Vec<(&str, Spy)> = all_topics.iter().map(|t| (*t, Spy::new())).collect();
        for (topic, spy) in &spies {
            bus.subscribe(*topic, spy.subscriber());
        }

        let _ = bus.publish_sync(pub_topic, String::new());

        let expected = expected_matches(pub_topic);
        for (topic, spy) in &spies {
            let want = expected.contains(&topic.to_string());
            assert_eq!(
                spy.called(),
                want,
                "topic {topic} should fire={want} when publishing {pub_topic}"
            );
        }
    }
}

// ---- clearing ----

#[test]
fn clear_all_removes_every_subscription() {
    let names = UniqueNames::new();
    let mut bus: PubSub<String> = PubSub::new();
    let topic = names.next();
    let spy1 = Spy::new();
    let spy2 = Spy::new();
    bus.subscribe(&topic, spy1.subscriber());
    bus.subscribe(&topic, spy2.subscriber());

    bus.clear_all_subscriptions();

    let _ = bus.publish_sync(&topic, names.next());

    assert!(!spy1.called());
    assert!(!spy2.called());
}

#[test]
fn clear_subscriptions_prefix_deletes() {
    let names = UniqueNames::new();
    let mut bus: PubSub<String> = PubSub::new();
    let spy_t = Spy::new();
    let spy_ta = Spy::new();
    let spy_tab = Spy::new();
    let spy_other = Spy::new();
    bus.subscribe("t", spy_t.subscriber());
    bus.subscribe("t.a", spy_ta.subscriber());
    bus.subscribe("t.a.b", spy_tab.subscriber());
    bus.subscribe("other", spy_other.subscriber());

    bus.clear_subscriptions("t");

    let _ = bus.publish_sync("t", names.next());
    let _ = bus.publish_sync("t.a", names.next());
    let _ = bus.publish_sync("t.a.b", names.next());
    let _ = bus.publish_sync("other", names.next());

    assert!(!spy_t.called());
    assert!(!spy_ta.called());
    assert!(!spy_tab.called());
    assert!(spy_other.called());
}

#[test]
fn clear_subscriptions_is_raw_prefix_not_dot_aware() {
    let mut bus: PubSub<String> = PubSub::new();
    bus.subscribe("a", |_, _| {});
    bus.subscribe("a.b", |_, _| {});
    bus.subscribe("ab", |_, _| {});
    bus.subscribe("b", |_, _| {});

    bus.clear_subscriptions("a");

    assert_eq!(bus.get_subscriptions("").len(), 1);
    assert_eq!(bus.get_subscriptions(""), vec!["b".to_string()]);
}

// ---- contract points ----

#[test]
fn token_format_is_uid_zero_based() {
    let mut bus: PubSub<String> = PubSub::new();
    assert_eq!(bus.subscribe("a", |_, _| {}).as_str(), "uid_0");
    assert_eq!(bus.subscribe("a", |_, _| {}).as_str(), "uid_1");
}

#[test]
fn token_counter_survives_clear_all() {
    let mut bus: PubSub<String> = PubSub::new();
    assert_eq!(bus.subscribe("a", |_, _| {}).as_str(), "uid_0");
    assert_eq!(bus.subscribe("a", |_, _| {}).as_str(), "uid_1");
    bus.clear_all_subscriptions();
    assert_eq!(bus.subscribe("a", |_, _| {}).as_str(), "uid_2");
}

#[test]
fn emptied_topic_key_persists_and_is_observable() {
    let mut bus: PubSub<String> = PubSub::new();
    let tok = bus.subscribe("a", |_, _| {});
    bus.unsubscribe(&tok);

    assert!(!bus.publish_sync("a", String::new()));
    assert_eq!(bus.get_subscriptions("a"), vec!["a".to_string()]);
    assert_eq!(bus.unsubscribe_topic("a"), Unsubscribed::Topic);
    let mut bus2: PubSub<String> = PubSub::new();
    let tok2 = bus2.subscribe("a", |_, _| {});
    bus2.unsubscribe(&tok2);
    assert_eq!(bus2.count_subscriptions("a"), 0);
}

#[test]
fn count_breaks_on_first_prefix_match_even_when_empty() {
    let mut bus: PubSub<String> = PubSub::new();
    let tok = bus.subscribe("t", |_, _| {});
    bus.subscribe("t.a", |_, _| {});
    bus.subscribe("t.a", |_, _| {});

    bus.unsubscribe(&tok);

    assert_eq!(bus.count_subscriptions("t"), 0);
}

#[test]
fn empty_prefix_matches_every_topic() {
    let mut bus: PubSub<String> = PubSub::new();
    bus.subscribe("a", |_, _| {});
    bus.subscribe("b", |_, _| {});
    bus.subscribe("b", |_, _| {});

    let mut all = bus.get_subscriptions("");
    all.sort();
    assert_eq!(all, vec!["a".to_string(), "b".to_string()]);
    assert_eq!(bus.count_subscriptions(""), 1);
}

#[test]
fn deferred_delivery_is_fifo_with_depth() {
    let mut bus: PubSub<u32> = PubSub::new();
    let seen = Rc::new(RefCell::new(Vec::<u32>::new()));
    let s = seen.clone();
    bus.subscribe("t", move |_, n| s.borrow_mut().push(*n));

    let _ = bus.publish("t", 1);
    let _ = bus.publish("t", 2);
    let _ = bus.publish("t", 3);
    assert_eq!(bus.pending(), 3);

    bus.process_deferred();
    assert_eq!(*seen.borrow(), vec![1, 2, 3]);
    assert_eq!(bus.pending(), 0);
}

#[test]
fn ancestor_match_returns_true() {
    let mut bus: PubSub<String> = PubSub::new();
    bus.subscribe("a", |_, _| {});
    assert!(bus.publish_sync("a.b.c", String::new()));
    assert!(bus.publish("a.b.c", String::new()));
}

#[test]
fn no_match_returns_false_among_unrelated_topics() {
    let mut bus: PubSub<String> = PubSub::new();
    bus.subscribe("x", |_, _| {});
    bus.subscribe("y.z", |_, _| {});
    assert!(!bus.publish_sync("q.r", String::new()));
    assert!(!bus.publish("q.r", String::new()));
}

#[test]
fn deferred_republish_runs_on_next_tick() {
    let bus: Rc<SharedPubSub<u32>> = Rc::new(SharedPubSub::new());
    let depth = Rc::new(Cell::new(0u32));

    let bus_inner = bus.clone();
    let depth_inner = depth.clone();
    bus.subscribe("t", move |_, n| {
        depth_inner.set(*n);
        if *n < 3 {
            let _ = bus_inner.publish("t", n + 1);
        }
    });

    let _ = bus.publish("t", 1);

    bus.process_deferred();
    assert_eq!(depth.get(), 1);
    assert_eq!(bus.pending(), 1);

    bus.process_deferred();
    assert_eq!(depth.get(), 2);
    assert_eq!(bus.pending(), 1);

    bus.process_deferred();
    assert_eq!(depth.get(), 3);
    assert_eq!(bus.pending(), 0);
}

// ---- counting and listing ----

#[test]
fn counts_one_subscription() {
    let names = UniqueNames::new();
    let mut bus: PubSub<String> = PubSub::new();
    let topic = names.next();
    bus.subscribe(&topic, Spy::new().subscriber());
    assert_eq!(bus.count_subscriptions(&topic), 1);
}

#[test]
fn counts_two_subscriptions_on_same_topic() {
    let names = UniqueNames::new();
    let mut bus: PubSub<String> = PubSub::new();
    let topic = names.next();
    bus.subscribe(&topic, Spy::new().subscriber());
    bus.subscribe(&topic, Spy::new().subscriber());
    assert_eq!(bus.count_subscriptions(&topic), 2);
}

#[test]
fn counts_only_first_prefix_matching_topic_then_stops() {
    let mut bus: PubSub<String> = PubSub::new();
    bus.subscribe("t", Spy::new().subscriber());
    bus.subscribe("t", Spy::new().subscriber());
    bus.subscribe("t.a", Spy::new().subscriber());

    assert_eq!(bus.count_subscriptions("t"), 2);
}

#[test]
fn counts_zero_when_no_prefix_match() {
    let mut bus: PubSub<String> = PubSub::new();
    bus.subscribe("library", Spy::new().subscriber());
    assert_eq!(bus.count_subscriptions("music"), 0);
}

#[test]
fn lists_one_matching_topic() {
    let names = UniqueNames::new();
    let mut bus: PubSub<String> = PubSub::new();
    let topic = names.next();
    bus.subscribe(&topic, Spy::new().subscriber());
    assert_eq!(bus.get_subscriptions(&topic).len(), 1);
}

#[test]
fn lists_all_matching_topics_in_insertion_order() {
    let mut bus: PubSub<String> = PubSub::new();
    bus.subscribe("t", Spy::new().subscriber());
    bus.subscribe("t.a", Spy::new().subscriber());
    bus.subscribe("t.a.b", Spy::new().subscriber());
    bus.subscribe("other", Spy::new().subscriber());

    assert_eq!(
        bus.get_subscriptions("t"),
        vec!["t".to_string(), "t.a".to_string(), "t.a.b".to_string()]
    );
}

#[test]
fn lists_nothing_when_no_prefix_match() {
    let mut bus: PubSub<String> = PubSub::new();
    bus.subscribe("library", Spy::new().subscriber());
    assert!(bus.get_subscriptions("music").is_empty());
}

// ---- hierarchical addressing ----

/// One addressing case: topics to subscribe, the topic to publish, and the
/// expected total subscriber call count.
struct HCase {
    subs: &'static [&'static str],
    publish: &'static str,
    expect: usize,
}

fn hierarchy_cases() -> Vec<HCase> {
    vec![
        HCase { subs: &["library", "library.music"], publish: "library", expect: 1 },
        HCase { subs: &["library", "library.music"], publish: "library.music", expect: 2 },
        HCase {
            subs: &["library", "library.music", "library.music.jazz"],
            publish: "library.music",
            expect: 2,
        },
        HCase {
            subs: &["library", "library.music", "library.music.jazz"],
            publish: "library.music.jazz",
            expect: 3,
        },
        HCase {
            subs: &[
                "library",
                "library.music",
                "library.music.jazz",
                "library.playlist",
                "library.playlist.mine",
            ],
            publish: "library.music.jazz",
            expect: 3,
        },
        HCase {
            subs: &[
                "library",
                "library.music",
                "library.music.jazz",
                "library.music.jazz.soft",
                "library.music.jazz.soft.swing",
                "library.music.playlist.jazz",
            ],
            publish: "library.music.jazz.soft.swing",
            expect: 5,
        },
        HCase { subs: &["a.b.c", "a.b", "a"], publish: "a.b.c.d", expect: 3 },
        HCase { subs: &["a.b.c"], publish: "a.b.c.d", expect: 1 },
    ]
}

#[test]
fn hierarchy_via_deferred_publish() {
    for case in hierarchy_cases() {
        let mut bus: PubSub<String> = PubSub::new();
        let spy = Spy::new();
        for topic in case.subs {
            bus.subscribe(*topic, spy.subscriber());
        }
        let _ = bus.publish(case.publish, "data".into());
        assert_eq!(
            spy.call_count(),
            0,
            "deferred publish must not fire before drain for {}",
            case.publish
        );
        bus.process_deferred();
        assert_eq!(
            spy.call_count(),
            case.expect,
            "publishing {} should reach {} subscribers",
            case.publish,
            case.expect
        );
    }
}

#[test]
fn hierarchy_via_publish_sync() {
    for case in hierarchy_cases() {
        let mut bus: PubSub<String> = PubSub::new();
        let spy = Spy::new();
        for topic in case.subs {
            bus.subscribe(*topic, spy.subscriber());
        }
        let _ = bus.publish_sync(case.publish, "data".into());
        assert_eq!(
            spy.call_count(),
            case.expect,
            "sync publishing {} should reach {} subscribers",
            case.publish,
            case.expect
        );
    }
}

#[test]
fn still_calls_all_parents_when_middle_child_unsubscribed() {
    let mut bus: PubSub<String> = PubSub::new();
    let spy = Spy::new();
    bus.subscribe("library", spy.subscriber());
    bus.subscribe("library.music.jazz", spy.subscriber());
    let token = bus.subscribe("library.music", spy.subscriber());

    bus.unsubscribe(&token);

    let _ = bus.publish("library.music.jazz", "data".into());
    assert_eq!(spy.call_count(), 0);
    bus.process_deferred();
    assert_eq!(spy.call_count(), 2);
}

#[test]
fn unsubscribe_returns_tokens_for_namespaced_messages() {
    let mut bus: PubSub<String> = PubSub::new();
    let token1 = bus.subscribe("playlist.music", |_, _| {});
    let token2 = bus.subscribe("playlist.music.jazz", |_, _| {});

    assert_eq!(bus.unsubscribe(&token1), Unsubscribed::Token(token1.clone()));
    assert_eq!(bus.unsubscribe(&token2), Unsubscribed::Token(token2.clone()));
}

#[test]
fn unsubscribe_parent_without_affecting_orphans() {
    let mut bus: PubSub<String> = PubSub::new();
    let spy = Spy::new();
    let token = bus.subscribe("playlist", spy.subscriber());
    bus.subscribe("playlist.music", spy.subscriber());
    bus.subscribe("playlist.music.jazz", spy.subscriber());

    bus.unsubscribe(&token);

    let _ = bus.publish("playlist.music.jazz", "data".into());
    assert_eq!(spy.call_count(), 0);
    bus.process_deferred();
    assert_eq!(spy.call_count(), 2);
}

// ---- publish ----

#[test]
fn returns_false_when_no_subscribers() {
    let mut bus: PubSub<String> = PubSub::new();
    assert!(!bus.publish("topic", String::new()));
}

#[test]
fn returns_true_when_subscribers_present() {
    let mut bus: PubSub<String> = PubSub::new();
    bus.subscribe("topic", |_, _| {});
    assert!(bus.publish("topic", String::new()));
}

#[test]
fn returns_false_when_no_longer_any_subscribers() {
    let mut bus: PubSub<String> = PubSub::new();
    let token = bus.subscribe("topic", |_, _| {});
    bus.unsubscribe(&token);
    assert!(!bus.publish("topic", String::new()));
}

#[test]
fn calls_all_subscribers_exactly_once() {
    let mut bus: PubSub<String> = PubSub::new();
    let spy1 = Spy::new();
    let spy2 = Spy::new();
    bus.subscribe("topic", spy1.subscriber());
    bus.subscribe("topic", spy2.subscriber());

    let _ = bus.publish_sync("topic", "my payload".into());

    assert!(spy1.called_once());
    assert!(spy2.called_once());
}

#[test]
fn calls_only_subscribers_of_the_published_message() {
    let mut bus: PubSub<String> = PubSub::new();
    let spy1 = Spy::new();
    let spy2 = Spy::new();
    bus.subscribe("message1", spy1.subscriber());
    bus.subscribe("message2", spy2.subscriber());

    let _ = bus.publish_sync("message1", "some payload".into());

    assert!(spy1.called());
    assert_eq!(spy2.call_count(), 0);
}

#[test]
fn calls_subscribers_with_message_as_first_argument() {
    let mut bus: PubSub<String> = PubSub::new();
    let spy = Spy::new();
    bus.subscribe("topic", spy.subscriber());
    let _ = bus.publish_sync("topic", "some payload".into());

    assert!(spy.called_with_message("topic"));
}

#[test]
fn calls_subscribers_with_data_as_second_argument() {
    let mut bus: PubSub<String> = PubSub::new();
    let spy = Spy::new();
    bus.subscribe("topic", spy.subscriber());
    let _ = bus.publish_sync("topic", "the data".into());

    assert!(spy.called_with("topic", "the data"));
}

#[test]
fn publish_is_deferred() {
    let mut bus: PubSub<String> = PubSub::new();
    let spy = Spy::new();
    bus.subscribe("topic", spy.subscriber());
    let _ = bus.publish("topic", "data".into());

    assert_eq!(spy.call_count(), 0);
    bus.process_deferred();
    assert_eq!(spy.call_count(), 1);
}

#[test]
fn publish_sync_delivers_immediately() {
    let mut bus: PubSub<String> = PubSub::new();
    let spy = Spy::new();
    bus.subscribe("topic", spy.subscriber());
    let _ = bus.publish_sync("topic", "data".into());

    assert_eq!(spy.call_count(), 1);
}

/// A slot through which a self-removing subscriber learns its own token.
struct TokenSlot(RefCell<Option<Token>>);

impl TokenSlot {
    fn new() -> Self {
        TokenSlot(RefCell::new(None))
    }

    fn set(&self, t: Token) {
        *self.0.borrow_mut() = Some(t);
    }

    fn take(&self) -> Option<Token> {
        self.0.borrow_mut().take()
    }
}

#[test]
fn calls_all_subscribers_even_with_unsubscriptions_within() {
    let bus: Rc<SharedPubSub<String>> = Rc::new(SharedPubSub::new());
    let spy1 = Spy::new();
    let spy2 = Spy::new();

    let token1: Rc<TokenSlot> = Rc::new(TokenSlot::new());
    let token2: Rc<TokenSlot> = Rc::new(TokenSlot::new());

    {
        let bus2 = bus.clone();
        let t1 = token1.clone();
        let s1 = spy1.subscriber();
        let tok = bus.subscribe("topic", move |m, d| {
            if let Some(tk) = t1.take() {
                bus2.unsubscribe(&tk);
            }
            s1(m, d);
        });
        token1.set(tok);
    }
    {
        let bus2 = bus.clone();
        let t2 = token2.clone();
        let s2 = spy2.subscriber();
        let tok = bus.subscribe("topic", move |m, d| {
            if let Some(tk) = t2.take() {
                bus2.unsubscribe(&tk);
            }
            s2(m, d);
        });
        token2.set(tok);
    }

    let _ = bus.publish("topic", "some data".into());
    bus.process_deferred();

    assert!(spy1.called(), "expected spy1 to be called");
    assert!(spy2.called(), "expected spy2 to be called");
}

// ---- regressions ----

#[test]
fn notifies_all_subscribers_in_a_hierarchy() {
    let mut bus: PubSub<String> = PubSub::new();
    let s1 = Spy::new();
    let s2 = Spy::new();
    let s3 = Spy::new();
    bus.subscribe("a.b.c", s1.subscriber());
    bus.subscribe("a.b", s2.subscriber());
    bus.subscribe("a", s3.subscriber());

    let _ = bus.publish("a.b.c.d", String::new());
    bus.process_deferred();

    assert!(s1.called_once());
    assert!(s2.called_once());
    assert!(s3.called_once());
}

#[test]
fn notifies_individual_subscriber_with_no_ancestors() {
    let mut bus: PubSub<String> = PubSub::new();
    let spy = Spy::new();
    bus.subscribe("a.b.c", spy.subscriber());
    let _ = bus.publish("a.b.c.d", String::new());
    bus.process_deferred();
    assert!(spy.called_once());
}

#[test]
fn publishing_wildcard_delivers_once() {
    let mut bus: PubSub<String> = PubSub::new();
    let spy = Spy::new();
    bus.subscribe_all(spy.subscriber());

    assert!(bus.publish_sync("*", String::new()));

    assert!(spy.called_once());
}

#[test]
fn notifies_all_subscribers_even_when_one_is_unsubscribed() {
    let names = UniqueNames::new();
    let bus: Rc<SharedPubSub<String>> = Rc::new(SharedPubSub::new());
    let topic = names.next();

    let unsubscribed = Rc::new(RefCell::new(false));
    let token_slot: Rc<RefCell<Option<Token>>> = Rc::new(RefCell::new(None));

    let s1 = Spy::new();
    let s2 = Spy::new();
    let s3 = Spy::new();

    let bus_inner = bus.clone();
    let slot_inner = token_slot.clone();
    let flag_inner = unsubscribed.clone();
    let s1_cb = s1.subscriber();
    let token1 = bus.subscribe(&topic, move |m, d| {
        if let Some(t) = slot_inner.borrow().clone() {
            bus_inner.unsubscribe(&t);
        }
        *flag_inner.borrow_mut() = true;
        s1_cb(m, d);
    });
    *token_slot.borrow_mut() = Some(token1);
    bus.subscribe(&topic, s2.subscriber());
    bus.subscribe(&topic, s3.subscriber());

    let _ = bus.publish(&topic, String::new());
    bus.process_deferred();

    assert!(*unsubscribed.borrow());
    assert!(s1.called_once());
    assert!(s2.called_once());
    assert!(s3.called_once());
}

// ---- subscribe ----

#[test]
fn subscribe_returns_a_token() {
    let names = UniqueNames::new();
    let mut bus: PubSub<String> = PubSub::new();
    let token = bus.subscribe(&names.next(), |_, _| {});
    assert!(token.as_str().starts_with("uid_"));
}

#[test]
fn returns_new_token_for_repeated_subscriptions_of_same_callback() {
    let names = UniqueNames::new();
    let mut bus: PubSub<String> = PubSub::new();
    let message = names.next();
    let func = |_: &str, _: &String| {};
    let tokens: Vec<_> = (0..10).map(|_| bus.subscribe(&message, func)).collect();
    assert_all_tokens_different(&tokens);
}

#[test]
fn returns_unique_tokens_for_namespaced_subscriptions() {
    let mut bus: PubSub<String> = PubSub::new();
    let topics = ["library", "library.music", "library.music.jazz"];
    let tokens: Vec<_> = topics.iter().map(|t| bus.subscribe(*t, |_, _| {})).collect();
    assert_all_tokens_different(&tokens);
}

#[test]
fn returns_unique_tokens_for_distinct_callbacks() {
    let names = UniqueNames::new();
    let mut bus: PubSub<String> = PubSub::new();
    let message = names.next();
    let tokens: Vec<_> = (0..10)
        .map(|i| {
            bus.subscribe(&message, move |_, _| {
                let _ = i;
            })
        })
        .collect();
    assert_all_tokens_different(&tokens);
}

#[test]
fn subscribe_all_returns_a_token() {
    let mut bus: PubSub<String> = PubSub::new();
    let token = bus.subscribe_all(|_, _| {});
    assert!(token.as_str().starts_with("uid_"));
}

#[test]
fn subscribes_for_all_messages() {
    let names = UniqueNames::new();
    let mut bus: PubSub<String> = PubSub::new();
    let spy = Spy::new();
    bus.subscribe_all(spy.subscriber());
    let _ = bus.publish_sync(&names.next(), "some payload".into());

    assert!(spy.called_once());
}

#[test]
fn fires_at_most_once_across_three_publishes() {
    let names = UniqueNames::new();
    let mut bus: PubSub<String> = PubSub::new();
    let topic = names.next();
    let spy = Spy::new();

    bus.subscribe_once(&topic, spy.subscriber());
    for _ in 0..3 {
        let _ = bus.publish_sync(&topic, names.next());
    }

    assert!(spy.called_once());
}

#[test]
fn subscribe_once_returns_a_token() {
    let names = UniqueNames::new();
    let mut bus: PubSub<String> = PubSub::new();
    let token = bus.subscribe_once(&names.next(), |_, _| {});
    assert!(token.as_str().starts_with("uid_"));
}

// ---- unsubscribe ----

#[test]
fn token_mode_returns_token_when_successful() {
    let names = UniqueNames::new();
    let mut bus: PubSub<String> = PubSub::new();
    let token = bus.subscribe(&names.next(), |_, _| {});
    assert_eq!(bus.unsubscribe(&token), Unsubscribed::Token(token.clone()));
}

#[test]
fn token_mode_returns_none_when_unsuccessful() {
    let names = UniqueNames::new();
    let mut bus: PubSub<String> = PubSub::new();

    let token = bus.subscribe(&names.next(), |_, _| {});

    bus.unsubscribe(&token);
    assert_eq!(bus.unsubscribe(&token), Unsubscribed::NoMatch);
}

#[test]
fn handle_mode_returns_removed_when_successful() {
    let names = UniqueNames::new();
    let mut bus: PubSub<String> = PubSub::new();
    let sub = bus.subscribe_handle(&names.next(), |_, _| {});
    assert_eq!(bus.unsubscribe_subscription(&sub), Unsubscribed::Removed);
}

#[test]
fn handle_mode_removes_all_then_returns_none_second_time() {
    let names = UniqueNames::new();
    let mut bus: PubSub<String> = PubSub::new();
    let message = names.next();

    let sub = bus.subscribe_handle(&message, |_, _| {});

    assert_eq!(bus.unsubscribe_subscription(&sub), Unsubscribed::Removed);
    assert_eq!(bus.unsubscribe_subscription(&sub), Unsubscribed::NoMatch);
}

#[test]
fn topic_mode_clears_exact_matches() {
    let names = UniqueNames::new();
    let mut bus: PubSub<String> = PubSub::new();
    let topic = names.next();
    let spy1 = Spy::new();
    let spy2 = Spy::new();
    bus.subscribe(&topic, spy1.subscriber());
    bus.subscribe(&topic, spy2.subscriber());

    bus.unsubscribe_topic(&topic);

    let _ = bus.publish_sync(&topic, names.next());

    assert!(!spy1.called());
    assert!(!spy2.called());
}

#[test]
fn topic_mode_clears_only_matched() {
    let names = UniqueNames::new();
    let mut bus: PubSub<String> = PubSub::new();
    let topic1 = names.next();
    let topic2 = names.next();
    let spy1 = Spy::new();
    let spy2 = Spy::new();
    bus.subscribe(&topic1, spy1.subscriber());
    bus.subscribe(&topic2, spy2.subscriber());

    bus.unsubscribe_topic(&topic1);

    let _ = bus.publish_sync(&topic1, names.next());
    let _ = bus.publish_sync(&topic2, names.next());

    assert!(!spy1.called());
    assert!(spy2.called());
}

#[test]
fn topic_mode_clears_hierarchical_descendants() {
    let names = UniqueNames::new();
    let mut bus: PubSub<String> = PubSub::new();
    let topic = names.next();
    let topic_a = format!("{topic}.a");
    let topic_b = format!("{topic}.a.b");
    let topic_c = format!("{topic}.a.b.c");
    let spy_a = Spy::new();
    let spy_b = Spy::new();
    let spy_c = Spy::new();
    bus.subscribe(&topic_a, spy_a.subscriber());
    bus.subscribe(&topic_b, spy_b.subscriber());
    bus.subscribe(&topic_c, spy_c.subscriber());

    bus.unsubscribe_topic(&topic_b);

    let _ = bus.publish_sync(&topic_c, names.next());

    assert!(spy_a.called());
    assert!(!spy_b.called());
    assert!(!spy_c.called());
}

#[test]
fn parent_topic_clears_child_subscriptions() {
    let names = UniqueNames::new();
    let mut bus: PubSub<String> = PubSub::new();
    let topic = names.next();
    let topic_a = format!("{topic}.a");
    let topic_b = format!("{topic}.a.b");
    let topic_c = format!("{topic}.a.b.c");
    let spy_b = Spy::new();
    let spy_c = Spy::new();

    bus.subscribe(&topic_b, spy_b.subscriber());
    bus.subscribe(&topic_c, spy_c.subscriber());

    bus.unsubscribe_topic(&topic_a);

    let _ = bus.publish_sync(&topic_b, names.next());
    let _ = bus.publish_sync(&topic_c, names.next());

    assert!(!spy_b.called());
    assert!(!spy_c.called());
}

#[test]
fn self_unsubscribe_during_publish_does_not_panic() {
    let names = UniqueNames::new();
    let bus: Rc<SharedPubSub<String>> = Rc::new(SharedPubSub::new());
    let topic = names.next();

    let token_slot: Rc<RefCell<Option<Token>>> = Rc::new(RefCell::new(None));
    let bus2 = bus.clone();
    let slot2 = token_slot.clone();
    let tok = bus.subscribe(&topic, move |_, _| {
        if let Some(t) = slot2.borrow().clone() {
            bus2.unsubscribe(&t);
        }
    });
    *token_slot.borrow_mut() = Some(tok);
    bus.subscribe(&topic, |_, _| {});

    let _ = bus.publish_sync(&topic, "hello world!".into());
}
