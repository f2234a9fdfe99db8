//! In-process, topic-based publish/subscribe message bus.
//!
//! A subscriber is a function called with `(topic, data)`. It is registered
//! against a topic string and identified by a [`Token`]. Publishing a value to
//! a topic runs every subscriber whose topic matches: the topic itself, each
//! dot-delimited ancestor (`a.b.c` reaches `a.b.c`, then `a.b`, then `a`), and
//! finally the wildcard topic `*`.
//!
//! The crate is layered:
//! - [`topic`]: the string logic of hierarchical addressing and prefix matching;
//! - [`token`]: subscription tokens and the outcomes of removal;
//! - [`callback`]: how subscriber closures are stored and shared;
//! - [`bus`]: [`PubSub`], the bus, with its model and an exact contract for
//!   every operation;
//! - [`shared`]: [`SharedPubSub`], the same bus behind a shared reference, so
//!   subscribers can call back into it while it delivers;
//! - [`laws`]: laws that relate several operations.

pub mod topic;
pub mod token;
pub mod callback;
pub mod bus;
pub mod shared;
pub mod laws;

pub use bus::{DeferredJob, PubSub};
pub use shared::SharedPubSub;
pub use callback::{Callback, Subscriber};
pub use token::{Subscription, Token, Unsubscribed};
pub use topic::ALL_SUBSCRIBING;
