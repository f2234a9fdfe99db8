# tiny_pubsub

An in-process, topic-based publish/subscribe bus with hierarchical,
dot-delimited topics, deferred or synchronous delivery, and a wildcard topic,
written in Verus.

- `src/topic.rs` — hierarchical addressing (which topics a publish reaches,
  in which order) and raw prefix matching, with the laws of addressing.
- `src/token.rs` — subscription tokens (`uid_<n>`), subscription handles and
  removal outcomes; token texts are proved injective.
- `src/callback.rs` — how subscriber closures are stored and shared.
- `src/bus.rs` — `PubSub`, the bus: its model, its invariant and every
  operation with an exact contract.
- `src/shared.rs` — `SharedPubSub`, the same bus behind a shared reference,
  so subscribers can call back into it while it delivers.
- `src/laws.rs` — laws that relate several operations.
- `app/lib.rs` — delivery that isolates panicking subscribers, which needs
  unwinding support the verified library does not use.
