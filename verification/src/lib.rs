//! A SWIM-style cluster membership and failure-detection core.
//!
//! A node keeps a weakly consistent view of cluster membership by combining a
//! randomized round-robin failure detector (direct pings, indirect pings
//! through `k` peers, and a suspect-to-failed escalation timer) with an
//! infection-style gossip layer that piggybacks state-change rumors on
//! failure-detector traffic. The core is driven from outside: a scheduler
//! calls `tick` once per protocol period with the current time and `process`
//! on every inbound message; both fill an outbox of messages to send.

pub mod laws;
pub mod msg;
pub mod server;
pub mod store;

mod rng;
