//! The wire taxonomy: rumors, message kinds, and the message envelope.
//!
//! Transport endpoints are opaque to the core; an address is carried as a
//! plain `u64` handle that the surrounding transport layer maps to a real
//! endpoint. Serialization is out of scope: the core produces and consumes
//! `Message` values.

use vstd::prelude::*;

verus! {

/// What a rumor says about a peer.
#[derive(Clone, Copy, Debug, PartialEq, Eq, Structural)]
pub enum RumorKind {
    /// The peer is alive; carries its address so receivers can learn new peers.
    Alive(u64),
    Suspect,
    Failed,
    Depart,
}

/// A state-change rumor disseminated on top of normal gossip.
#[derive(Clone, Copy, Debug, PartialEq, Eq, Structural)]
pub struct Rumor {
    /// Identifier of the node this rumor is about.
    pub peer_id: u64,
    pub kind: RumorKind,
    /// The incarnation the rumor speaks of; the sole conflict tiebreaker.
    pub incarnation: u64,
}

/// The state a node believes a peer to be in.
#[derive(Clone, Copy, Debug, PartialEq, Eq, Structural)]
pub enum PeerState {
    Alive,
    Suspect,
    Failed,
    Departed,
}

/// A known peer: identity `(id, addr)` plus mutable `(state, incarnation)`.
#[derive(Clone, Copy, Debug, PartialEq, Eq, Structural)]
pub struct Peer {
    pub id: u64,
    pub addr: u64,
    pub state: PeerState,
    pub incarnation: u64,
}

impl Peer {
    pub fn new(id: u64, addr: u64, incarnation: u64, state: PeerState) -> (p: Peer)
        ensures
            p == (Peer { id, addr, state, incarnation }),
    {
        Peer { id, addr, state, incarnation }
    }
}

/// Failure-detector message kinds. These piggyback the gossip layer.
#[derive(Clone, Debug)]
pub enum MsgKind {
    Ping,
    /// `Ack(peer_id, incarnation)`: the sender vouches that it saw `peer_id`
    /// alive at `incarnation` (for a direct ack, itself).
    Ack(u64, u64),
    /// Ask the recipient to ping `target_id` at `target` on our behalf.
    PingReq { target_id: u64, target: u64 },
    /// Anti-entropy: the sender's full membership snapshot.
    Push(Vec<Peer>),
    /// Anti-entropy: request a `Push`; may carry the requester's own peers.
    Pull(Vec<Peer>),
}

/// The message envelope.
#[derive(Clone, Debug)]
pub struct Message {
    pub recipient: u64,
    pub sender_id: u64,
    pub sender: u64,
    pub seq_no: u64,
    pub kind: MsgKind,
    /// Up to `PIGGYBACKED_MSGS` rumors attached to the envelope.
    pub gossip: Vec<Rumor>,
}

/// Maximum number of rumors piggybacked on one outgoing message.
pub const PIGGYBACKED_MSGS: usize = 10;

} // verus!
