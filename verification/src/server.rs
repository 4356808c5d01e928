//! The node state machine: peer table, pending-ping table, failure detector
//! and inbound message processor.
//!
//! The membership view of a node is modelled as a `Map<u64, Peer>` (the view
//! of the peer table) together with an ordered `Seq<u64>` of peer ids (the
//! memberlist) that drives round-robin ping selection. Every public operation
//! states how it transforms that model; the deterministic part of the
//! transformation is captured by the spec functions `remember_m`, `rumor_m`,
//! `merge_m`, `ack_m` and `process_m` below, so that inbound processing is
//! pinned down exactly. Randomness (where a new peer lands in the memberlist,
//! how the memberlist is reshuffled, which peers carry an indirect ping) is
//! specified by what holds of every outcome.
//!
//! The core consumes a monotonic clock from outside: `tick` and `process`
//! take the current time as a plain instant value.

use std::collections::HashMap;

use vstd::multiset::Multiset;
use vstd::prelude::*;

use crate::msg::Message;
use crate::msg::MsgKind;
use crate::msg::Peer;
use crate::msg::PeerState;
use crate::msg::Rumor;
use crate::msg::RumorKind;
use crate::msg::PIGGYBACKED_MSGS;
use crate::rng::random_index;
use crate::rng::shuffle_ids;
use crate::store::max_sends;
use crate::store::max_sends_spec;
use crate::store::wrap_inc;
use crate::store::wrap_inc_spec;
use crate::store::bc_le;
use crate::store::Broadcast;
use crate::store::BroadcastStore;
use crate::store::MAX_MEMBERS;

verus! {

broadcast use vstd::std_specs::hash::group_hash_axioms, vstd::seq_lib::group_to_multiset_ensures, vstd::multiset::group_multiset_axioms;

/// Ceiling on the configured protocol period, so that the suspicion period
/// `protocol_period * max_sends` stays within `u64` arithmetic
/// (`max_sends <= 37`).
pub const MAX_PERIOD: u64 = 288_230_376_151_711_743;

/// How a pending ping came to be.
#[derive(Clone, Copy, Debug, PartialEq, Eq, Structural)]
pub enum PingState {
    /// A direct round-robin ping of ours.
    Normal,
    /// Promoted to indirect pings through `k` intermediaries.
    Forwarded,
    /// A ping we sent on behalf of another node's ping-req.
    FromElsewhere,
}

/// An in-flight ping with its correlation data and timer origin.
#[derive(Clone, Copy, Debug, PartialEq, Eq, Structural)]
pub struct PendingPing {
    /// The peer being pinged.
    pub target: u64,
    /// The target's address.
    pub addr: u64,
    /// The sequence number the matching ack must carry.
    pub seq_no: u64,
    /// Who asked for this ping (ourselves, for a direct ping).
    pub requester: u64,
    pub state: PingState,
    /// When the ping was sent.
    pub sent_at: u64,
}

/// Whether some pending ping targets `id`.
pub open spec fn has_ping(pings: Seq<PendingPing>, id: u64) -> bool {
    exists|i: int| 0 <= i < pings.len() && pings[i].target == id
}

/// The pending ping that targets `id`; well defined whenever targets are
/// unique and `has_ping` holds.
pub open spec fn ping_of(pings: Seq<PendingPing>, id: u64) -> PendingPing {
    pings[choose|i: int| 0 <= i < pings.len() && pings[i].target == id]
}

/// At most one pending ping per target.
pub open spec fn pings_unique(pings: Seq<PendingPing>) -> bool {
    forall|i: int, j: int|
        0 <= i < j < pings.len() ==> pings[i].target != pings[j].target
}

/// The remember / peer-merge rule on the membership model. A peer already
/// known is updated only by a strictly larger incarnation, and its address is
/// never overwritten; an unknown peer is created, unless it is the local node
/// itself or the peer table has reached `MAX_MEMBERS`.
pub open spec fn remember_m(
    self_id: u64,
    m: Map<u64, Peer>,
    id: u64,
    addr: u64,
    incarnation: u64,
    state: PeerState,
) -> Map<u64, Peer> {
    if id == self_id {
        m
    } else if m.contains_key(id) {
        if incarnation > m[id].incarnation {
            m.insert(id, Peer { id, addr: m[id].addr, state, incarnation })
        } else {
            m
        }
    } else if m.len() < MAX_MEMBERS {
        m.insert(id, Peer { id, addr, state, incarnation })
    } else {
        m
    }
}

/// The gossip-application rule on the membership model, for one rumor.
/// Rumors about the local node never touch the peer table; conflict
/// resolution is by strict incarnation order; a `Failed` rumor removes the
/// peer; `Depart` is reserved and does nothing.
pub open spec fn rumor_m(self_id: u64, m: Map<u64, Peer>, r: Rumor) -> Map<u64, Peer> {
    match r.kind {
        RumorKind::Depart => m,
        RumorKind::Alive(addr) => {
            if r.peer_id == self_id {
                m
            } else if m.contains_key(r.peer_id) {
                if r.incarnation > m[r.peer_id].incarnation {
                    m.insert(
                        r.peer_id,
                        Peer {
                            id: r.peer_id,
                            addr: m[r.peer_id].addr,
                            state: PeerState::Alive,
                            incarnation: r.incarnation,
                        },
                    )
                } else {
                    m
                }
            } else {
                remember_m(self_id, m, r.peer_id, addr, r.incarnation, PeerState::Alive)
            }
        },
        RumorKind::Suspect => {
            if r.peer_id == self_id {
                m
            } else if m.contains_key(r.peer_id) && r.incarnation > m[r.peer_id].incarnation {
                m.insert(
                    r.peer_id,
                    Peer {
                        id: r.peer_id,
                        addr: m[r.peer_id].addr,
                        state: PeerState::Suspect,
                        incarnation: r.incarnation,
                    },
                )
            } else {
                m
            }
        },
        RumorKind::Failed => {
            if m.contains_key(r.peer_id) {
                m.remove(r.peer_id)
            } else {
                m
            }
        },
    }
}

/// The rumor the gossip-application rule enqueues for further dissemination,
/// if any: the rumor itself when it brought news, and a refutation at the
/// current local incarnation for a `Suspect` about the local node.
pub open spec fn rumor_pushed(
    self_id: u64,
    self_addr: u64,
    self_inc: u64,
    m: Map<u64, Peer>,
    r: Rumor,
) -> Option<Rumor> {
    match r.kind {
        RumorKind::Depart => None,
        RumorKind::Alive(_) => {
            if r.peer_id == self_id {
                Some(r)
            } else if m.contains_key(r.peer_id) {
                if r.incarnation > m[r.peer_id].incarnation {
                    Some(r)
                } else {
                    None
                }
            } else {
                Some(r)
            }
        },
        RumorKind::Suspect => {
            if r.peer_id == self_id {
                Some(Rumor { peer_id: self_id, kind: RumorKind::Alive(self_addr), incarnation: self_inc })
            } else if m.contains_key(r.peer_id) && r.incarnation > m[r.peer_id].incarnation {
                Some(r)
            } else {
                None
            }
        },
        RumorKind::Failed => {
            if m.contains_key(r.peer_id) {
                Some(r)
            } else {
                None
            }
        },
    }
}

/// The membership model after applying a sequence of rumors in order.
pub open spec fn rumors_m(self_id: u64, m: Map<u64, Peer>, rs: Seq<Rumor>) -> Map<u64, Peer>
    decreases rs.len(),
{
    if rs.len() == 0 {
        m
    } else {
        rumors_m(self_id, rumor_m(self_id, m, rs[0]), rs.skip(1))
    }
}

/// The membership model after merging a pushed or pulled peer list in order.
pub open spec fn merge_m(self_id: u64, m: Map<u64, Peer>, ps: Seq<Peer>) -> Map<u64, Peer>
    decreases ps.len(),
{
    if ps.len() == 0 {
        m
    } else {
        merge_m(
            self_id,
            remember_m(self_id, m, ps[0].id, ps[0].addr, ps[0].incarnation, ps[0].state),
            ps.skip(1),
        )
    }
}

/// The membership effect of a matching ack for `peer_id`: mark the peer
/// alive at the acked incarnation if that is news and the peer is not
/// already `Failed`; learn an unknown peer at the address the ping stored.
pub open spec fn ack_m(
    self_id: u64,
    pings: Seq<PendingPing>,
    m: Map<u64, Peer>,
    peer_id: u64,
    incarnation: u64,
) -> Map<u64, Peer> {
    if m.contains_key(peer_id) {
        if m[peer_id].state != PeerState::Failed && incarnation > m[peer_id].incarnation {
            m.insert(
                peer_id,
                Peer {
                    id: peer_id,
                    addr: m[peer_id].addr,
                    state: PeerState::Alive,
                    incarnation,
                },
            )
        } else {
            m
        }
    } else {
        remember_m(self_id, m, peer_id, ping_of(pings, peer_id).addr, incarnation, PeerState::Alive)
    }
}

/// Whether processing `msg` reaches its piggybacked rumors: every kind does,
/// except an ack dropped for want of a matching pending ping or sequence
/// number.
pub open spec fn gossip_applied(pings: Seq<PendingPing>, msg: Message) -> bool {
    match msg.kind {
        MsgKind::Ack(peer_id, _) => has_ping(pings, peer_id) && ping_of(pings, peer_id).seq_no
            == msg.seq_no,
        _ => true,
    }
}

/// The membership model after processing one inbound message: remember the
/// sender as alive, dispatch on the kind, then apply the piggybacked rumors.
/// An ack with no matching pending ping, or with a stale sequence number, is
/// dropped before its gossip is applied.
pub open spec fn process_m(
    self_id: u64,
    m: Map<u64, Peer>,
    pings: Seq<PendingPing>,
    msg: Message,
) -> Map<u64, Peer> {
    let m1 = remember_m(self_id, m, msg.sender_id, msg.sender, 0, PeerState::Alive);
    match msg.kind {
        MsgKind::Ping => rumors_m(self_id, m1, msg.gossip@),
        MsgKind::PingReq { .. } => rumors_m(self_id, m1, msg.gossip@),
        MsgKind::Ack(peer_id, incarnation) => {
            if !has_ping(pings, peer_id) || ping_of(pings, peer_id).seq_no != msg.seq_no {
                m1
            } else {
                rumors_m(self_id, ack_m(self_id, pings, m1, peer_id, incarnation), msg.gossip@)
            }
        },
        MsgKind::Push(ps) => rumors_m(self_id, merge_m(self_id, m1, ps@), msg.gossip@),
        MsgKind::Pull(ps) => rumors_m(self_id, merge_m(self_id, m1, ps@), msg.gossip@),
    }
}

/// Applying rumors is a left fold: appending one more rumor applies it to
/// the folded state.
pub proof fn lemma_rumors_m_snoc(self_id: u64, m: Map<u64, Peer>, rs: Seq<Rumor>, r: Rumor)
    ensures
        rumors_m(self_id, m, rs.push(r)) == rumor_m(self_id, rumors_m(self_id, m, rs), r),
    decreases rs.len(),
{
    if rs.len() == 0 {
        assert(rs.push(r)[0] == r);
        assert(rs.push(r).skip(1) =~= Seq::<Rumor>::empty());
        assert(rumors_m(self_id, m, rs.push(r)) == rumors_m(
            self_id,
            rumor_m(self_id, m, r),
            Seq::<Rumor>::empty(),
        ));
        assert(rumors_m(self_id, rumor_m(self_id, m, r), Seq::<Rumor>::empty()) == rumor_m(
            self_id,
            m,
            r,
        ));
        assert(rumors_m(self_id, m, rs) == m);
    } else {
        assert(rs.push(r)[0] == rs[0]);
        assert(rs.push(r).skip(1) =~= rs.skip(1).push(r));
        lemma_rumors_m_snoc(self_id, rumor_m(self_id, m, rs[0]), rs.skip(1), r);
        assert(rumors_m(self_id, m, rs.push(r)) == rumors_m(
            self_id,
            rumor_m(self_id, m, rs[0]),
            rs.skip(1).push(r),
        ));
        assert(rumors_m(self_id, m, rs) == rumors_m(self_id, rumor_m(self_id, m, rs[0]), rs.skip(1)));
    }
}

/// Merging peer lists is a left fold: appending one more peer remembers it
/// against the folded state.
pub proof fn lemma_merge_m_snoc(self_id: u64, m: Map<u64, Peer>, ps: Seq<Peer>, p: Peer)
    ensures
        merge_m(self_id, m, ps.push(p)) == remember_m(
            self_id,
            merge_m(self_id, m, ps),
            p.id,
            p.addr,
            p.incarnation,
            p.state,
        ),
    decreases ps.len(),
{
    if ps.len() == 0 {
        assert(ps.push(p)[0] == p);
        assert(ps.push(p).skip(1) =~= Seq::<Peer>::empty());
        assert(merge_m(self_id, m, ps.push(p)) == merge_m(
            self_id,
            remember_m(self_id, m, p.id, p.addr, p.incarnation, p.state),
            Seq::<Peer>::empty(),
        ));
        assert(merge_m(self_id, m, ps) == m);
    } else {
        assert(ps.push(p)[0] == ps[0]);
        assert(ps.push(p).skip(1) =~= ps.skip(1).push(p));
        lemma_merge_m_snoc(
            self_id,
            remember_m(self_id, m, ps[0].id, ps[0].addr, ps[0].incarnation, ps[0].state),
            ps.skip(1),
            p,
        );
        assert(merge_m(self_id, m, ps.push(p)) == merge_m(
            self_id,
            remember_m(self_id, m, ps[0].id, ps[0].addr, ps[0].incarnation, ps[0].state),
            ps.skip(1).push(p),
        ));
        assert(merge_m(self_id, m, ps) == merge_m(
            self_id,
            remember_m(self_id, m, ps[0].id, ps[0].addr, ps[0].incarnation, ps[0].state),
            ps.skip(1),
        ));
    }
}

/// How long the pending ping has been in flight at `now`.
pub open spec fn age_of(p: PendingPing, now: u64) -> int {
    if now >= p.sent_at {
        now - p.sent_at
    } else {
        0
    }
}

/// The rumor the expiry ladder enqueues for one pending ping, if any, given
/// the thresholds in force this tick, the peer table `m` and the memberlist
/// size `n`: a `Failed` rumor once a forwarded ping outlives the suspicion
/// period, a `Suspect` rumor once any ping of ours outlives the protocol
/// period (or immediately past the ping interval when no peer could carry an
/// indirect ping), each at the peer's stored incarnation.
pub open spec fn ladder_rumor(
    p: PendingPing,
    now: u64,
    pint: u64,
    proto: u64,
    susp: u64,
    m: Map<u64, Peer>,
    n: nat,
) -> Option<Rumor> {
    let e = age_of(p, now);
    if e > susp && p.state == PingState::Forwarded {
        if m.contains_key(p.target) {
            Some(
                Rumor {
                    peer_id: p.target,
                    incarnation: m[p.target].incarnation,
                    kind: RumorKind::Failed,
                },
            )
        } else {
            None
        }
    } else if e > proto {
        if p.state == PingState::FromElsewhere || !m.contains_key(p.target) {
            None
        } else {
            Some(
                Rumor {
                    peer_id: p.target,
                    incarnation: m[p.target].incarnation,
                    kind: RumorKind::Suspect,
                },
            )
        }
    } else if p.state != PingState::Forwarded && e > pint {
        if p.state != PingState::Normal {
            None
        } else if n <= 1 {
            Some(
                Rumor {
                    peer_id: p.target,
                    incarnation: if m.contains_key(p.target) {
                        m[p.target].incarnation
                    } else {
                        0
                    },
                    kind: RumorKind::Suspect,
                },
            )
        } else {
            None
        }
    } else {
        None
    }
}

/// What the expiry ladder leaves in the pending-ping table for one entry:
/// the entry itself while its timers still run, the entry re-tagged
/// `Forwarded` when it is promoted to indirect pings, and nothing once it is
/// expired, given up for someone else, or declared failed.
pub open spec fn ladder_keeps(
    p: PendingPing,
    now: u64,
    pint: u64,
    proto: u64,
    susp: u64,
    m: Map<u64, Peer>,
    n: nat,
) -> Option<PendingPing> {
    let e = age_of(p, now);
    if e > susp && p.state == PingState::Forwarded {
        None
    } else if e > proto {
        if p.state == PingState::FromElsewhere || !m.contains_key(p.target) {
            None
        } else {
            Some(p)
        }
    } else if p.state != PingState::Forwarded && e > pint {
        if p.state != PingState::Normal {
            None
        } else if n <= 1 {
            None
        } else {
            Some(
                PendingPing {
                    target: p.target,
                    addr: p.addr,
                    seq_no: p.seq_no,
                    requester: p.requester,
                    state: PingState::Forwarded,
                    sent_at: p.sent_at,
                },
            )
        }
    } else {
        Some(p)
    }
}

/// Whether the expiry ladder declares this entry's target failed.
pub open spec fn ladder_removes(p: PendingPing, now: u64, susp: u64, m: Map<u64, Peer>) -> bool {
    age_of(p, now) > susp && p.state == PingState::Forwarded && m.contains_key(p.target)
}

/// Whether some pending ping declares `k` failed this tick.
pub open spec fn removed_by_ladder(
    pings: Seq<PendingPing>,
    k: u64,
    now: u64,
    susp: u64,
    m: Map<u64, Peer>,
) -> bool {
    exists|j: int| 0 <= j < pings.len() && pings[j].target == k && ladder_removes(pings[j], now, susp, m)
}

/// Some entry among the first `bound` pending pings is retained by the
/// ladder as exactly `q`.
pub open spec fn kept_listed(
    pl: Seq<PendingPing>,
    q: PendingPing,
    bound: int,
    now: u64,
    pint: u64,
    proto: u64,
    susp: u64,
    m: Map<u64, Peer>,
    n: nat,
) -> bool {
    exists|j: int|
        0 <= j < bound && ladder_keeps(#[trigger] pl[j], now, pint, proto, susp, m, n) == Some(q)
}

/// Some entry among the first `bound` pending pings owes the ladder rumor `r`.
pub open spec fn rumor_listed(
    pl: Seq<PendingPing>,
    r: Rumor,
    bound: int,
    now: u64,
    pint: u64,
    proto: u64,
    susp: u64,
    m: Map<u64, Peer>,
    n: nat,
) -> bool {
    exists|j: int|
        0 <= j < bound && ladder_rumor(#[trigger] pl[j], now, pint, proto, susp, m, n) == Some(r)
}

/// Some entry among the first `bound` pending pings declares `t` failed.
pub open spec fn removal_listed(
    pl: Seq<PendingPing>,
    t: u64,
    bound: int,
    now: u64,
    susp: u64,
    m: Map<u64, Peer>,
) -> bool {
    exists|j: int|
        0 <= j < bound && (#[trigger] pl[j]).target == t && ladder_removes(pl[j], now, susp, m)
}

/// Whether the expiry ladder escalates this entry to indirect pings.
pub open spec fn ladder_forwards(
    p: PendingPing,
    now: u64,
    pint: u64,
    proto: u64,
    susp: u64,
    n: nat,
) -> bool {
    &&& !(age_of(p, now) > susp && p.state == PingState::Forwarded)
    &&& !(age_of(p, now) > proto)
    &&& p.state == PingState::Normal
    &&& age_of(p, now) > pint
    &&& n > 1
}

/// One ladder iteration appends to the kept table exactly what
/// `ladder_keeps` retains for the entry.
pub open spec fn kept_step(
    pre: Seq<PendingPing>,
    post: Seq<PendingPing>,
    p: PendingPing,
    now: u64,
    pint: u64,
    proto: u64,
    susp: u64,
    m: Map<u64, Peer>,
    n: nat,
) -> bool {
    match ladder_keeps(p, now, pint, proto, susp, m, n) {
        Some(q) => post == pre.push(q),
        None => post == pre,
    }
}

/// The pending entry a fresh direct round-robin ping registers.
pub open spec fn fresh_ping_entry(t: u64, m: Map<u64, Peer>, self_id: u64, seq: u64, now: u64) -> PendingPing {
    PendingPing {
        target: t,
        addr: m[t].addr,
        seq_no: seq,
        requester: self_id,
        state: PingState::Normal,
        sent_at: now,
    }
}

/// `msgs` holds, somewhere, a run of `cnt` ping-req messages escalating the
/// pending ping `p`: each carries `p`'s own sequence number and target, and
/// they go to `cnt` pairwise distinct members other than the target.
pub open spec fn pingreq_run(
    msgs: Seq<Message>,
    self_id: u64,
    self_addr: u64,
    p: PendingPing,
    m: Map<u64, Peer>,
    lo: int,
    cnt: int,
) -> bool {
    &&& 0 <= lo
    &&& lo + cnt <= msgs.len()
    &&& forall|x: int|
        lo <= x < lo + cnt ==> ({
            let mm = #[trigger] msgs[x];
            &&& mm.kind == (MsgKind::PingReq { target_id: p.target, target: p.addr })
            &&& mm.seq_no == p.seq_no
            &&& mm.sender_id == self_id
            &&& mm.sender == self_addr
            &&& mm.recipient != p.target
            &&& m.contains_key(mm.recipient)
        })
    &&& forall|x: int, y: int| lo <= x < y < lo + cnt ==> msgs[x].recipient != msgs[y].recipient
}

pub open spec fn pingreq_block(
    msgs: Seq<Message>,
    self_id: u64,
    self_addr: u64,
    p: PendingPing,
    m: Map<u64, Peer>,
    cnt: int,
) -> bool {
    exists|lo: int| pingreq_run(msgs, self_id, self_addr, p, m, lo, cnt)
}

/// How many recipients an escalation reaches: `min(k, |memberlist|)` further
/// capped by the peers actually available once the target is excluded.
pub open spec fn pingreq_cnt(sz: nat, n: nat, target_member: bool) -> int {
    let k = if sz < n {
        sz as int
    } else {
        n as int
    };
    let avail = n - (if target_member {
        1int
    } else {
        0int
    });
    if k < avail {
        k
    } else {
        avail
    }
}

/// A block of ping-req messages survives any extension of the batch.
pub proof fn lemma_pingreq_block_extend(
    msgs: Seq<Message>,
    msgs2: Seq<Message>,
    self_id: u64,
    self_addr: u64,
    p: PendingPing,
    m: Map<u64, Peer>,
    cnt: int,
)
    requires
        pingreq_block(msgs, self_id, self_addr, p, m, cnt),
        msgs.len() <= msgs2.len(),
        forall|x: int| 0 <= x < msgs.len() ==> msgs2[x] == msgs[x],
    ensures
        pingreq_block(msgs2, self_id, self_addr, p, m, cnt),
{
    let lo = choose|lo: int| pingreq_run(msgs, self_id, self_addr, p, m, lo, cnt);
    assert(forall|x: int| lo <= x < lo + cnt ==> msgs2[x] == msgs[x]);
    assert forall|x: int|
        lo <= x < lo + cnt implies ({
        let mm = #[trigger] msgs2[x];
        &&& mm.kind == (MsgKind::PingReq { target_id: p.target, target: p.addr })
        &&& mm.seq_no == p.seq_no
        &&& mm.sender_id == self_id
        &&& mm.sender == self_addr
        &&& mm.recipient != p.target
        &&& m.contains_key(mm.recipient)
    }) by {
        assert(msgs2[x] == msgs[x]);
        assert(msgs[x].seq_no == p.seq_no);
    }
    assert(forall|x: int, y: int|
        lo <= x < y < lo + cnt ==> msgs2[x].recipient != msgs2[y].recipient);
    assert(pingreq_run(msgs2, self_id, self_addr, p, m, lo, cnt));
}

/// The rumor stands in the store, or rides in the gossip tail of one of the
/// emitted messages.
pub open spec fn rumor_spread(store: Multiset<Broadcast>, msgs: Seq<Message>, r: Rumor) -> bool {
    from_store(store, r) || exists|i: int, j: int|
        0 <= i < msgs.len() && 0 <= j < msgs[i].gossip@.len() && msgs[i].gossip@[j] == r
}

/// `b` with one more send charged.
pub open spec fn bump(b: Broadcast) -> Broadcast {
    Broadcast { msg: b.msg, id: b.id, sends: (b.sends + 1) as u64 }
}

/// The entry is still in the store, with at least as many sends charged.
pub open spec fn descended(pre: Multiset<Broadcast>, b: Broadcast) -> bool {
    exists|s: u64| s <= b.sends && pre.contains(Broadcast { msg: b.msg, id: b.id, sends: s })
}

/// After a piggyback selection, an entry of the store beforehand either
/// still stands in the store (with the same or more sends) or its rumor was
/// carried out in the selection.
pub open spec fn rumor_retained(post: Multiset<Broadcast>, msgs: Seq<Rumor>, b: Broadcast) -> bool {
    (exists|s2: u64|
        b.sends <= s2 && post.contains(Broadcast { msg: b.msg, id: b.id, sends: s2 }))
        || msgs.contains(b.msg)
}

/// The selection trace of one piggyback run: the rumors returned are the
/// messages of entries `bs` popped in priority order — `bc_le`-sorted, the
/// first a least element of the whole store beforehand — and every popped
/// entry still under the send budget `ms` was re-enqueued with one more
/// send (and possibly popped again later in the same run).
pub open spec fn gossip_trace(
    pre: Multiset<Broadcast>,
    post: Multiset<Broadcast>,
    msgs: Seq<Rumor>,
    bs: Seq<Broadcast>,
    ms: nat,
) -> bool {
    &&& bs.len() == msgs.len()
    &&& forall|x: int| 0 <= x < bs.len() ==> (#[trigger] bs[x]).msg == msgs[x]
    &&& forall|x: int, y: int| 0 <= x < y < bs.len() ==> bc_le(#[trigger] bs[x], #[trigger] bs[y])
    &&& forall|x: int| 0 <= x < bs.len() ==> descended(pre, #[trigger] bs[x])
    &&& bs.len() > 0 ==> (forall|e: Broadcast| pre.contains(e) ==> bc_le(bs[0], e))
    &&& forall|x: int|
        0 <= x < bs.len() && (#[trigger] bs[x]).sends as int <= ms as int - 2 ==> (post.contains(
            bump(bs[x]),
        ) || exists|y: int| x < y < bs.len() && bs[y] == bump(bs[x]))
}

/// Some entry of the store carries this rumor.
pub open spec fn from_store(pre: Multiset<Broadcast>, r: Rumor) -> bool {
    exists|b: Broadcast| pre.contains(b) && b.msg == r
}

/// A broadcast entry either sat untouched in the store, or was popped for a
/// piggyback and re-enqueued with one more send, within the budget `ms`.
pub open spec fn evolved_entry(pre: Multiset<Broadcast>, e: Broadcast, ms: nat) -> bool {
    pre.contains(e) || (1 <= e.sends && e.sends as int <= ms as int - 1 && exists|s: u64|
        s < e.sends && pre.contains(Broadcast { msg: e.msg, id: e.id, sends: s }))
}

/// A SWIM node.
pub struct Server {
    /// The local node's stable identifier.
    pub id: u64,
    /// The local node's own transport address, as told to peers.
    pub addr: u64,
    /// Sequence number stamped on outgoing pings and acks; wraps.
    pub seq_no: u64,
    /// The local incarnation counter.
    pub incarnation: u64,
    /// Fanout of indirect pings.
    pub pingreq_subgroup_sz: usize,
    /// Age after which a direct ping is promoted to indirect pings.
    pub ping_interval: u64,
    /// Age after which indirect pings are given up and a `Suspect` rumor is
    /// emitted; also the tick interval.
    pub protocol_period: u64,
    /// Age after which a still-unacked forwarded ping declares the target
    /// `Failed`; recomputed as `protocol_period * max_sends` on each gossip.
    pub suspicion_period: u64,
    /// The rumor store.
    pub broadcasts: BroadcastStore,
    /// In-flight pings, at most one per target.
    pub pings: Vec<PendingPing>,
    /// Index into `memberlist` of the next round-robin ping target.
    pub last_pinged: usize,
    /// Orders peer ids for round-robin ping selection.
    pub memberlist: Vec<u64>,
    /// The peer table.
    pub membership: HashMap<u64, Peer>,
    /// Messages produced and not yet handed to the transport.
    pub outbox: Vec<Message>,
}

impl Server {
    /// A message this node may emit: correctly attributed, with a bounded
    /// gossip tail.
    pub open spec fn msg_ok(&self, m: Message) -> bool {
        m.sender_id == self.id && m.sender == self.addr && m.gossip@.len() <= PIGGYBACKED_MSGS
    }

    /// Well-formedness: the memberlist is a duplicate-free enumeration of the
    /// peer table's keys (so the two always have the same size), the local
    /// node is in neither, peers are keyed by their own id, sizes and periods
    /// respect the arithmetic ceilings, pending pings have unique targets,
    /// and everything in the outbox is a message of ours.
    pub open spec fn wf(&self) -> bool {
        &&& self.memberlist@.no_duplicates()
        &&& forall|i: int|
            0 <= i < self.memberlist@.len() ==> self.membership@.contains_key(
                #[trigger] self.memberlist@[i],
            )
        &&& forall|k: u64|
            #[trigger] self.membership@.contains_key(k) ==> self.memberlist@.contains(k)
        &&& self.memberlist@.len() == self.membership@.len()
        &&& !self.membership@.contains_key(self.id)
        &&& forall|k: u64|
            #[trigger] self.membership@.contains_key(k) ==> self.membership@[k].id == k
        &&& self.membership@.len() <= MAX_MEMBERS
        &&& self.protocol_period <= MAX_PERIOD
        &&& pings_unique(self.pings@)
        &&& forall|i: int|
            0 <= i < self.outbox@.len() ==> self.msg_ok(#[trigger] self.outbox@[i])
    }

    /// Fields that no operation but `new` ever changes.
    pub open spec fn same_identity(pre: &Server, post: &Server) -> bool {
        &&& post.id == pre.id
        &&& post.addr == pre.addr
        &&& post.pingreq_subgroup_sz == pre.pingreq_subgroup_sz
        &&& post.ping_interval == pre.ping_interval
        &&& post.protocol_period == pre.protocol_period
    }

    /// Create a node that knows no peers yet.
    pub fn new(
        id: u64,
        addr: u64,
        ping_interval: u64,
        pingreq_subgroup_sz: usize,
        gossip_interval: u64,
        suspicion_period: u64,
    ) -> (s: Server)
        requires
            gossip_interval <= MAX_PERIOD,
        ensures
            s.wf(),
            s.id == id,
            s.addr == addr,
            s.seq_no == 1,
            s.incarnation == 1,
            s.pingreq_subgroup_sz == pingreq_subgroup_sz,
            s.ping_interval == ping_interval,
            s.protocol_period == gossip_interval,
            s.suspicion_period == suspicion_period,
            s.broadcasts.contents() == Multiset::<Broadcast>::empty(),
            s.pings@ == Seq::<PendingPing>::empty(),
            s.last_pinged == 0,
            s.memberlist@ == Seq::<u64>::empty(),
            s.membership@ == Map::<u64, Peer>::empty(),
            s.outbox@ == Seq::<Message>::empty(),
    {
        Server {
            id,
            addr,
            pingreq_subgroup_sz,
            ping_interval,
            protocol_period: gossip_interval,
            suspicion_period,
            seq_no: 1,
            incarnation: 1,
            broadcasts: BroadcastStore::new(),
            pings: Vec::new(),
            last_pinged: 0,
            memberlist: Vec::new(),
            membership: HashMap::new(),
            outbox: Vec::new(),
        }
    }

    /// Whether a ping to `id` is still in flight.
    pub fn has_pending_ping(&self, id: u64) -> (r: bool)
        ensures
            r == has_ping(self.pings@, id),
    {
        let mut i: usize = 0;
        while i < self.pings.len()
            invariant
                i <= self.pings@.len(),
                forall|j: int| 0 <= j < i ==> self.pings@[j].target != id,
            decreases self.pings@.len() - i,
        {
            if self.pings[i].target == id {
                return true;
            }
            i = i + 1;
        }
        false
    }

    /// Index of the pending ping for `id`, if one is in flight.
    fn find_ping(&self, id: u64) -> (r: Option<usize>)
        ensures
            r is None ==> !has_ping(self.pings@, id),
            r matches Some(i) ==> i < self.pings@.len() && self.pings@[i as int].target == id,
    {
        let mut i: usize = 0;
        while i < self.pings.len()
            invariant
                i <= self.pings@.len(),
                forall|j: int| 0 <= j < i ==> self.pings@[j].target != id,
            decreases self.pings@.len() - i,
        {
            if self.pings[i].target == id {
                return Some(i);
            }
            i = i + 1;
        }
        None
    }

    /// Index of `id` in the memberlist, if present.
    fn find_member_idx(&self, id: u64) -> (r: Option<usize>)
        ensures
            r is None ==> !self.memberlist@.contains(id),
            r matches Some(i) ==> i < self.memberlist@.len() && self.memberlist@[i as int] == id,
    {
        let mut i: usize = 0;
        while i < self.memberlist.len()
            invariant
                i <= self.memberlist@.len(),
                forall|j: int| 0 <= j < i ==> self.memberlist@[j] != id,
            decreases self.memberlist@.len() - i,
        {
            if self.memberlist[i] == id {
                return Some(i);
            }
            i = i + 1;
        }
        None
    }

    /// Apply the remember / merge rule for one sighting of a peer. A newly
    /// created peer is inserted at a uniformly random memberlist position.
    fn remember(&mut self, id: u64, addr: u64, incarnation: u64, state: PeerState)
        requires
            old(self).wf(),
        ensures
            final(self).wf(),
            Server::same_identity(old(self), final(self)),
            final(self).membership@ == remember_m(
                old(self).id,
                old(self).membership@,
                id,
                addr,
                incarnation,
                state,
            ),
            final(self).seq_no == old(self).seq_no,
            final(self).incarnation == old(self).incarnation,
            final(self).suspicion_period == old(self).suspicion_period,
            final(self).broadcasts == old(self).broadcasts,
            final(self).pings@ == old(self).pings@,
            final(self).last_pinged == old(self).last_pinged,
            final(self).outbox@ == old(self).outbox@,
            (id == old(self).id || old(self).membership@.contains_key(id) || old(
                self,
            ).membership@.len() >= MAX_MEMBERS) ==> final(self).memberlist@ == old(
                self,
            ).memberlist@,
            !(id == old(self).id || old(self).membership@.contains_key(id) || old(
                self,
            ).membership@.len() >= MAX_MEMBERS) ==> exists|pos: int|
                0 <= pos <= old(self).memberlist@.len() && final(self).memberlist@ == old(
                    self,
                ).memberlist@.insert(pos, id),
    {
        if id == self.id {
            return ;
        }
        let known = self.membership.contains_key(&id);
        if known {
            let cur = *self.membership.get(&id).unwrap();
            if incarnation > cur.incarnation {
                let p = Peer { id, addr: cur.addr, state, incarnation };
                self.membership.insert(id, p);
                proof {
                    assert(self.membership@ =~= old(self).membership@.insert(id, p));
                    assert(self.membership@.len() == old(self).membership@.len());
                }
            }
        } else {
            if (self.membership.len() as u64) < MAX_MEMBERS {
                let p = Peer { id, addr, state, incarnation };
                let n = random_index(self.memberlist.len());
                self.memberlist.insert(n, p.id);
                self.membership.insert(id, p);
                proof {
                    let s = old(self).memberlist@;
                    let t = s.insert(n as int, id);
                    lemma_seq_insert_effect(s, n as int, id);
                    assert(self.memberlist@ == t);
                    assert(self.membership@.len() == old(self).membership@.len() + 1);
                    assert forall|i2: int|
                        0 <= i2 < t.len() implies self.membership@.contains_key(
                        #[trigger] t[i2],
                    ) by {
                        if t[i2] != id {
                            assert(s.contains(t[i2]));
                            let j = choose|j: int| 0 <= j < s.len() && s[j] == t[i2];
                            assert(old(self).membership@.contains_key(s[j]));
                        }
                    }
                    assert forall|k: u64|
                        #[trigger] self.membership@.contains_key(k) implies self
                        .memberlist@.contains(k) by {
                        if k != id {
                            assert(old(self).membership@.contains_key(k));
                            assert(s.contains(k));
                            assert(t.contains(k));
                        } else {
                            s.insert_ensures(n as int, id);
                            assert(t[n as int] == id);
                            assert(t.contains(id));
                        }
                    }
                }
            }
        }
    }

    /// Join a cluster the given peer belongs to: if it is unknown, enqueue a
    /// `Pull` asking for its membership.
    pub fn join(&mut self, peer_id: u64, addr: u64)
        requires
            old(self).wf(),
        ensures
            final(self).wf(),
            Server::same_identity(old(self), final(self)),
            final(self).membership@ == old(self).membership@,
            final(self).memberlist@ == old(self).memberlist@,
            final(self).pings@ == old(self).pings@,
            final(self).seq_no == old(self).seq_no,
            final(self).incarnation == old(self).incarnation,
            final(self).suspicion_period == old(self).suspicion_period,
            final(self).broadcasts == old(self).broadcasts,
            final(self).last_pinged == old(self).last_pinged,
            old(self).membership@.contains_key(peer_id) ==> final(self).outbox@ == old(
                self,
            ).outbox@,
            !old(self).membership@.contains_key(peer_id) ==> {
                &&& final(self).outbox@.len() == old(self).outbox@.len() + 1
                &&& final(self).outbox@.subrange(0, old(self).outbox@.len() as int) == old(
                    self,
                ).outbox@
                &&& ({
                    let m = final(self).outbox@.last();
                    &&& m.recipient == peer_id
                    &&& m.sender_id == old(self).id
                    &&& m.sender == old(self).addr
                    &&& m.seq_no == 0
                    &&& m.kind matches MsgKind::Pull(ps) && ps@ == Seq::<Peer>::empty()
                    &&& m.gossip@ == Seq::<Rumor>::empty()
                })
            },
    {
        if self.membership.contains_key(&peer_id) {
            return ;
        }
        let m = Message {
            recipient: peer_id,
            sender_id: self.id,
            sender: self.addr,
            seq_no: 0,
            kind: MsgKind::Pull(Vec::new()),
            gossip: Vec::new(),
        };
        self.outbox.push(m);
        proof {
            assert(final(self).outbox@.subrange(0, old(self).outbox@.len() as int) =~= old(
                self,
            ).outbox@);
        }
    }

    /// A snapshot of the current membership, the local node first, as Alive
    /// at its current incarnation.
    pub fn current_membership(&self) -> (r: Vec<Peer>)
        requires
            self.wf(),
        ensures
            r@.len() == self.membership@.len() + 1,
            r@[0] == (Peer {
                id: self.id,
                addr: self.addr,
                state: PeerState::Alive,
                incarnation: self.incarnation,
            }),
            forall|i: int|
                1 <= i < r@.len() ==> #[trigger] r@[i] == self.membership@[self.memberlist@[i
                    - 1]],
            forall|k: u64|
                #[trigger] self.membership@.contains_key(k) ==> exists|i: int|
                    1 <= i < r@.len() && r@[i].id == k,
    {
        let peer_self = Peer {
            id: self.id,
            addr: self.addr,
            state: PeerState::Alive,
            incarnation: self.incarnation,
        };
        let mut peers: Vec<Peer> = Vec::new();
        peers.push(peer_self);
        let mut i: usize = 0;
        while i < self.memberlist.len()
            invariant
                self.wf(),
                i <= self.memberlist@.len(),
                peers@.len() == i + 1,
                peers@[0] == (Peer {
                    id: self.id,
                    addr: self.addr,
                    state: PeerState::Alive,
                    incarnation: self.incarnation,
                }),
                forall|j: int|
                    1 <= j < peers@.len() ==> #[trigger] peers@[j] == self.membership@[self
                        .memberlist@[j - 1]],
            decreases self.memberlist@.len() - i,
        {
            let id = self.memberlist[i];
            let p = *self.membership.get(&id).unwrap();
            peers.push(p);
            i = i + 1;
        }
        proof {
            assert forall|k: u64| #[trigger] self.membership@.contains_key(k) implies (exists|j: int|
                1 <= j < peers@.len() && peers@[j].id == k) by {
                let idx = choose|idx: int|
                    0 <= idx < self.memberlist@.len() && self.memberlist@[idx] == k;
                assert(peers@[idx + 1] == self.membership@[k]);
                assert(peers@[idx + 1].id == k);
            }
        }
        peers
    }

    /// Select up to `PIGGYBACKED_MSGS` rumors for one outgoing message,
    /// popped in priority order (fewest sends first, then smallest insertion
    /// ordinal), re-enqueueing each popped entry with one more send charged
    /// while its count stays under `max_sends - 1`; an entry is therefore
    /// carried by at most `max_sends` outgoing messages while the membership
    /// size stands. Also recomputes the suspicion period as
    /// `protocol_period * max_sends`.
    fn gossip(&mut self) -> (msgs: Vec<Rumor>)
        requires
            old(self).wf(),
        ensures
            final(self).wf(),
            Server::same_identity(old(self), final(self)),
            msgs@.len() <= PIGGYBACKED_MSGS,
            final(self).suspicion_period == old(self).protocol_period * max_sends_spec(
                old(self).membership@.len(),
            ),
            final(self).membership@ == old(self).membership@,
            final(self).memberlist@ == old(self).memberlist@,
            final(self).pings@ == old(self).pings@,
            final(self).outbox@ == old(self).outbox@,
            final(self).seq_no == old(self).seq_no,
            final(self).incarnation == old(self).incarnation,
            final(self).last_pinged == old(self).last_pinged,
            forall|e: Broadcast|
                final(self).broadcasts.contents().contains(e) ==> evolved_entry(
                    old(self).broadcasts.contents(),
                    e,
                    max_sends_spec(old(self).membership@.len()),
                ),
            forall|i: int|
                0 <= i < msgs@.len() ==> from_store(
                    old(self).broadcasts.contents(),
                    #[trigger] msgs@[i],
                ),
            forall|b: Broadcast|
                old(self).broadcasts.contents().contains(b) ==> rumor_retained(
                    final(self).broadcasts.contents(),
                    msgs@,
                    b,
                ),
            exists|bs: Seq<Broadcast>|
                gossip_trace(
                    old(self).broadcasts.contents(),
                    final(self).broadcasts.contents(),
                    msgs@,
                    bs,
                    max_sends_spec(old(self).membership@.len()),
                ),
            final(self).broadcasts.contents().len() == 0 || msgs@.len() == PIGGYBACKED_MSGS,
    {
        let n: u64 = self.membership.len() as u64;
        let ms = max_sends(n);
        proof {
            let pp = self.protocol_period;
            assert(pp * ms <= 37 * MAX_PERIOD) by (nonlinear_arith)
                requires
                    pp <= MAX_PERIOD,
                    ms <= 37,
            ;
        }
        self.suspicion_period = self.protocol_period * ms;
        let ghost pre0 = self.broadcasts.contents();
        proof {
            assert forall|b: Broadcast| pre0.contains(b) implies rumor_retained(
                self.broadcasts.contents(),
                Seq::<Rumor>::empty(),
                b,
            ) by {
                assert((Broadcast { msg: b.msg, id: b.id, sends: b.sends }) == b);
            }
        }
        let ghost mut bs: Seq<Broadcast> = Seq::empty();
        let mut msgs: Vec<Rumor> = Vec::new();
        let mut done = false;
        while !done && msgs.len() < PIGGYBACKED_MSGS
            invariant
                Server::same_identity(old(self), self),
                self.membership@ == old(self).membership@,
                self.memberlist@ == old(self).memberlist@,
                self.pings@ == old(self).pings@,
                self.outbox@ == old(self).outbox@,
                self.seq_no == old(self).seq_no,
                self.incarnation == old(self).incarnation,
                self.last_pinged == old(self).last_pinged,
                self.suspicion_period == old(self).protocol_period * max_sends_spec(
                    old(self).membership@.len(),
                ),
                old(self).wf(),
                self.wf(),
                pre0 == old(self).broadcasts.contents(),
                msgs@.len() <= PIGGYBACKED_MSGS,
                ms == max_sends_spec(old(self).membership@.len()),
                1 <= ms <= 37,
                forall|e: Broadcast|
                    self.broadcasts.contents().contains(e) ==> evolved_entry(pre0, e, ms as nat),
                forall|i: int|
                    0 <= i < msgs@.len() ==> from_store(pre0, #[trigger] msgs@[i]),
                done ==> self.broadcasts.contents().len() == 0,
                bs.len() == msgs@.len(),
                forall|x: int| 0 <= x < bs.len() ==> (#[trigger] bs[x]).msg == msgs@[x],
                forall|x: int, y: int|
                    0 <= x < y < bs.len() ==> bc_le(#[trigger] bs[x], #[trigger] bs[y]),
                forall|x: int| 0 <= x < bs.len() ==> descended(pre0, #[trigger] bs[x]),
                bs.len() == 0 ==> self.broadcasts.contents() == pre0,
                bs.len() > 0 ==> (forall|e: Broadcast| pre0.contains(e) ==> bc_le(bs[0], e)),
                bs.len() > 0 ==> (forall|e: Broadcast|
                    self.broadcasts.contents().contains(e) ==> bc_le(bs[bs.len() - 1], e)),
                forall|x: int|
                    0 <= x < bs.len() && (#[trigger] bs[x]).sends as int <= ms as int - 2 ==> (
                    self.broadcasts.contents().contains(bump(bs[x])) || exists|y: int|
                        x < y < bs.len() && bs[y] == bump(bs[x])),
                forall|b: Broadcast|
                    pre0.contains(b) ==> rumor_retained(
                        self.broadcasts.contents(),
                        msgs@,
                        b,
                    ),
            decreases (if done { 0int } else { 1int }), PIGGYBACKED_MSGS - msgs@.len(),
        {
            let ghost pre_iter = self.broadcasts.contents();
            let ghost bs_pre = bs;
            let ghost msgs_pre = msgs@;
            match self.broadcasts.pop() {
                Some(update) => {
                    proof {
                        assert(pre_iter.contains(update));
                        assert(evolved_entry(pre0, update, ms as nat));
                        assert(descended(pre0, update)) by {
                            if pre0.contains(update) {
                                assert(pre0.contains(
                                    Broadcast { msg: update.msg, id: update.id, sends: update.sends },
                                ));
                            }
                        }
                        assert(from_store(pre0, update.msg)) by {
                            let s = choose|s: u64|
                                s <= update.sends && pre0.contains(
                                    Broadcast { msg: update.msg, id: update.id, sends: s },
                                );
                            assert(pre0.contains(
                                Broadcast { msg: update.msg, id: update.id, sends: s },
                            ));
                        }
                    }
                    let replayed = update.sends < ms - 1;
                    if replayed {
                        self.broadcasts.replay_broadcast(update);
                        proof {
                            assert(self.broadcasts.contents() == pre_iter.remove(update).insert(
                                bump(update),
                            ));
                            assert(evolved_entry(pre0, bump(update), ms as nat)) by {
                                assert(1 <= bump(update).sends && bump(update).sends as int <= ms
                                    as int - 1);
                                let s = choose|s: u64|
                                    s <= update.sends && pre0.contains(
                                        Broadcast { msg: update.msg, id: update.id, sends: s },
                                    );
                                assert(pre0.contains(
                                    Broadcast { msg: bump(update).msg, id: bump(update).id, sends: s },
                                ));
                                assert(s < bump(update).sends);
                            }
                            assert forall|e: Broadcast|
                                self.broadcasts.contents().contains(e) implies evolved_entry(
                                pre0,
                                e,
                                ms as nat,
                            ) by {
                                if e != bump(update) {
                                    assert(pre_iter.remove(update).contains(e));
                                    assert(pre_iter.contains(e));
                                }
                            }
                        }
                    } else {
                        proof {
                            assert(self.broadcasts.contents() == pre_iter.remove(update));
                            assert forall|e: Broadcast|
                                self.broadcasts.contents().contains(e) implies evolved_entry(
                                pre0,
                                e,
                                ms as nat,
                            ) by {
                                assert(pre_iter.contains(e));
                            }
                        }
                    }
                    msgs.push(update.msg);
                    proof {
                        bs = bs.push(update);
                        assert(msgs@ == msgs_pre.push(update.msg));
                        assert(bs[bs.len() - 1] == update);
                        assert forall|i2: int| 0 <= i2 < msgs@.len() implies from_store(
                            pre0,
                            #[trigger] msgs@[i2],
                        ) by {
                            if i2 < msgs_pre.len() {
                                assert(msgs@[i2] == msgs_pre[i2]);
                            } else {
                                assert(msgs@[i2] == update.msg);
                            }
                        }
                        // the popped entry extends the sorted trace
                        assert forall|x: int, y: int|
                            0 <= x < y < bs.len() implies bc_le(
                            #[trigger] bs[x],
                            #[trigger] bs[y],
                        ) by {
                            if y == bs.len() - 1 {
                                let last = bs_pre[bs_pre.len() - 1];
                                assert(bc_le(last, update));
                                assert(bs[x] == bs_pre[x]);
                                if x < bs_pre.len() - 1 {
                                    assert(bc_le(bs_pre[x], last));
                                }
                            } else {
                                assert(bs[x] == bs_pre[x] && bs[y] == bs_pre[y]);
                            }
                        }
                        assert forall|x: int| 0 <= x < bs.len() implies descended(
                            pre0,
                            #[trigger] bs[x],
                        ) by {
                            if x < bs_pre.len() {
                                assert(bs[x] == bs_pre[x]);
                            } else {
                                assert(bs[x] == update);
                            }
                        }
                        assert(bs.len() > 0 ==> (forall|e: Broadcast|
                            pre0.contains(e) ==> bc_le(bs[0], e))) by {
                            if bs_pre.len() == 0 {
                                assert(pre_iter == pre0);
                                assert(bs[0] == update);
                            } else {
                                assert(bs[0] == bs_pre[0]);
                            }
                        }
                        assert forall|e: Broadcast|
                            self.broadcasts.contents().contains(e) implies bc_le(
                            bs[bs.len() - 1],
                            e,
                        ) by {
                            if replayed && e == bump(update) {
                                assert(bc_le(update, bump(update)));
                            } else {
                                assert(pre_iter.remove(update).contains(e));
                                assert(pre_iter.contains(e));
                            }
                        }
                        assert forall|x: int|
                            0 <= x < bs.len() && (#[trigger] bs[x]).sends as int <= ms as int - 2
                            implies (self.broadcasts.contents().contains(bump(bs[x])) || exists|
                            y: int,
                        | x < y < bs.len() && bs[y] == bump(bs[x])) by {
                            if x == bs.len() - 1 {
                                assert(replayed);
                                assert(self.broadcasts.contents().contains(bump(update)));
                            } else {
                                assert(bs[x] == bs_pre[x]);
                                if exists|y: int| x < y < bs_pre.len() && bs_pre[y] == bump(
                                    bs_pre[x],
                                ) {
                                    let y = choose|y: int|
                                        x < y < bs_pre.len() && bs_pre[y] == bump(bs_pre[x]);
                                    assert(bs[y] == bump(bs[x]));
                                } else {
                                    assert(pre_iter.contains(bump(bs_pre[x])));
                                    if bump(bs_pre[x]) == update {
                                        assert(bs[bs.len() - 1] == bump(bs[x]));
                                    } else {
                                        assert(pre_iter.remove(update).contains(bump(bs_pre[x])));
                                    }
                                }
                            }
                        }
                        assert forall|b: Broadcast| pre0.contains(b) implies rumor_retained(
                            self.broadcasts.contents(),
                            msgs@,
                            b,
                        ) by {
                            if msgs_pre.contains(b.msg) {
                                let w = choose|w: int|
                                    0 <= w < msgs_pre.len() && msgs_pre[w] == b.msg;
                                assert(msgs@[w] == b.msg);
                            } else {
                                let s2 = choose|s2: u64|
                                    b.sends <= s2 && pre_iter.contains(
                                        Broadcast { msg: b.msg, id: b.id, sends: s2 },
                                    );
                                let e = Broadcast { msg: b.msg, id: b.id, sends: s2 };
                                if e == update {
                                    assert(msgs@[msgs@.len() - 1] == b.msg);
                                } else {
                                    assert(pre_iter.remove(update).contains(e));
                                    if replayed {
                                        assert(self.broadcasts.contents().contains(e));
                                    }
                                }
                            }
                        }
                    }
                },
                None => {
                    done = true;
                },
            }
        }
        proof {
            assert(gossip_trace(
                pre0,
                self.broadcasts.contents(),
                msgs@,
                bs,
                max_sends_spec(old(self).membership@.len()),
            ));
        }
        msgs
    }

    /// Emit an `Ack(node, incarnation)` to `recipient`, echoing the sequence
    /// number being answered so the recipient can correlate it, with a gossip
    /// tail; the local sequence counter still advances.
    fn ack(&mut self, node: u64, recipient: u64, seq: u64)
        requires
            old(self).wf(),
        ensures
            final(self).wf(),
            Server::same_identity(old(self), final(self)),
            final(self).membership@ == old(self).membership@,
            final(self).memberlist@ == old(self).memberlist@,
            final(self).pings@ == old(self).pings@,
            final(self).incarnation == old(self).incarnation,
            final(self).last_pinged == old(self).last_pinged,
            final(self).seq_no == wrap_inc_spec(old(self).seq_no),
            final(self).suspicion_period == old(self).protocol_period * max_sends_spec(
                old(self).membership@.len(),
            ),
            forall|e: Broadcast|
                final(self).broadcasts.contents().contains(e) ==> evolved_entry(
                    old(self).broadcasts.contents(),
                    e,
                    max_sends_spec(old(self).membership@.len()),
                ),
            forall|b: Broadcast|
                old(self).broadcasts.contents().contains(b) ==> rumor_retained(
                    final(self).broadcasts.contents(),
                    final(self).outbox@.last().gossip@,
                    b,
                ),
            final(self).outbox@.len() == old(self).outbox@.len() + 1,
            final(self).outbox@.subrange(0, old(self).outbox@.len() as int) == old(self).outbox@,
            ({
                let m = final(self).outbox@.last();
                &&& m.recipient == recipient
                &&& m.sender_id == old(self).id
                &&& m.sender == old(self).addr
                &&& m.seq_no == seq
                &&& m.kind == MsgKind::Ack(node, old(self).incarnation)
                &&& m.gossip@.len() <= PIGGYBACKED_MSGS
            }),
    {
        let gossip = self.gossip();
        let m = Message {
            recipient,
            sender_id: self.id,
            sender: self.addr,
            seq_no: seq,
            kind: MsgKind::Ack(node, self.incarnation),
            gossip,
        };
        self.seq_no = wrap_inc(self.seq_no);
        self.outbox.push(m);
        proof {
            assert(self.outbox@.subrange(0, old(self).outbox@.len() as int) =~= old(self).outbox@);
        }
    }

    /// Ping `node` at `addr` on behalf of `recipient` (ourselves, for a
    /// direct ping), registering the pending ping and advancing the sequence
    /// counter.
    fn ping(&mut self, node: u64, addr: u64, recipient: u64, now: u64)
        requires
            old(self).wf(),
        ensures
            final(self).wf(),
            Server::same_identity(old(self), final(self)),
            final(self).membership@ == old(self).membership@,
            final(self).memberlist@ == old(self).memberlist@,
            final(self).incarnation == old(self).incarnation,
            final(self).last_pinged == old(self).last_pinged,
            final(self).seq_no == wrap_inc_spec(old(self).seq_no),
            final(self).suspicion_period == old(self).protocol_period * max_sends_spec(
                old(self).membership@.len(),
            ),
            forall|e: Broadcast|
                final(self).broadcasts.contents().contains(e) ==> evolved_entry(
                    old(self).broadcasts.contents(),
                    e,
                    max_sends_spec(old(self).membership@.len()),
                ),
            forall|b: Broadcast|
                old(self).broadcasts.contents().contains(b) ==> rumor_retained(
                    final(self).broadcasts.contents(),
                    final(self).outbox@.last().gossip@,
                    b,
                ),
            final(self).outbox@.len() == old(self).outbox@.len() + 1,
            final(self).outbox@.subrange(0, old(self).outbox@.len() as int) == old(self).outbox@,
            ({
                let m = final(self).outbox@.last();
                &&& m.recipient == node
                &&& m.sender_id == old(self).id
                &&& m.sender == old(self).addr
                &&& m.seq_no == old(self).seq_no
                &&& m.kind == MsgKind::Ping
                &&& m.gossip@.len() <= PIGGYBACKED_MSGS
            }),
            has_ping(final(self).pings@, node),
            ping_of(final(self).pings@, node) == (PendingPing {
                target: node,
                addr,
                seq_no: old(self).seq_no,
                requester: recipient,
                state: if recipient != old(self).id {
                    PingState::FromElsewhere
                } else {
                    PingState::Normal
                },
                sent_at: now,
            }),
            forall|i: int|
                0 <= i < final(self).pings@.len() ==> (#[trigger] final(self).pings@[i].target
                    == node || old(self).pings@.contains(final(self).pings@[i])),
            forall|i: int|
                0 <= i < old(self).pings@.len() && old(self).pings@[i].target != node
                    ==> final(self).pings@.contains(#[trigger] old(self).pings@[i]),
    {
        let gossip = self.gossip();
        let m = Message {
            recipient: node,
            sender_id: self.id,
            sender: self.addr,
            seq_no: self.seq_no,
            kind: MsgKind::Ping,
            gossip,
        };
        let state = if recipient != self.id {
            PingState::FromElsewhere
        } else {
            PingState::Normal
        };
        let entry = PendingPing {
            target: node,
            addr,
            seq_no: self.seq_no,
            requester: recipient,
            state,
            sent_at: now,
        };
        self.seq_no = wrap_inc(self.seq_no);
        let ghost pings_before = self.pings@;
        proof {
            assert(pings_before == old(self).pings@);
            assert(pings_unique(pings_before));
        }
        match self.find_ping(node) {
            Some(i) => {
                self.pings.remove(i);
                proof {
                    pings_before.remove_ensures(i as int);
                    assert forall|j: int|
                        0 <= j < self.pings@.len() implies (#[trigger] self.pings@[j].target
                        != node && pings_before.contains(self.pings@[j])) by {
                        if j < i {
                            assert(self.pings@[j] == pings_before[j]);
                        } else {
                            assert(self.pings@[j] == pings_before[j + 1]);
                        }
                    }
                    assert forall|j: int|
                        0 <= j < pings_before.len() && #[trigger] pings_before[j].target != node
                        implies self.pings@.contains(pings_before[j]) by {
                        assert(j != i);
                        if j < i {
                            assert(self.pings@[j] == pings_before[j]);
                        } else {
                            assert(self.pings@[j - 1] == pings_before[j]);
                        }
                    }
                    assert forall|a: int, b: int|
                        0 <= a < b < self.pings@.len() implies self.pings@[a].target
                        != self.pings@[b].target by {
                        let aa = if a < i { a } else { a + 1 };
                        let bb = if b < i { b } else { b + 1 };
                        assert(self.pings@[a] == pings_before[aa]
                            && self.pings@[b] == pings_before[bb]);
                        assert(0 <= aa < bb < pings_before.len());
                    }
                    assert(pings_unique(self.pings@));
                }
            },
            None => {
                proof {
                    assert forall|j: int|
                        0 <= j < self.pings@.len() implies (#[trigger] self.pings@[j].target
                        != node && pings_before.contains(self.pings@[j])) by {
                        assert(!has_ping(pings_before, node));
                    }
                    assert forall|j: int|
                        0 <= j < pings_before.len() && #[trigger] pings_before[j].target != node
                        implies self.pings@.contains(pings_before[j]) by {}
                }
            },
        }
        let ghost kept = self.pings@;
        proof {
            assert(pings_unique(kept));
            assert(forall|j: int| 0 <= j < kept.len() ==> #[trigger] kept[j].target != node);
            assert(forall|j: int|
                0 <= j < kept.len() ==> pings_before.contains(#[trigger] kept[j]));
            assert(forall|j: int|
                0 <= j < pings_before.len() && #[trigger] pings_before[j].target != node
                    ==> kept.contains(pings_before[j]));
        }
        self.pings.push(entry);
        self.outbox.push(m);
        proof {
            assert(self.outbox@.subrange(0, old(self).outbox@.len() as int) =~= old(self).outbox@);
            assert(self.pings@ == kept.push(entry));
            assert(self.pings@[self.pings@.len() - 1] == entry);
            assert(has_ping(self.pings@, node));
            assert forall|a: int, b: int|
                0 <= a < b < self.pings@.len() implies self.pings@[a].target
                != self.pings@[b].target by {
                if b == self.pings@.len() - 1 {
                    assert(self.pings@[a] == kept[a]);
                    assert(kept[a].target != node);
                } else {
                    assert(self.pings@[a] == kept[a] && self.pings@[b] == kept[b]);
                }
            }
            assert(pings_unique(self.pings@));
            assert(ping_of(self.pings@, node) == entry) by {
                let j = choose|j: int|
                    0 <= j < self.pings@.len() && self.pings@[j].target == node;
                if j < kept.len() {
                    assert(self.pings@[j] == kept[j]);
                    assert(kept[j].target != node);
                }
                assert(j == self.pings@.len() - 1);
            }
            assert forall|i2: int|
                0 <= i2 < self.pings@.len() implies (#[trigger] self.pings@[i2].target == node
                || old(self).pings@.contains(self.pings@[i2])) by {
                if i2 < kept.len() {
                    assert(self.pings@[i2] == kept[i2]);
                    assert(pings_before.contains(kept[i2]));
                }
            }
            assert forall|i2: int|
                0 <= i2 < old(self).pings@.len() && old(self).pings@[i2].target != node
                implies self.pings@.contains(#[trigger] old(self).pings@[i2]) by {
                assert(kept.contains(pings_before[i2]));
                let j = choose|j: int| 0 <= j < kept.len() && kept[j] == pings_before[i2];
                assert(self.pings@[j] == kept[j]);
            }
        }
    }

    /// Apply one piggybacked rumor to the peer table and re-enqueue whatever
    /// news it carried (see `rumor_m` and `rumor_pushed`). A `Suspect` about
    /// the local node is refuted by enqueueing a self-`Alive` rumor at the
    /// current incarnation.
    fn process_gossip(&mut self, rumor: &Rumor)
        requires
            old(self).wf(),
            old(self).incarnation < u64::MAX,
        ensures
            final(self).wf(),
            Server::same_identity(old(self), final(self)),
            final(self).membership@ == rumor_m(old(self).id, old(self).membership@, *rumor),
            final(self).pings@ == old(self).pings@,
            final(self).outbox@ == old(self).outbox@,
            final(self).seq_no == old(self).seq_no,
            final(self).last_pinged == old(self).last_pinged,
            final(self).suspicion_period == old(self).suspicion_period,
            !(rumor.kind is Failed && old(self).membership@.contains_key(rumor.peer_id)) && !(
            rumor.kind is Alive && rumor.peer_id != old(self).id && !old(
                self,
            ).membership@.contains_key(rumor.peer_id) && old(self).membership@.len()
                < MAX_MEMBERS) ==> final(self).memberlist@ == old(self).memberlist@,
            rumor.kind is Failed && old(self).membership@.contains_key(rumor.peer_id)
                ==> exists|x: int|
                0 <= x < old(self).memberlist@.len() && old(self).memberlist@[x] == rumor.peer_id
                    && final(self).memberlist@ == old(self).memberlist@.remove(x),
            rumor.kind is Alive && rumor.peer_id != old(self).id && !old(
                self,
            ).membership@.contains_key(rumor.peer_id) && old(self).membership@.len() < MAX_MEMBERS
                ==> exists|pos: int|
                0 <= pos <= old(self).memberlist@.len()
                    && final(self).memberlist@ == old(self).memberlist@.insert(pos, rumor.peer_id),
            final(self).incarnation == if rumor.kind is Alive && rumor.peer_id == old(self).id {
                (old(self).incarnation + 1) as u64
            } else {
                old(self).incarnation
            },
            ({
                let pushed = rumor_pushed(
                    old(self).id,
                    old(self).addr,
                    old(self).incarnation,
                    old(self).membership@,
                    *rumor,
                );
                &&& pushed matches Some(p) ==> final(self).broadcasts.contents() == old(
                    self,
                ).broadcasts.contents().insert(
                    Broadcast { msg: p, id: old(self).broadcasts.next_id(), sends: 0 },
                )
                &&& pushed is None ==> final(self).broadcasts == old(self).broadcasts
            }),
    {
        match rumor.kind {
            RumorKind::Depart => {},
            RumorKind::Alive(addr) => {
                if rumor.peer_id == self.id {
                    self.incarnation = self.incarnation + 1;
                    self.broadcasts.push(*rumor);
                } else {
                    let known = self.membership.contains_key(&rumor.peer_id);
                    if known {
                        let cur = *self.membership.get(&rumor.peer_id).unwrap();
                        if rumor.incarnation > cur.incarnation {
                            let p = Peer {
                                id: rumor.peer_id,
                                addr: cur.addr,
                                state: PeerState::Alive,
                                incarnation: rumor.incarnation,
                            };
                            self.membership.insert(rumor.peer_id, p);
                            self.broadcasts.push(*rumor);
                            proof {
                                assert(self.membership@.len() == old(self).membership@.len());
                            }
                        }
                    } else {
                        self.remember(rumor.peer_id, addr, rumor.incarnation, PeerState::Alive);
                        self.broadcasts.push(*rumor);
                    }
                }
            },
            RumorKind::Suspect => {
                if rumor.peer_id == self.id {
                    let refutation = Rumor {
                        peer_id: self.id,
                        incarnation: self.incarnation,
                        kind: RumorKind::Alive(self.addr),
                    };
                    self.broadcasts.push(refutation);
                } else {
                    let known = self.membership.contains_key(&rumor.peer_id);
                    if known {
                        let cur = *self.membership.get(&rumor.peer_id).unwrap();
                        if rumor.incarnation > cur.incarnation {
                            let p = Peer {
                                id: rumor.peer_id,
                                addr: cur.addr,
                                state: PeerState::Suspect,
                                incarnation: rumor.incarnation,
                            };
                            self.membership.insert(rumor.peer_id, p);
                            self.broadcasts.push(*rumor);
                            proof {
                                assert(self.membership@.len() == old(self).membership@.len());
                            }
                        }
                    }
                }
            },
            RumorKind::Failed => {
                let known = self.membership.contains_key(&rumor.peer_id);
                if known {
                    self.remove_member(rumor.peer_id);
                    self.broadcasts.push(*rumor);
                }
            },
        }
    }

    /// Erase a peer from the peer table and from the memberlist.
    fn remove_member(&mut self, id: u64)
        requires
            old(self).wf(),
            old(self).membership@.contains_key(id),
        ensures
            final(self).wf(),
            Server::same_identity(old(self), final(self)),
            final(self).membership@ == old(self).membership@.remove(id),
            exists|x: int|
                0 <= x < old(self).memberlist@.len() && old(self).memberlist@[x] == id
                    && final(self).memberlist@ == old(self).memberlist@.remove(x),
            final(self).pings@ == old(self).pings@,
            final(self).outbox@ == old(self).outbox@,
            final(self).seq_no == old(self).seq_no,
            final(self).incarnation == old(self).incarnation,
            final(self).suspicion_period == old(self).suspicion_period,
            final(self).broadcasts == old(self).broadcasts,
            final(self).last_pinged == old(self).last_pinged,
    {
        self.membership.remove(&id);
        match self.find_member_idx(id) {
            Some(i) => {
                proof {
                    lemma_seq_remove_effect(self.memberlist@, i as int);
                }
                self.memberlist.remove(i);
                proof {
                    let s = old(self).memberlist@;
                    let t = self.memberlist@;
                    assert(t == s.remove(i as int));
                    assert(self.membership@ =~= old(self).membership@.remove(id));
                    assert(self.membership@.dom() =~= old(self).membership@.dom().remove(id));
                    assert(self.membership@.len() == old(self).membership@.len() - 1);
                    assert forall|i2: int|
                        0 <= i2 < t.len() implies self.membership@.contains_key(
                        #[trigger] t[i2],
                    ) by {
                        assert(t.contains(t[i2]));
                        assert(t[i2] != id && s.contains(t[i2]));
                        let j = choose|j: int| 0 <= j < s.len() && s[j] == t[i2];
                        assert(old(self).membership@.contains_key(s[j]));
                    }
                    assert forall|k: u64|
                        #[trigger] self.membership@.contains_key(k) implies t.contains(k) by {
                        assert(old(self).membership@.contains_key(k));
                        assert(s.contains(k));
                        assert(k != id);
                    }
                }
            },
            None => {
                proof {
                    assert(old(self).memberlist@.contains(id));
                    assert(false);
                }
            },
        }
    }

    /// Merge a pushed or pulled peer list into the peer table, in order.
    fn merge_peers(&mut self, peers: &Vec<Peer>)
        requires
            old(self).wf(),
        ensures
            final(self).wf(),
            Server::same_identity(old(self), final(self)),
            final(self).membership@ == merge_m(old(self).id, old(self).membership@, peers@),
            final(self).pings@ == old(self).pings@,
            final(self).outbox@ == old(self).outbox@,
            final(self).seq_no == old(self).seq_no,
            final(self).incarnation == old(self).incarnation,
            final(self).suspicion_period == old(self).suspicion_period,
            final(self).broadcasts == old(self).broadcasts,
            final(self).last_pinged == old(self).last_pinged,
    {
        let mut i: usize = 0;
        while i < peers.len()
            invariant
                self.wf(),
                Server::same_identity(old(self), self),
                i <= peers@.len(),
                self.membership@ == merge_m(old(self).id, old(self).membership@, peers@.take(
                    i as int,
                )),
                self.pings@ == old(self).pings@,
                self.outbox@ == old(self).outbox@,
                self.seq_no == old(self).seq_no,
                self.incarnation == old(self).incarnation,
                self.suspicion_period == old(self).suspicion_period,
                self.broadcasts == old(self).broadcasts,
                self.last_pinged == old(self).last_pinged,
            decreases peers@.len() - i,
        {
            let p = peers[i];
            proof {
                lemma_merge_m_snoc(old(self).id, old(self).membership@, peers@.take(i as int), p);
                assert(peers@.take(i as int).push(p) =~= peers@.take(i as int + 1));
            }
            self.remember(p.id, p.addr, p.incarnation, p.state);
            i = i + 1;
        }
        proof {
            assert(peers@.take(peers@.len() as int) =~= peers@);
        }
    }

    /// Process one inbound message: bump the local incarnation, remember the
    /// sender, dispatch on the kind, then apply the piggybacked rumors. The
    /// membership afterwards is exactly `process_m` of the membership before.
    ///
    /// A `Suspect` rumor about the local node is always answered: the store
    /// afterwards holds a self-`Alive` rumor whose incarnation strictly
    /// exceeds the incarnation at entry, and so any suspicion at or below it.
    pub fn process(&mut self, msg: Message, now: u64)
        requires
            old(self).wf(),
            msg.recipient == old(self).id,
            old(self).incarnation + 1 + msg.gossip@.len() <= u64::MAX,
        ensures
            final(self).wf(),
            Server::same_identity(old(self), final(self)),
            final(self).memberlist@.len() == final(self).membership@.len(),
            final(self).membership@ == process_m(
                old(self).id,
                old(self).membership@,
                old(self).pings@,
                msg,
            ),
            old(self).incarnation < final(self).incarnation,
            final(self).incarnation <= old(self).incarnation + 1 + msg.gossip@.len(),
            final(self).seq_no == old(self).seq_no || final(self).seq_no == wrap_inc_spec(
                old(self).seq_no,
            ),
            msg.kind is Ping ==> ({
                &&& final(self).pings@ == old(self).pings@
                &&& final(self).outbox@.len() == old(self).outbox@.len() + 1
                &&& final(self).outbox@.subrange(0, old(self).outbox@.len() as int) == old(
                    self,
                ).outbox@
                &&& ({
                    let m = final(self).outbox@.last();
                    &&& m.recipient == msg.sender_id
                    &&& m.seq_no == msg.seq_no
                    &&& m.kind == MsgKind::Ack(old(self).id, (old(self).incarnation + 1) as u64)
                })
            }),
            msg.kind matches MsgKind::PingReq { target_id, target } ==> target_id != old(self).id
                ==> ({
                &&& final(self).outbox@.len() == old(self).outbox@.len() + 1
                &&& final(self).outbox@.subrange(0, old(self).outbox@.len() as int) == old(
                    self,
                ).outbox@
                &&& ({
                    let m = final(self).outbox@.last();
                    &&& m.recipient == target_id
                    &&& m.seq_no == old(self).seq_no
                    &&& m.kind == MsgKind::Ping
                })
                &&& has_ping(final(self).pings@, target_id)
                &&& ping_of(final(self).pings@, target_id) == (PendingPing {
                    target: target_id,
                    addr: target,
                    seq_no: old(self).seq_no,
                    requester: msg.sender_id,
                    state: if msg.sender_id != old(self).id {
                        PingState::FromElsewhere
                    } else {
                        PingState::Normal
                    },
                    sent_at: now,
                })
            }),
            msg.kind matches MsgKind::Ack(peer_id, _) ==> ({
                &&& !has_ping(final(self).pings@, peer_id)
                &&& forall|i: int|
                    0 <= i < old(self).pings@.len() && old(self).pings@[i].target != peer_id
                        ==> final(self).pings@.contains(#[trigger] old(self).pings@[i])
                &&& forall|i: int|
                    0 <= i < final(self).pings@.len() ==> old(self).pings@.contains(
                        #[trigger] final(self).pings@[i],
                    )
                &&& ({
                    let fwd = gossip_applied(old(self).pings@, msg) && ping_of(
                        old(self).pings@,
                        peer_id,
                    ).requester != old(self).id;
                    &&& !fwd ==> final(self).outbox@ == old(self).outbox@
                    &&& fwd ==> final(self).outbox@.len() == old(self).outbox@.len() + 1
                        && final(self).outbox@.subrange(0, old(self).outbox@.len() as int) == old(
                        self,
                    ).outbox@ && ({
                        let m = final(self).outbox@.last();
                        &&& m.recipient == ping_of(old(self).pings@, peer_id).requester
                        &&& m.seq_no == msg.seq_no
                        &&& m.kind == MsgKind::Ack(peer_id, (old(self).incarnation + 1) as u64)
                    })
                })
            }),
            msg.kind matches MsgKind::PingReq { target_id, .. } ==> target_id == old(self).id
                ==> ({
                &&& final(self).pings@ == old(self).pings@
                &&& final(self).outbox@.len() == old(self).outbox@.len() + 1
                &&& final(self).outbox@.subrange(0, old(self).outbox@.len() as int) == old(
                    self,
                ).outbox@
                &&& ({
                    let m = final(self).outbox@.last();
                    &&& m.recipient == msg.sender_id
                    &&& m.seq_no == msg.seq_no
                    &&& m.kind == MsgKind::Ack(old(self).id, (old(self).incarnation + 1) as u64)
                })
            }),
            msg.kind is Ack && !gossip_applied(old(self).pings@, msg) ==> final(self).broadcasts
                == old(self).broadcasts,
            msg.kind matches MsgKind::Ack(peer_id, ainc) ==> gossip_applied(old(self).pings@, msg)
                ==> ({
                let m1 = remember_m(
                    old(self).id,
                    old(self).membership@,
                    msg.sender_id,
                    msg.sender,
                    0,
                    PeerState::Alive,
                );
                &&& (m1.contains_key(peer_id) && m1[peer_id].state != PeerState::Failed && ainc
                    > m1[peer_id].incarnation) ==> from_store(
                    final(self).broadcasts.contents(),
                    Rumor { peer_id, incarnation: ainc, kind: RumorKind::Alive(m1[peer_id].addr) },
                )
                &&& !m1.contains_key(peer_id) ==> from_store(
                    final(self).broadcasts.contents(),
                    Rumor {
                        peer_id,
                        incarnation: ainc,
                        kind: RumorKind::Alive(ping_of(old(self).pings@, peer_id).addr),
                    },
                )
            }),
            msg.kind is Push ==> final(self).pings@ == old(self).pings@ && final(self).outbox@
                == old(self).outbox@,
            msg.kind is Pull ==> ({
                &&& final(self).pings@ == old(self).pings@
                &&& final(self).outbox@.len() == old(self).outbox@.len() + 1
                &&& final(self).outbox@.subrange(0, old(self).outbox@.len() as int) == old(
                    self,
                ).outbox@
                &&& ({
                    let m = final(self).outbox@.last();
                    let m1 = remember_m(
                        old(self).id,
                        old(self).membership@,
                        msg.sender_id,
                        msg.sender,
                        0,
                        PeerState::Alive,
                    );
                    &&& m.recipient == msg.sender_id
                    &&& m.seq_no == 0
                    &&& m.kind matches MsgKind::Push(ps) && ps@.len() == m1.len() + 1 && ps@[0]
                        == (Peer {
                        id: old(self).id,
                        addr: old(self).addr,
                        state: PeerState::Alive,
                        incarnation: (old(self).incarnation + 1) as u64,
                    }) && (forall|i: int|
                        1 <= i < ps@.len() ==> m1.contains_key(#[trigger] ps@[i].id) && ps@[i]
                            == m1[ps@[i].id]) && (forall|k: u64|
                        #[trigger] m1.contains_key(k) ==> exists|i: int|
                            1 <= i < ps@.len() && ps@[i].id == k)
                })
            }),
            gossip_applied(old(self).pings@, msg) ==> forall|j: int|
                0 <= j < msg.gossip@.len() && #[trigger] msg.gossip@[j].kind is Suspect
                    && msg.gossip@[j].peer_id == old(self).id ==> exists|b: Broadcast|
                    final(self).broadcasts.contents().contains(b) && b.msg.peer_id == old(self).id
                        && b.msg.kind is Alive && b.msg.incarnation > old(self).incarnation,
    {
        self.incarnation = self.incarnation + 1;
        let ghost gmsg = msg;
        let Message { recipient: _, sender_id, sender, seq_no: mseq, kind, gossip } = msg;
        self.remember(sender_id, sender, 0, PeerState::Alive);
        let ghost m1 = self.membership@;
        let mut apply_gossip = true;
        match kind {
            MsgKind::Push(peers) => {
                self.merge_peers(&peers);
            },
            MsgKind::Pull(peers) => {
                let our_peers = self.current_membership();
                let tail = self.gossip();
                let m = Message {
                    recipient: sender_id,
                    sender_id: self.id,
                    sender: self.addr,
                    seq_no: 0,
                    kind: MsgKind::Push(our_peers),
                    gossip: tail,
                };
                self.outbox.push(m);
                proof {
                    assert(self.outbox@.subrange(0, old(self).outbox@.len() as int) =~= old(
                        self,
                    ).outbox@);
                }
                self.merge_peers(&peers);
            },
            MsgKind::Ping => {
                let sid = self.id;
                self.ack(sid, sender_id, mseq);
            },
            MsgKind::PingReq { target_id, target } => {
                if target_id == self.id {
                    let sid = self.id;
                    self.ack(sid, sender_id, mseq);
                } else {
                    self.ping(target_id, target, sender_id, now);
                }
            },
            MsgKind::Ack(peer_id, incarnation) => {
                match self.find_ping(peer_id) {
                    None => {
                        apply_gossip = false;
                    },
                    Some(i) => {
                        let p = self.pings[i];
                        proof {
                            lemma_pings_remove(self.pings@, i as int);
                            assert(ping_of(old(self).pings@, peer_id) == p) by {
                                let j = choose|j: int|
                                    0 <= j < old(self).pings@.len() && old(self).pings@[j].target
                                        == peer_id;
                                assert(j == i);
                            }
                        }
                        self.pings.remove(i);
                        if p.seq_no != mseq {
                            apply_gossip = false;
                        } else {
                            if p.requester != self.id {
                                self.ack(peer_id, p.requester, mseq);
                            }
                            let known = self.membership.contains_key(&peer_id);
                            if known {
                                let cur = *self.membership.get(&peer_id).unwrap();
                                if cur.state != PeerState::Failed && incarnation > cur.incarnation {
                                    let np = Peer {
                                        id: peer_id,
                                        addr: cur.addr,
                                        state: PeerState::Alive,
                                        incarnation,
                                    };
                                    self.membership.insert(peer_id, np);
                                    let ghost nid = self.broadcasts.next_id();
                                    self.broadcasts.push(
                                        Rumor { peer_id, incarnation, kind: RumorKind::Alive(cur.addr) },
                                    );
                                    proof {
                                        assert(self.membership@.len() == m1.len());
                                        assert(self.broadcasts.contents().contains(Broadcast {
                                            msg: Rumor {
                                                peer_id,
                                                incarnation,
                                                kind: RumorKind::Alive(cur.addr),
                                            },
                                            id: nid,
                                            sends: 0,
                                        }));
                                        assert(from_store(self.broadcasts.contents(), Rumor {
                                            peer_id,
                                            incarnation,
                                            kind: RumorKind::Alive(cur.addr),
                                        }));
                                    }
                                }
                            } else {
                                self.remember(peer_id, p.addr, incarnation, PeerState::Alive);
                                let ghost nid = self.broadcasts.next_id();
                                self.broadcasts.push(
                                    Rumor { peer_id, incarnation, kind: RumorKind::Alive(p.addr) },
                                );
                                proof {
                                    assert(self.broadcasts.contents().contains(Broadcast {
                                        msg: Rumor {
                                            peer_id,
                                            incarnation,
                                            kind: RumorKind::Alive(p.addr),
                                        },
                                        id: nid,
                                        sends: 0,
                                    }));
                                    assert(from_store(self.broadcasts.contents(), Rumor {
                                        peer_id,
                                        incarnation,
                                        kind: RumorKind::Alive(p.addr),
                                    }));
                                }
                            }
                            proof {
                                assert(self.membership@ == ack_m(
                                    old(self).id,
                                    old(self).pings@,
                                    m1,
                                    peer_id,
                                    incarnation,
                                ));
                            }
                        }
                    },
                }
            },
        };
        let ghost m2 = self.membership@;
        let ghost store2 = self.broadcasts.contents();
        let ghost pings2 = self.pings@;
        let ghost outbox2 = self.outbox@;
        let ghost seq2 = self.seq_no;
        let ghost susp2 = self.suspicion_period;
        let ghost lp2 = self.last_pinged;
        let ghost inc2 = self.incarnation;
        if apply_gossip {
            let mut j: usize = 0;
            while j < gossip.len()
                invariant
                    self.wf(),
                    Server::same_identity(old(self), self),
                    j <= gossip@.len(),
                    old(self).incarnation + 1 + gossip@.len() <= u64::MAX,
                    gossip@ == gmsg.gossip@,
                    self.membership@ == rumors_m(old(self).id, m2, gossip@.take(j as int)),
                    forall|b: Broadcast|
                        store2.contains(b) ==> self.broadcasts.contents().contains(b),
                    self.pings@ == pings2,
                    self.outbox@ == outbox2,
                    self.seq_no == seq2,
                    self.suspicion_period == susp2,
                    self.last_pinged == lp2,
                    inc2 <= self.incarnation,
                    old(self).incarnation < inc2,
                    inc2 <= old(self).incarnation + 1,
                    self.incarnation <= old(self).incarnation + 1 + j,
                    forall|jj: int|
                        0 <= jj < j && #[trigger] gossip@[jj].kind is Suspect && gossip@[jj].peer_id
                            == old(self).id ==> exists|b: Broadcast|
                            self.broadcasts.contents().contains(b) && b.msg.peer_id == old(self).id
                                && b.msg.kind is Alive && b.msg.incarnation > old(self).incarnation,
                decreases gossip@.len() - j,
            {
                let r = gossip[j];
                let ghost store_pre = self.broadcasts.contents();
                let ghost inc_pre = self.incarnation;
                let ghost next_pre = self.broadcasts.next_id();
                self.process_gossip(&r);
                proof {
                    lemma_rumors_m_snoc(old(self).id, m2, gossip@.take(j as int), r);
                    assert(gossip@.take(j as int).push(r) =~= gossip@.take(j as int + 1));
                    assert forall|jj: int|
                        0 <= jj < j + 1 && #[trigger] gossip@[jj].kind is Suspect
                            && gossip@[jj].peer_id == old(self).id implies exists|b: Broadcast|
                        self.broadcasts.contents().contains(b) && b.msg.peer_id == old(self).id
                            && b.msg.kind is Alive && b.msg.incarnation > old(self).incarnation by {
                        if jj == j {
                            let refut = Rumor {
                                peer_id: old(self).id,
                                kind: RumorKind::Alive(old(self).addr),
                                incarnation: inc_pre,
                            };
                            let b = Broadcast { msg: refut, id: next_pre, sends: 0 };
                            assert(self.broadcasts.contents().contains(b));
                        } else {
                            let b = choose|b: Broadcast|
                                store_pre.contains(b) && b.msg.peer_id == old(self).id
                                    && b.msg.kind is Alive && b.msg.incarnation > old(
                                    self,
                                ).incarnation;
                            assert(self.broadcasts.contents().contains(b));
                        }
                    }
                }
                j = j + 1;
            }
            proof {
                assert(gossip@.take(gossip@.len() as int) =~= gossip@);
            }
        }
    }

    /// Drain the outbox: every message produced by earlier `join`, `process`
    /// and failure-detector work, in production order.
    pub fn take_outbox(&mut self) -> (out: Vec<Message>)
        requires
            old(self).wf(),
        ensures
            final(self).wf(),
            Server::same_identity(old(self), final(self)),
            out@ == old(self).outbox@,
            final(self).outbox@.len() == 0,
            final(self).membership@ == old(self).membership@,
            final(self).memberlist@ == old(self).memberlist@,
            final(self).pings@ == old(self).pings@,
            final(self).seq_no == old(self).seq_no,
            final(self).incarnation == old(self).incarnation,
            final(self).suspicion_period == old(self).suspicion_period,
            final(self).broadcasts == old(self).broadcasts,
            final(self).last_pinged == old(self).last_pinged,
    {
        let mut out: Vec<Message> = Vec::new();
        core::mem::swap(&mut out, &mut self.outbox);
        out
    }

    /// One protocol period at time `now`: reshuffle the round-robin
    /// schedule when its index has wrapped, age every pending ping through
    /// the expiry ladder, apply the failure declarations, ping the next
    /// round-robin target, and hand back the drained outbox.
    ///
    /// The ladder reads the thresholds, the peer table and the memberlist
    /// size once, at entry; `ladder_rumor`, `ladder_keeps`, `ladder_removes`
    /// and `ladder_forwards` say what it decides for each pending ping: past
    /// `ping_interval` a direct ping of ours is escalated to indirect pings
    /// and re-tagged `Forwarded` (or, with no peer to carry one, its target
    /// suspected at once and the entry dropped); past `protocol_period` a
    /// `Suspect` rumor is enqueued at the peer's stored incarnation and the
    /// entry retained; a forwarded entry past `suspicion_period` enqueues a
    /// `Failed` rumor and its target is removed from the peer table and the
    /// memberlist; a ping carried for someone else is dropped silently.
    #[verifier::rlimit(100)]
    pub fn tick(&mut self, now: u64) -> (out: Vec<Message>)
        requires
            old(self).wf(),
        ensures
            final(self).wf(),
            Server::same_identity(old(self), final(self)),
            final(self).incarnation == old(self).incarnation,
            final(self).outbox@.len() == 0,
            final(self).memberlist@.len() == final(self).membership@.len(),
            final(self).seq_no == old(self).seq_no || final(self).seq_no == wrap_inc_spec(
                old(self).seq_no,
            ),
            old(self).outbox@.is_prefix_of(out@),
            forall|i: int| 0 <= i < out@.len() ==> old(self).msg_ok(#[trigger] out@[i]),
            forall|k: u64|
                final(self).membership@.contains_key(k) <==> (old(self).membership@.contains_key(
                    k,
                ) && !removed_by_ladder(
                    old(self).pings@,
                    k,
                    now,
                    old(self).suspicion_period,
                    old(self).membership@,
                )),
            forall|k: u64|
                #[trigger] final(self).membership@.contains_key(k) ==> final(self).membership@[k]
                    == old(self).membership@[k],
            forall|j: int|
                0 <= j < old(self).pings@.len() ==> match ladder_keeps(
                    #[trigger] old(self).pings@[j],
                    now,
                    old(self).ping_interval,
                    old(self).protocol_period,
                    old(self).suspicion_period,
                    old(self).membership@,
                    old(self).membership@.len(),
                ) {
                    Some(q) => has_ping(final(self).pings@, q.target) && (ping_of(
                        final(self).pings@,
                        q.target,
                    ) == q || ping_of(final(self).pings@, q.target) == fresh_ping_entry(
                        q.target,
                        final(self).membership@,
                        old(self).id,
                        old(self).seq_no,
                        now,
                    )),
                    None => !has_ping(final(self).pings@, old(self).pings@[j].target) || ping_of(
                        final(self).pings@,
                        old(self).pings@[j].target,
                    ) == fresh_ping_entry(
                        old(self).pings@[j].target,
                        final(self).membership@,
                        old(self).id,
                        old(self).seq_no,
                        now,
                    ),
                },
            forall|a: int|
                0 <= a < final(self).pings@.len() ==> kept_listed(
                    old(self).pings@,
                    #[trigger] final(self).pings@[a],
                    old(self).pings@.len() as int,
                    now,
                    old(self).ping_interval,
                    old(self).protocol_period,
                    old(self).suspicion_period,
                    old(self).membership@,
                    old(self).membership@.len(),
                ) || (final(self).membership@.contains_key(final(self).pings@[a].target)
                    && final(self).pings@[a] == fresh_ping_entry(
                    final(self).pings@[a].target,
                    final(self).membership@,
                    old(self).id,
                    old(self).seq_no,
                    now,
                )),
            forall|j: int|
                0 <= j < old(self).pings@.len() ==> (ladder_rumor(
                    #[trigger] old(self).pings@[j],
                    now,
                    old(self).ping_interval,
                    old(self).protocol_period,
                    old(self).suspicion_period,
                    old(self).membership@,
                    old(self).membership@.len(),
                ) matches Some(r) ==> rumor_spread(final(self).broadcasts.contents(), out@, r)),
            forall|b: Broadcast|
                final(self).broadcasts.contents().contains(b) ==> descended(
                    old(self).broadcasts.contents(),
                    b,
                ) || rumor_listed(
                    old(self).pings@,
                    b.msg,
                    old(self).pings@.len() as int,
                    now,
                    old(self).ping_interval,
                    old(self).protocol_period,
                    old(self).suspicion_period,
                    old(self).membership@,
                    old(self).membership@.len(),
                ),
            forall|j: int|
                0 <= j < old(self).pings@.len() && ladder_forwards(
                    #[trigger] old(self).pings@[j],
                    now,
                    old(self).ping_interval,
                    old(self).protocol_period,
                    old(self).suspicion_period,
                    old(self).membership@.len(),
                ) ==> pingreq_block(
                    out@,
                    old(self).id,
                    old(self).addr,
                    old(self).pings@[j],
                    old(self).membership@,
                    pingreq_cnt(
                        old(self).pingreq_subgroup_sz as nat,
                        old(self).membership@.len(),
                        old(self).membership@.contains_key(old(self).pings@[j].target),
                    ),
                ),
            final(self).membership@.len() > 0 ==> out@.len() > 0 && ({
                let mm = out@.last();
                &&& mm.kind == MsgKind::Ping
                &&& final(self).membership@.contains_key(mm.recipient)
                &&& mm.seq_no == old(self).seq_no
                &&& final(self).seq_no == wrap_inc_spec(old(self).seq_no)
                &&& 1 <= final(self).last_pinged <= final(self).memberlist@.len()
                &&& mm.recipient == final(self).memberlist@[final(self).last_pinged - 1]
                &&& (final(self).last_pinged == old(self).last_pinged + 1
                    || final(self).last_pinged == 1)
                &&& (old(self).last_pinged >= old(self).memberlist@.len()
                    ==> final(self).last_pinged == 1)
                &&& has_ping(final(self).pings@, mm.recipient)
                &&& ping_of(final(self).pings@, mm.recipient) == fresh_ping_entry(
                    mm.recipient,
                    final(self).membership@,
                    old(self).id,
                    old(self).seq_no,
                    now,
                )
            }),
            final(self).membership@.len() == 0 ==> final(self).seq_no == old(self).seq_no,
    {
        let ghost m0 = self.membership@;
        let ghost n0 = self.membership@.len();
        let pint = self.ping_interval;
        let proto = self.protocol_period;
        let susp0 = self.suspicion_period;
        let ghost store0 = self.broadcasts.contents();
        proof {
            assert forall|b: Broadcast| store0.contains(b) implies descended(store0, b) by {
                assert((Broadcast { msg: b.msg, id: b.id, sends: b.sends }) == b);
            }
        }
        if self.last_pinged >= self.memberlist.len() {
            let ghost sml = self.memberlist@;
            shuffle_ids(&mut self.memberlist);
            self.last_pinged = 0;
            proof {
                assert forall|i: int|
                    0 <= i < self.memberlist@.len() implies self.membership@.contains_key(
                    #[trigger] self.memberlist@[i],
                ) by {
                    assert(self.memberlist@.contains(self.memberlist@[i]));
                    assert(sml.contains(self.memberlist@[i]));
                    let j = choose|j: int| 0 <= j < sml.len() && sml[j] == self.memberlist@[i];
                    assert(self.membership@.contains_key(sml[j]));
                }
                assert forall|k: u64|
                    #[trigger] self.membership@.contains_key(k) implies self.memberlist@.contains(
                    k,
                ) by {
                    assert(sml.contains(k));
                }
            }
        }
        let ghost lp1 = self.last_pinged as int;
        let ghost ml1 = self.memberlist@;
        let mut pings_l: Vec<PendingPing> = Vec::new();
        core::mem::swap(&mut pings_l, &mut self.pings);
        let ghost pl = pings_l@;
        proof {
            assert(pl == old(self).pings@);
            assert(pings_unique(pl));
        }
        let mut kept: Vec<PendingPing> = Vec::new();
        let mut to_fail: Vec<u64> = Vec::new();
        let mut i: usize = 0;
        while i < pings_l.len()
            invariant
                self.wf(),
                Server::same_identity(old(self), self),
                pint == old(self).ping_interval,
                proto == old(self).protocol_period,
                susp0 == old(self).suspicion_period,
                i <= pl.len(),
                pings_l@ == pl,
                pl == old(self).pings@,
                pings_unique(pl),
                self.pings@.len() == 0,
                self.membership@ == m0,
                m0 == old(self).membership@,
                n0 == m0.len(),
                self.memberlist@ == ml1,
                ml1.len() == n0,
                self.last_pinged == lp1,
                lp1 == 0 || lp1 == old(self).last_pinged,
                old(self).last_pinged >= old(self).memberlist@.len() ==> lp1 == 0,
                self.incarnation == old(self).incarnation,
                self.seq_no == old(self).seq_no,
                store0 == old(self).broadcasts.contents(),
                old(self).outbox@.is_prefix_of(self.outbox@),
                pings_unique(kept@),
                forall|a: int|
                    0 <= a < kept@.len() ==> kept_listed(
                        pl,
                        #[trigger] kept@[a],
                        i as int,
                        now,
                        pint,
                        proto,
                        susp0,
                        m0,
                        n0,
                    ),
                forall|j: int|
                    0 <= j < i ==> match ladder_keeps(
                        #[trigger] pl[j],
                        now,
                        pint,
                        proto,
                        susp0,
                        m0,
                        n0,
                    ) {
                        Some(q) => kept@.contains(q),
                        None => !has_ping(kept@, pl[j].target),
                    },
                forall|a: int|
                    0 <= a < to_fail@.len() ==> removal_listed(
                        pl,
                        #[trigger] to_fail@[a],
                        i as int,
                        now,
                        susp0,
                        m0,
                    ),
                forall|j: int|
                    0 <= j < i && ladder_removes(#[trigger] pl[j], now, susp0, m0)
                        ==> to_fail@.contains(pl[j].target),
                to_fail@.no_duplicates(),
                forall|b: Broadcast|
                    self.broadcasts.contents().contains(b) ==> descended(store0, b)
                        || rumor_listed(pl, b.msg, i as int, now, pint, proto, susp0, m0, n0),
                forall|j: int|
                    0 <= j < i ==> (ladder_rumor(
                        #[trigger] pl[j],
                        now,
                        pint,
                        proto,
                        susp0,
                        m0,
                        n0,
                    ) matches Some(r) ==> rumor_spread(
                        self.broadcasts.contents(),
                        self.outbox@,
                        r,
                    )),
                forall|j: int|
                    0 <= j < i && ladder_forwards(#[trigger] pl[j], now, pint, proto, susp0, n0)
                        ==> pingreq_block(
                        self.outbox@,
                        old(self).id,
                        old(self).addr,
                        pl[j],
                        m0,
                        pingreq_cnt(
                            old(self).pingreq_subgroup_sz as nat,
                            n0,
                            m0.contains_key(pl[j].target),
                        ),
                    ),
            decreases pl.len() - i,
        {
            let ping = pings_l[i];
            let target = ping.target;
            let ghost kept0 = kept@;
            let ghost tf0 = to_fail@;
            proof {
                assert(ping == pl[i as int]);
                assert forall|a: int|
                    0 <= a < kept@.len() implies #[trigger] kept@[a].target != target by {
                    assert(kept_listed(pl, kept@[a], i as int, now, pint, proto, susp0, m0, n0));
                    let j = choose|j: int|
                        0 <= j < i && ladder_keeps(#[trigger] pl[j], now, pint, proto, susp0, m0, n0)
                            == Some(kept@[a]);
                    assert(kept@[a].target == pl[j].target);
                    assert(pl[j].target != pl[i as int].target);
                }
            }
            let elapsed = if now >= ping.sent_at {
                now - ping.sent_at
            } else {
                0
            };
            proof {
                assert(elapsed == age_of(ping, now));
            }
            if elapsed > susp0 && ping.state == PingState::Forwarded {
                if self.membership.contains_key(&target) {
                    let cur = *self.membership.get(&target).unwrap();
                    let r = Rumor {
                        peer_id: target,
                        incarnation: cur.incarnation,
                        kind: RumorKind::Failed,
                    };
                    let ghost store_pre = self.broadcasts.contents();
                    let ghost nid = self.broadcasts.next_id();
                    self.broadcasts.push(r);
                    to_fail.push(target);
                    proof {
                        assert(ladder_removes(pl[i as int], now, susp0, m0));
                        assert(ladder_rumor(pl[i as int], now, pint, proto, susp0, m0, n0)
                            == Some(r));
                        lemma_store_push_keeps(
                            store_pre,
                            self.broadcasts.contents(),
                            Broadcast { msg: r, id: nid, sends: 0 },
                            store0,
                            pl,
                            i as int,
                            now,
                            pint,
                            proto,
                            susp0,
                            m0,
                            n0,
                            self.outbox@,
                        );
                        assert(ladder_keeps(pl[i as int], now, pint, proto, susp0, m0, n0)
                            is None);
                    }
                } else {
                    proof {
                        assert(ladder_keeps(pl[i as int], now, pint, proto, susp0, m0, n0)
                            is None);
                        assert(ladder_rumor(pl[i as int], now, pint, proto, susp0, m0, n0)
                            is None);
                        assert(!ladder_removes(pl[i as int], now, susp0, m0));
                    }
                }
            } else if elapsed > proto {
                if ping.state == PingState::FromElsewhere || !self.membership.contains_key(
                    &target,
                ) {
                    proof {
                        assert(ladder_keeps(pl[i as int], now, pint, proto, susp0, m0, n0)
                            is None);
                        assert(ladder_rumor(pl[i as int], now, pint, proto, susp0, m0, n0)
                            is None);
                    }
                } else {
                    let cur = *self.membership.get(&target).unwrap();
                    let r = Rumor {
                        peer_id: target,
                        incarnation: cur.incarnation,
                        kind: RumorKind::Suspect,
                    };
                    let ghost store_pre = self.broadcasts.contents();
                    let ghost nid = self.broadcasts.next_id();
                    self.broadcasts.push(r);
                    kept.push(ping);
                    proof {
                        assert(ladder_rumor(pl[i as int], now, pint, proto, susp0, m0, n0)
                            == Some(r));
                        assert(ladder_keeps(pl[i as int], now, pint, proto, susp0, m0, n0)
                            == Some(ping));
                        lemma_store_push_keeps(
                            store_pre,
                            self.broadcasts.contents(),
                            Broadcast { msg: r, id: nid, sends: 0 },
                            store0,
                            pl,
                            i as int,
                            now,
                            pint,
                            proto,
                            susp0,
                            m0,
                            n0,
                            self.outbox@,
                        );
                        assert(kept@ == kept0.push(ping));
                    }
                }
            } else if ping.state != PingState::Forwarded && elapsed > pint {
                if ping.state != PingState::Normal {
                    proof {
                        assert(ladder_keeps(pl[i as int], now, pint, proto, susp0, m0, n0)
                            is None);
                        assert(ladder_rumor(pl[i as int], now, pint, proto, susp0, m0, n0)
                            is None);
                    }
                } else if self.memberlist.len() <= 1 {
                    let incarnation = match self.membership.get(&target) {
                        Some(pr) => pr.incarnation,
                        None => 0,
                    };
                    let r = Rumor { peer_id: target, incarnation, kind: RumorKind::Suspect };
                    let ghost store_pre = self.broadcasts.contents();
                    let ghost nid = self.broadcasts.next_id();
                    self.broadcasts.push(r);
                    proof {
                        assert(ladder_rumor(pl[i as int], now, pint, proto, susp0, m0, n0)
                            == Some(r));
                        assert(ladder_keeps(pl[i as int], now, pint, proto, susp0, m0, n0)
                            is None);
                        lemma_store_push_keeps(
                            store_pre,
                            self.broadcasts.contents(),
                            Broadcast { msg: r, id: nid, sends: 0 },
                            store0,
                            pl,
                            i as int,
                            now,
                            pint,
                            proto,
                            susp0,
                            m0,
                            n0,
                            self.outbox@,
                        );
                    }
                } else {
                    let mut candidates: Vec<u64> = Vec::new();
                    let mut ci: usize = 0;
                    while ci < self.memberlist.len()
                        invariant
                            self.memberlist@ == ml1,
                            ml1.no_duplicates(),
                            ci <= ml1.len(),
                            forall|a: int|
                                0 <= a < candidates@.len() ==> #[trigger] candidates@[a] != target
                                    && ml1.take(ci as int).contains(candidates@[a]),
                            candidates@.no_duplicates(),
                            candidates@.len() == ci - (if ml1.take(ci as int).contains(target) {
                                1int
                            } else {
                                0int
                            }),
                        decreases ml1.len() - ci,
                    {
                        let c = self.memberlist[ci];
                        proof {
                            assert(c == ml1[ci as int]);
                            assert(ml1.take(ci as int + 1) =~= ml1.take(ci as int).push(c));
                            assert(!ml1.take(ci as int).contains(c)) by {
                                if ml1.take(ci as int).contains(c) {
                                    let x = choose|x: int|
                                        0 <= x < ci && ml1.take(ci as int)[x] == c;
                                    assert(ml1[x] == c);
                                }
                            }
                            assert forall|y: u64|
                                #[trigger] ml1.take(ci as int + 1).contains(y) implies (ml1.take(
                                ci as int,
                            ).contains(y) || y == c) by {
                                let x = choose|x: int|
                                    0 <= x < ci + 1 && #[trigger] ml1.take(ci as int + 1)[x] == y;
                                if x < ci {
                                    assert(ml1.take(ci as int)[x] == y);
                                }
                            }
                            assert forall|y: u64|
                                ml1.take(ci as int).contains(y) implies ml1.take(
                                ci as int + 1,
                            ).contains(y) by {
                                let x = choose|x: int| 0 <= x < ci && ml1.take(ci as int)[x] == y;
                                assert(ml1.take(ci as int + 1)[x] == y);
                            }
                            assert(ml1.take(ci as int + 1)[ci as int] == c);
                            assert(ml1.take(ci as int + 1).contains(c));
                        }
                        let ghost cand_pre = candidates@;
                        if c != target {
                            candidates.push(c);
                            proof {
                                assert(!cand_pre.contains(c)) by {
                                    if cand_pre.contains(c) {
                                        let a = choose|a: int|
                                            0 <= a < cand_pre.len() && cand_pre[a] == c;
                                        assert(ml1.take(ci as int).contains(cand_pre[a]));
                                    }
                                }
                                assert forall|a: int, b2: int|
                                    0 <= a < b2 < candidates@.len() implies candidates@[a]
                                    != candidates@[b2] by {
                                    if b2 == candidates@.len() - 1 {
                                        assert(candidates@[a] == cand_pre[a]);
                                        assert(cand_pre.contains(cand_pre[a]));
                                    } else {
                                        assert(candidates@[a] == cand_pre[a] && candidates@[b2]
                                            == cand_pre[b2]);
                                    }
                                }
                            }
                        }
                        ci = ci + 1;
                    }
                    proof {
                        assert(ml1.take(ml1.len() as int) =~= ml1);
                        assert(ml1.contains(target) <==> m0.contains_key(target)) by {
                            if ml1.contains(target) {
                                let x = choose|x: int| 0 <= x < ml1.len() && ml1[x] == target;
                                assert(m0.contains_key(ml1[x]));
                            }
                        }
                        assert(candidates@.len() == n0 - (if m0.contains_key(target) {
                            1int
                        } else {
                            0int
                        }));
                        assert(forall|a: int|
                            0 <= a < candidates@.len() ==> #[trigger] candidates@[a] != target
                                && ml1.contains(candidates@[a]));
                    }
                    let ghost cand1 = candidates@;
                    shuffle_ids(&mut candidates);
                    proof {
                        assert forall|a: int|
                            0 <= a < candidates@.len() implies #[trigger] candidates@[a] != target
                            && m0.contains_key(candidates@[a]) by {
                            assert(candidates@.contains(candidates@[a]));
                            assert(cand1.contains(candidates@[a]));
                            let x = choose|x: int|
                                0 <= x < cand1.len() && cand1[x] == candidates@[a];
                            assert(ml1.contains(cand1[x]));
                            let y = choose|y: int| 0 <= y < ml1.len() && ml1[y] == cand1[x];
                            assert(m0.contains_key(ml1[y]));
                        }
                    }
                    let k = if self.pingreq_subgroup_sz < self.memberlist.len() {
                        self.pingreq_subgroup_sz
                    } else {
                        self.memberlist.len()
                    };
                    let k2 = if k < candidates.len() {
                        k
                    } else {
                        candidates.len()
                    };
                    proof {
                        assert(k2 as int == pingreq_cnt(
                            old(self).pingreq_subgroup_sz as nat,
                            n0,
                            m0.contains_key(target),
                        ));
                        assert(ladder_forwards(pl[i as int], now, pint, proto, susp0, n0));
                    }
                    let ghost lo = self.outbox@.len() as int;
                    let mut si: usize = 0;
                    while si < k2
                        invariant
                            self.wf(),
                            Server::same_identity(old(self), self),
                            pint == old(self).ping_interval,
                            proto == old(self).protocol_period,
                            susp0 == old(self).suspicion_period,
                            si <= k2,
                            k2 <= candidates@.len(),
                            pings_l@ == pl,
                            pl == old(self).pings@,
                            pings_unique(pl),
                            ping == pl[i as int],
                            target == ping.target,
                            0 <= i < pl.len(),
                            self.pings@.len() == 0,
                            self.membership@ == m0,
                            m0 == old(self).membership@,
                            n0 == m0.len(),
                            self.memberlist@ == ml1,
                            self.last_pinged == lp1,
                            self.incarnation == old(self).incarnation,
                            self.seq_no == old(self).seq_no,
                            store0 == old(self).broadcasts.contents(),
                            old(self).outbox@.is_prefix_of(self.outbox@),
                            candidates@.no_duplicates(),
                            forall|a: int|
                                0 <= a < candidates@.len() ==> #[trigger] candidates@[a] != target
                                    && m0.contains_key(candidates@[a]),
                            lo + si == self.outbox@.len(),
                            0 <= lo,
                            forall|x: int|
                                lo <= x < lo + si ==> ({
                                    let mm = #[trigger] self.outbox@[x];
                                    &&& mm.kind == (MsgKind::PingReq {
                                        target_id: target,
                                        target: ping.addr,
                                    })
                                    &&& mm.seq_no == ping.seq_no
                                    &&& mm.sender_id == old(self).id
                                    &&& mm.sender == old(self).addr
                                    &&& mm.recipient == candidates@[x - lo]
                                }),
                            forall|b: Broadcast|
                                self.broadcasts.contents().contains(b) ==> descended(store0, b)
                                    || rumor_listed(
                                    pl,
                                    b.msg,
                                    i as int,
                                    now,
                                    pint,
                                    proto,
                                    susp0,
                                    m0,
                                    n0,
                                ),
                            forall|j: int|
                                0 <= j < i ==> (ladder_rumor(
                                    #[trigger] pl[j],
                                    now,
                                    pint,
                                    proto,
                                    susp0,
                                    m0,
                                    n0,
                                ) matches Some(r) ==> rumor_spread(
                                    self.broadcasts.contents(),
                                    self.outbox@,
                                    r,
                                )),
                            forall|j: int|
                                0 <= j < i && ladder_forwards(
                                    #[trigger] pl[j],
                                    now,
                                    pint,
                                    proto,
                                    susp0,
                                    n0,
                                ) ==> pingreq_block(
                                    self.outbox@,
                                    old(self).id,
                                    old(self).addr,
                                    pl[j],
                                    m0,
                                    pingreq_cnt(
                                        old(self).pingreq_subgroup_sz as nat,
                                        n0,
                                        m0.contains_key(pl[j].target),
                                    ),
                                ),
                        decreases k2 - si,
                    {
                        let recipient = candidates[si];
                        let ghost store_pre = self.broadcasts.contents();
                        let ghost outbox_pre = self.outbox@;
                        let tail = self.gossip();
                        let m = Message {
                            recipient,
                            sender_id: self.id,
                            sender: self.addr,
                            seq_no: ping.seq_no,
                            kind: MsgKind::PingReq { target_id: target, target: ping.addr },
                            gossip: tail,
                        };
                        self.outbox.push(m);
                        proof {
                            assert(self.outbox@ == outbox_pre.push(m));
                            assert(old(self).outbox@.is_prefix_of(self.outbox@));
                            assert forall|b: Broadcast|
                                #[trigger] self.broadcasts.contents().contains(b)
                                implies descended(store_pre, b) by {
                                assert(evolved_entry(store_pre, b, max_sends_spec(m0.len())));
                                if store_pre.contains(b) {
                                    assert(store_pre.contains(
                                        Broadcast { msg: b.msg, id: b.id, sends: b.sends },
                                    ));
                                }
                            }
                            lemma_gossip_step_keeps(
                                store_pre,
                                self.broadcasts.contents(),
                                m,
                                store0,
                                pl,
                                i as int,
                                i as int,
                                now,
                                pint,
                                proto,
                                susp0,
                                m0,
                                n0,
                                outbox_pre,
                                self.outbox@,
                            );
                            assert forall|j: int|
                                0 <= j < i && ladder_forwards(
                                    #[trigger] pl[j],
                                    now,
                                    pint,
                                    proto,
                                    susp0,
                                    n0,
                                ) implies pingreq_block(
                                self.outbox@,
                                old(self).id,
                                old(self).addr,
                                pl[j],
                                m0,
                                pingreq_cnt(
                                    old(self).pingreq_subgroup_sz as nat,
                                    n0,
                                    m0.contains_key(pl[j].target),
                                ),
                            ) by {
                                lemma_pingreq_block_extend(
                                    outbox_pre,
                                    self.outbox@,
                                    old(self).id,
                                    old(self).addr,
                                    pl[j],
                                    m0,
                                    pingreq_cnt(
                                        old(self).pingreq_subgroup_sz as nat,
                                        n0,
                                        m0.contains_key(pl[j].target),
                                    ),
                                );
                            }
                        }
                        si = si + 1;
                    }
                    let forwarded = PendingPing {
                        target: ping.target,
                        addr: ping.addr,
                        seq_no: ping.seq_no,
                        requester: ping.requester,
                        state: PingState::Forwarded,
                        sent_at: ping.sent_at,
                    };
                    kept.push(forwarded);
                    proof {
                        assert(ladder_keeps(pl[i as int], now, pint, proto, susp0, m0, n0) == Some(
                            forwarded,
                        ));
                        assert(ladder_rumor(pl[i as int], now, pint, proto, susp0, m0, n0)
                            is None);
                        assert(pingreq_run(
                            self.outbox@,
                            old(self).id,
                            old(self).addr,
                            pl[i as int],
                            m0,
                            lo,
                            k2 as int,
                        )) by {
                            assert forall|x: int, y: int|
                                lo <= x < y < lo + k2 implies self.outbox@[x].recipient
                                != self.outbox@[y].recipient by {
                                assert(self.outbox@[x].recipient == candidates@[x - lo]);
                                assert(self.outbox@[y].recipient == candidates@[y - lo]);
                            }
                        }
                        assert(pingreq_block(
                            self.outbox@,
                            old(self).id,
                            old(self).addr,
                            pl[i as int],
                            m0,
                            k2 as int,
                        ));
                        assert(kept@ == kept0.push(forwarded));
                    }
                }
            } else {
                kept.push(ping);
                proof {
                    assert(ladder_keeps(pl[i as int], now, pint, proto, susp0, m0, n0) == Some(
                        ping,
                    ));
                    assert(ladder_rumor(pl[i as int], now, pint, proto, susp0, m0, n0) is None);
                    assert(kept@ == kept0.push(ping));
                }
            }
            proof {
                assert(kept_step(kept0, kept@, pl[i as int], now, pint, proto, susp0, m0, n0));
                assert(if ladder_removes(pl[i as int], now, susp0, m0) {
                    to_fail@ == tf0.push(target)
                } else {
                    to_fail@ == tf0
                });
                let lk = ladder_keeps(pl[i as int], now, pint, proto, susp0, m0, n0);
                assert forall|q: PendingPing| kept0.contains(q) implies kept@.contains(q) by {
                    let a = choose|a: int| 0 <= a < kept0.len() && kept0[a] == q;
                    assert(kept@[a] == q);
                }
                assert forall|t2: u64|
                    has_ping(kept@, t2) implies (has_ping(kept0, t2) || t2 == target) by {
                    let a = choose|a: int| 0 <= a < kept@.len() && kept@[a].target == t2;
                    if a < kept0.len() {
                        assert(kept@[a] == kept0[a]);
                    } else {
                        match lk {
                            Some(q) => {
                                assert(kept@[a] == q);
                                assert(q.target == target);
                            },
                            None => {},
                        }
                    }
                }
                assert(pings_unique(kept@)) by {
                    assert forall|a: int, b2: int|
                        0 <= a < b2 < kept@.len() implies kept@[a].target
                        != kept@[b2].target by {
                        if b2 < kept0.len() {
                            assert(kept@[a] == kept0[a] && kept@[b2] == kept0[b2]);
                        } else {
                            assert(kept@[a] == kept0[a]);
                            assert(kept0[a].target != target);
                            match lk {
                                Some(q) => {
                                    assert(kept@[b2] == q);
                                    assert(q.target == target);
                                },
                                None => {},
                            }
                        }
                    }
                }
                assert forall|j: int|
                    0 <= j < i + 1 implies (match ladder_keeps(
                    #[trigger] pl[j],
                    now,
                    pint,
                    proto,
                    susp0,
                    m0,
                    n0,
                ) {
                    Some(q) => kept@.contains(q),
                    None => !has_ping(kept@, pl[j].target),
                }) by {
                    match ladder_keeps(pl[j], now, pint, proto, susp0, m0, n0) {
                        Some(q) => {
                            if j == i {
                                assert(kept@[kept@.len() - 1] == q);
                            } else {
                                assert(kept0.contains(q));
                            }
                        },
                        None => {
                            if has_ping(kept@, pl[j].target) {
                                assert(has_ping(kept0, pl[j].target) || pl[j].target == target);
                                if j < i {
                                    assert(pl[j].target != pl[i as int].target);
                                    assert(!has_ping(kept0, pl[j].target));
                                } else {
                                    assert(kept@ == kept0);
                                    let a = choose|a: int|
                                        0 <= a < kept0.len() && kept0[a].target == target;
                                    assert(kept0[a].target != target);
                                }
                                assert(false);
                            }
                        },
                    }
                }
                assert forall|a: int|
                    0 <= a < kept@.len() implies kept_listed(
                    pl,
                    #[trigger] kept@[a],
                    i + 1,
                    now,
                    pint,
                    proto,
                    susp0,
                    m0,
                    n0,
                ) by {
                    if a < kept0.len() {
                        assert(kept_listed(pl, kept0[a], i as int, now, pint, proto, susp0, m0, n0));
                        let j = choose|j: int|
                            0 <= j < i && ladder_keeps(#[trigger] pl[j], now, pint, proto, susp0, m0, n0)
                                == Some(kept0[a]);
                        assert(kept@[a] == kept0[a]);
                    } else {
                        assert(ladder_keeps(pl[i as int], now, pint, proto, susp0, m0, n0)
                            == Some(kept@[a]));
                    }
                }
                assert forall|a: int|
                    0 <= a < to_fail@.len() implies removal_listed(
                    pl,
                    #[trigger] to_fail@[a],
                    i + 1,
                    now,
                    susp0,
                    m0,
                ) by {
                    if a < tf0.len() {
                        assert(removal_listed(pl, tf0[a], i as int, now, susp0, m0));
                        let j = choose|j: int|
                            0 <= j < i && (#[trigger] pl[j]).target == tf0[a] && ladder_removes(
                                pl[j],
                                now,
                                susp0,
                                m0,
                            );
                        assert(to_fail@[a] == tf0[a]);
                    } else {
                        assert(to_fail@[a] == target);
                        assert(pl[i as int].target == target && ladder_removes(
                            pl[i as int],
                            now,
                            susp0,
                            m0,
                        ));
                    }
                }
                assert forall|j: int|
                    0 <= j < i + 1 && ladder_removes(#[trigger] pl[j], now, susp0, m0)
                    implies to_fail@.contains(pl[j].target) by {
                    if j < i {
                        assert(tf0.contains(pl[j].target));
                        let x = choose|x: int| 0 <= x < tf0.len() && tf0[x] == pl[j].target;
                        assert(to_fail@[x] == pl[j].target);
                    } else {
                        assert(to_fail@[to_fail@.len() - 1] == target);
                    }
                }
                assert(to_fail@.no_duplicates()) by {
                    assert forall|a: int, b2: int|
                        0 <= a < b2 < to_fail@.len() implies to_fail@[a] != to_fail@[b2] by {
                        if b2 < tf0.len() {
                            assert(to_fail@[a] == tf0[a] && to_fail@[b2] == tf0[b2]);
                        } else {
                            assert(to_fail@[a] == tf0[a]);
                            assert(to_fail@[b2] == target);
                            assert(removal_listed(pl, tf0[a], i as int, now, susp0, m0));
                            let j = choose|j: int|
                                0 <= j < i && (#[trigger] pl[j]).target == tf0[a] && ladder_removes(
                                    pl[j],
                                    now,
                                    susp0,
                                    m0,
                                );
                            assert(pl[j].target != pl[i as int].target);
                        }
                    }
                }
            }
            i = i + 1;
        }
        let ghost keptv = kept@;
        let ghost tf = to_fail@;
        let ghost store_l = self.broadcasts.contents();
        let ghost outbox_l = self.outbox@;
        proof {
            assert(i == pl.len());
            assert(tf.take(0) =~= Seq::<u64>::empty());
        }
        let mut f: usize = 0;
        while f < to_fail.len()
            invariant
                self.wf(),
                Server::same_identity(old(self), self),
                susp0 == old(self).suspicion_period,
                f <= tf.len(),
                to_fail@ == tf,
                pl == old(self).pings@,
                pings_unique(pl),
                self.pings@.len() == 0,
                m0 == old(self).membership@,
                n0 == m0.len(),
                self.incarnation == old(self).incarnation,
                self.seq_no == old(self).seq_no,
                self.last_pinged == lp1,
                lp1 == 0 || lp1 == old(self).last_pinged,
                old(self).last_pinged >= old(self).memberlist@.len() ==> lp1 == 0,
                self.broadcasts == old(self).broadcasts || self.broadcasts.contents() == store_l,
                self.broadcasts.contents() == store_l,
                self.outbox@ == outbox_l,
                old(self).outbox@.is_prefix_of(self.outbox@),
                tf.no_duplicates(),
                forall|a: int|
                    0 <= a < tf.len() ==> removal_listed(
                        pl,
                        #[trigger] tf[a],
                        pl.len() as int,
                        now,
                        susp0,
                        m0,
                    ),
                forall|j: int|
                    0 <= j < pl.len() && ladder_removes(#[trigger] pl[j], now, susp0, m0)
                        ==> tf.contains(pl[j].target),
                forall|k: u64|
                    self.membership@.contains_key(k) <==> (m0.contains_key(k) && !tf.take(
                        f as int,
                    ).contains(k)),
                forall|k: u64|
                    #[trigger] self.membership@.contains_key(k) ==> self.membership@[k] == m0[k],
            decreases tf.len() - f,
        {
            let t = to_fail[f];
            proof {
                assert(t == tf[f as int]);
                assert(m0.contains_key(t)) by {
                    assert(removal_listed(pl, tf[f as int], pl.len() as int, now, susp0, m0));
                    let j = choose|j: int|
                        0 <= j < pl.len() && (#[trigger] pl[j]).target == tf[f as int]
                            && ladder_removes(pl[j], now, susp0, m0);
                }
                assert(!tf.take(f as int).contains(t)) by {
                    if tf.take(f as int).contains(t) {
                        let x = choose|x: int| 0 <= x < f && tf.take(f as int)[x] == t;
                        assert(tf[x] == tf[f as int]);
                    }
                }
                assert(self.membership@.contains_key(t));
            }
            self.remove_member(t);
            proof {
                assert(tf.take(f as int + 1) =~= tf.take(f as int).push(t));
                assert forall|k: u64|
                    #[trigger] tf.take(f as int + 1).contains(k) implies (tf.take(
                    f as int,
                ).contains(k) || k == t) by {
                    let x = choose|x: int|
                        0 <= x < f + 1 && #[trigger] tf.take(f as int + 1)[x] == k;
                    if x < f {
                        assert(tf.take(f as int)[x] == k);
                    }
                }
                assert forall|k: u64|
                    (tf.take(f as int).contains(k) || k == t) implies tf.take(
                    f as int + 1,
                ).contains(k) by {
                    if tf.take(f as int).contains(k) {
                        let x = choose|x: int| 0 <= x < f && tf.take(f as int)[x] == k;
                        assert(tf.take(f as int + 1)[x] == k);
                    } else {
                        assert(tf.take(f as int + 1)[f as int] == k);
                    }
                }
                assert forall|k: u64|
                    self.membership@.contains_key(k) <==> (m0.contains_key(k) && !tf.take(
                    f as int + 1,
                ).contains(k)) by {
                    assert(tf.take(f as int + 1).contains(k) <==> (tf.take(f as int).contains(k)
                        || k == t));
                }
            }
            f = f + 1;
        }
        proof {
            assert(tf.take(tf.len() as int) =~= tf);
            assert forall|k: u64|
                self.membership@.contains_key(k) <==> (m0.contains_key(k) && !removed_by_ladder(
                pl,
                k,
                now,
                susp0,
                m0,
            )) by {
                if tf.contains(k) {
                    let a = choose|a: int| 0 <= a < tf.len() && tf[a] == k;
                    assert(removal_listed(pl, tf[a], pl.len() as int, now, susp0, m0));
                    let j = choose|j: int|
                        0 <= j < pl.len() && (#[trigger] pl[j]).target == tf[a] && ladder_removes(
                            pl[j],
                            now,
                            susp0,
                            m0,
                        );
                    assert(removed_by_ladder(pl, k, now, susp0, m0));
                }
                if removed_by_ladder(pl, k, now, susp0, m0) {
                    let j = choose|j: int|
                        0 <= j < pl.len() && pl[j].target == k && ladder_removes(
                            pl[j],
                            now,
                            susp0,
                            m0,
                        );
                    assert(tf.contains(pl[j].target));
                }
            }
        }
        let ghost mfin = self.membership@;
        self.pings = kept;
        proof {
            assert(self.pings@ == keptv);
        }
        if !self.membership.is_empty() {
            if self.last_pinged >= self.memberlist.len() {
                self.last_pinged = 0;
            }
            let ghost lp2 = self.last_pinged as int;
            let rcpt = self.memberlist[self.last_pinged];
            let cur = *self.membership.get(&rcpt).unwrap();
            let sid = self.id;
            let ghost store_pre = self.broadcasts.contents();
            let ghost outbox_pre = self.outbox@;
            self.ping(rcpt, cur.addr, sid, now);
            self.last_pinged = self.last_pinged + 1;
            proof {
                assert(self.memberlist@[lp2] == rcpt);
                assert(self.last_pinged == lp2 + 1);
                assert(mfin.contains_key(rcpt));
                assert(ping_of(self.pings@, rcpt) == fresh_ping_entry(
                    rcpt,
                    mfin,
                    old(self).id,
                    old(self).seq_no,
                    now,
                ));
                let lastm = self.outbox@.last();
                assert(self.outbox@ =~= outbox_pre.push(lastm));
                assert forall|b: Broadcast|
                    #[trigger] self.broadcasts.contents().contains(b) implies descended(
                    store_pre,
                    b,
                ) by {
                    assert(evolved_entry(store_pre, b, max_sends_spec(mfin.len())));
                    if store_pre.contains(b) {
                        assert(store_pre.contains(
                            Broadcast { msg: b.msg, id: b.id, sends: b.sends },
                        ));
                    }
                }
                lemma_gossip_step_keeps(
                    store_pre,
                    self.broadcasts.contents(),
                    lastm,
                    store0,
                    pl,
                    pl.len() as int,
                    pl.len() as int,
                    now,
                    pint,
                    proto,
                    susp0,
                    m0,
                    n0,
                    outbox_pre,
                    self.outbox@,
                );
                assert forall|j: int|
                    0 <= j < pl.len() && ladder_forwards(
                        #[trigger] pl[j],
                        now,
                        pint,
                        proto,
                        susp0,
                        n0,
                    ) implies pingreq_block(
                    self.outbox@,
                    old(self).id,
                    old(self).addr,
                    pl[j],
                    m0,
                    pingreq_cnt(
                        old(self).pingreq_subgroup_sz as nat,
                        n0,
                        m0.contains_key(pl[j].target),
                    ),
                ) by {
                    lemma_pingreq_block_extend(
                        outbox_pre,
                        self.outbox@,
                        old(self).id,
                        old(self).addr,
                        pl[j],
                        m0,
                        pingreq_cnt(
                            old(self).pingreq_subgroup_sz as nat,
                            n0,
                            m0.contains_key(pl[j].target),
                        ),
                    );
                }
                assert forall|j: int|
                    0 <= j < pl.len() implies (match ladder_keeps(
                    #[trigger] pl[j],
                    now,
                    pint,
                    proto,
                    susp0,
                    m0,
                    n0,
                ) {
                    Some(q) => has_ping(self.pings@, q.target) && (ping_of(self.pings@, q.target)
                        == q || ping_of(self.pings@, q.target) == fresh_ping_entry(
                        q.target,
                        mfin,
                        old(self).id,
                        old(self).seq_no,
                        now,
                    )),
                    None => !has_ping(self.pings@, pl[j].target) || ping_of(
                        self.pings@,
                        pl[j].target,
                    ) == fresh_ping_entry(pl[j].target, mfin, old(self).id, old(self).seq_no, now),
                }) by {
                    match ladder_keeps(pl[j], now, pint, proto, susp0, m0, n0) {
                        Some(q) => {
                            assert(keptv.contains(q));
                            if q.target == rcpt {
                            } else {
                                let a = choose|a: int| 0 <= a < keptv.len() && keptv[a] == q;
                                assert(self.pings@.contains(keptv[a]));
                                let w = choose|w: int|
                                    0 <= w < self.pings@.len() && self.pings@[w] == q;
                                assert(has_ping(self.pings@, q.target));
                                let v = choose|v: int|
                                    0 <= v < self.pings@.len() && self.pings@[v].target
                                        == q.target;
                                assert(v == w);
                                assert(ping_of(self.pings@, q.target) == q);
                            }
                        },
                        None => {
                            if pl[j].target == rcpt {
                            } else {
                                if has_ping(self.pings@, pl[j].target) {
                                    let w = choose|w: int|
                                        0 <= w < self.pings@.len() && self.pings@[w].target
                                            == pl[j].target;
                                    assert(self.pings@[w].target == rcpt || keptv.contains(
                                        self.pings@[w],
                                    ));
                                    assert(has_ping(keptv, pl[j].target));
                                }
                            }
                        },
                    }
                }
                assert forall|a: int|
                    0 <= a < self.pings@.len() implies (kept_listed(
                    pl,
                    #[trigger] self.pings@[a],
                    pl.len() as int,
                    now,
                    pint,
                    proto,
                    susp0,
                    m0,
                    n0,
                ) || (mfin.contains_key(self.pings@[a].target) && self.pings@[a]
                    == fresh_ping_entry(
                    self.pings@[a].target,
                    mfin,
                    old(self).id,
                    old(self).seq_no,
                    now,
                ))) by {
                    if self.pings@[a].target == rcpt {
                        let v = choose|v: int|
                            0 <= v < self.pings@.len() && self.pings@[v].target == rcpt;
                        assert(v == a);
                        assert(self.pings@[a] == ping_of(self.pings@, rcpt));
                    } else {
                        assert(keptv.contains(self.pings@[a]));
                        let w = choose|w: int|
                            0 <= w < keptv.len() && keptv[w] == self.pings@[a];
                        assert(kept_listed(pl, keptv[w], pl.len() as int, now, pint, proto, susp0, m0, n0));
                    }
                }
            }
        } else {
            proof {
                assert forall|j: int|
                    0 <= j < pl.len() implies (match ladder_keeps(
                    #[trigger] pl[j],
                    now,
                    pint,
                    proto,
                    susp0,
                    m0,
                    n0,
                ) {
                    Some(q) => has_ping(self.pings@, q.target) && (ping_of(self.pings@, q.target)
                        == q || ping_of(self.pings@, q.target) == fresh_ping_entry(
                        q.target,
                        mfin,
                        old(self).id,
                        old(self).seq_no,
                        now,
                    )),
                    None => !has_ping(self.pings@, pl[j].target) || ping_of(
                        self.pings@,
                        pl[j].target,
                    ) == fresh_ping_entry(pl[j].target, mfin, old(self).id, old(self).seq_no, now),
                }) by {
                    match ladder_keeps(pl[j], now, pint, proto, susp0, m0, n0) {
                        Some(q) => {
                            assert(keptv.contains(q));
                            let w = choose|w: int|
                                0 <= w < self.pings@.len() && self.pings@[w] == q;
                            assert(has_ping(self.pings@, q.target));
                            let v = choose|v: int|
                                0 <= v < self.pings@.len() && self.pings@[v].target == q.target;
                            assert(v == w);
                            assert(ping_of(self.pings@, q.target) == q);
                        },
                        None => {
                        },
                    }
                }
            }
        }
        let mut out: Vec<Message> = Vec::new();
        core::mem::swap(&mut out, &mut self.outbox);
        out
    }
}

/// Enqueueing the rumor owed by ladder entry `i` preserves the tick's store
/// bookkeeping: the new entry is that rumor, older entries keep their
/// pedigree, and every rumor already spread stays spread.
pub proof fn lemma_store_push_keeps(
    pre: Multiset<Broadcast>,
    post: Multiset<Broadcast>,
    nb: Broadcast,
    store0: Multiset<Broadcast>,
    pl: Seq<PendingPing>,
    i: int,
    now: u64,
    pint: u64,
    proto: u64,
    susp0: u64,
    m0: Map<u64, Peer>,
    n0: nat,
    outbox: Seq<Message>,
)
    requires
        0 <= i < pl.len(),
        post == pre.insert(nb),
        ladder_rumor(pl[i], now, pint, proto, susp0, m0, n0) == Some(nb.msg),
        forall|b: Broadcast|
            pre.contains(b) ==> descended(store0, b) || rumor_listed(
                pl,
                b.msg,
                i,
                now,
                pint,
                proto,
                susp0,
                m0,
                n0,
            ),
        forall|j: int|
            0 <= j < i ==> (ladder_rumor(#[trigger] pl[j], now, pint, proto, susp0, m0, n0)
                matches Some(r2) ==> rumor_spread(pre, outbox, r2)),
    ensures
        forall|b: Broadcast|
            post.contains(b) ==> descended(store0, b) || rumor_listed(
                pl,
                b.msg,
                i + 1,
                now,
                pint,
                proto,
                susp0,
                m0,
                n0,
            ),
        forall|j: int|
            0 <= j < i + 1 ==> (ladder_rumor(#[trigger] pl[j], now, pint, proto, susp0, m0, n0)
                matches Some(r2) ==> rumor_spread(post, outbox, r2)),
{
    assert forall|b: Broadcast|
        post.contains(b) implies descended(store0, b) || rumor_listed(
        pl,
        b.msg,
        i + 1,
        now,
        pint,
        proto,
        susp0,
        m0,
        n0,
    ) by {
        if b != nb {
            assert(pre.contains(b));
            if !descended(store0, b) {
                let j = choose|j: int|
                    0 <= j < i && ladder_rumor(#[trigger] pl[j], now, pint, proto, susp0, m0, n0)
                        == Some(b.msg);
                assert(rumor_listed(pl, b.msg, i + 1, now, pint, proto, susp0, m0, n0));
            }
        } else {
            assert(ladder_rumor(pl[i], now, pint, proto, susp0, m0, n0) == Some(b.msg));
            assert(rumor_listed(pl, b.msg, i + 1, now, pint, proto, susp0, m0, n0));
        }
    }
    assert forall|j: int|
        0 <= j < i + 1 implies (ladder_rumor(#[trigger] pl[j], now, pint, proto, susp0, m0, n0)
        matches Some(r2) ==> rumor_spread(post, outbox, r2)) by {
        match ladder_rumor(pl[j], now, pint, proto, susp0, m0, n0) {
            Some(r2) => {
                if j == i {
                    assert(post.contains(nb));
                    assert(from_store(post, r2));
                } else {
                    assert(rumor_spread(pre, outbox, r2));
                    if from_store(pre, r2) {
                        let b = choose|b: Broadcast| pre.contains(b) && b.msg == r2;
                        assert(post.contains(b));
                    }
                }
            },
            None => {},
        }
    }
}

/// One piggyback-bearing message preserves the tick's store bookkeeping:
/// entries keep their pedigree across the selection, and every rumor already
/// spread is still in the store or now rides in the appended message.
pub proof fn lemma_gossip_step_keeps(
    pre: Multiset<Broadcast>,
    post: Multiset<Broadcast>,
    m: Message,
    store0: Multiset<Broadcast>,
    pl: Seq<PendingPing>,
    jbc: int,
    jbs: int,
    now: u64,
    pint: u64,
    proto: u64,
    susp0: u64,
    m0: Map<u64, Peer>,
    n0: nat,
    outbox_pre: Seq<Message>,
    outbox_post: Seq<Message>,
)
    requires
        forall|b: Broadcast| #[trigger] post.contains(b) ==> descended(pre, b),
        forall|b: Broadcast|
            pre.contains(b) ==> rumor_retained(post, m.gossip@, b),
        outbox_post == outbox_pre.push(m),
        forall|b: Broadcast|
            pre.contains(b) ==> descended(store0, b) || rumor_listed(
                pl,
                b.msg,
                jbc,
                now,
                pint,
                proto,
                susp0,
                m0,
                n0,
            ),
        forall|j: int|
            0 <= j < jbs ==> (ladder_rumor(#[trigger] pl[j], now, pint, proto, susp0, m0, n0)
                matches Some(r2) ==> rumor_spread(pre, outbox_pre, r2)),
    ensures
        forall|b: Broadcast|
            post.contains(b) ==> descended(store0, b) || rumor_listed(
                pl,
                b.msg,
                jbc,
                now,
                pint,
                proto,
                susp0,
                m0,
                n0,
            ),
        forall|j: int|
            0 <= j < jbs ==> (ladder_rumor(#[trigger] pl[j], now, pint, proto, susp0, m0, n0)
                matches Some(r2) ==> rumor_spread(post, outbox_post, r2)),
{
    assert forall|b: Broadcast|
        post.contains(b) implies descended(store0, b) || rumor_listed(
        pl,
        b.msg,
        jbc,
        now,
        pint,
        proto,
        susp0,
        m0,
        n0,
    ) by {
        assert(descended(pre, b));
        let s = choose|s: u64|
            s <= b.sends && pre.contains(Broadcast { msg: b.msg, id: b.id, sends: s });
        let e = Broadcast { msg: b.msg, id: b.id, sends: s };
        assert(pre.contains(e));
        if descended(store0, e) {
            let s0 = choose|s0: u64|
                s0 <= e.sends && store0.contains(Broadcast { msg: e.msg, id: e.id, sends: s0 });
            assert(s0 <= b.sends);
            assert(store0.contains(Broadcast { msg: b.msg, id: b.id, sends: s0 }));
        } else {
            assert(rumor_listed(pl, e.msg, jbc, now, pint, proto, susp0, m0, n0));
        }
    }
    assert forall|j: int|
        0 <= j < jbs implies (ladder_rumor(#[trigger] pl[j], now, pint, proto, susp0, m0, n0)
        matches Some(r2) ==> rumor_spread(post, outbox_post, r2)) by {
        match ladder_rumor(pl[j], now, pint, proto, susp0, m0, n0) {
            Some(r2) => {
                assert(rumor_spread(pre, outbox_pre, r2));
                if from_store(pre, r2) {
                    let b = choose|b: Broadcast| pre.contains(b) && b.msg == r2;
                    assert(rumor_retained(post, m.gossip@, b));
                    if m.gossip@.contains(b.msg) {
                        let g = choose|g: int| 0 <= g < m.gossip@.len() && m.gossip@[g] == b.msg;
                        assert(outbox_post[outbox_post.len() - 1] == m);
                        assert(outbox_post[outbox_post.len() - 1].gossip@[g] == r2);
                    } else {
                        let s2 = choose|s2: u64|
                            b.sends <= s2 && post.contains(
                                Broadcast { msg: b.msg, id: b.id, sends: s2 },
                            );
                        assert(post.contains(Broadcast { msg: b.msg, id: b.id, sends: s2 }));
                        assert(from_store(post, r2));
                    }
                } else {
                    let (i2, j2) = choose|i2: int, j2: int|
                        0 <= i2 < outbox_pre.len() && 0 <= j2 < outbox_pre[i2].gossip@.len()
                            && outbox_pre[i2].gossip@[j2] == r2;
                    assert(outbox_post[i2] == outbox_pre[i2]);
                }
            },
            None => {},
        }
    }
}

/// Removing one pending ping keeps targets unique, erases exactly that
/// target, and keeps every other entry.
pub proof fn lemma_pings_remove(s: Seq<PendingPing>, i: int)
    requires
        0 <= i < s.len(),
        pings_unique(s),
    ensures
        pings_unique(s.remove(i)),
        !has_ping(s.remove(i), s[i].target),
        forall|j: int| 0 <= j < s.len() && j != i ==> s.remove(i).contains(#[trigger] s[j]),
        forall|j: int|
            0 <= j < s.remove(i).len() ==> s.contains(#[trigger] s.remove(i)[j]) && s.remove(
                i,
            )[j].target != s[i].target,
{
    let t = s.remove(i);
    s.remove_ensures(i);
    assert forall|j: int|
        0 <= j < t.len() implies s.contains(#[trigger] t[j]) && t[j].target != s[i].target by {
        if j < i {
            assert(t[j] == s[j]);
        } else {
            assert(t[j] == s[j + 1]);
        }
    }
    assert forall|j: int| 0 <= j < s.len() && j != i implies t.contains(#[trigger] s[j]) by {
        if j < i {
            assert(t[j] == s[j]);
        } else {
            assert(t[j - 1] == s[j]);
        }
    }
    assert forall|a: int, b: int| 0 <= a < b < t.len() implies t[a].target != t[b].target by {
        let aa = if a < i { a } else { a + 1 };
        let bb = if b < i { b } else { b + 1 };
        assert(t[a] == s[aa] && t[b] == s[bb]);
        assert(0 <= aa < bb < s.len());
    }
}

/// Removing an element of a duplicate-free sequence keeps it duplicate-free,
/// shrinks it by one, and removes exactly that element.
pub proof fn lemma_seq_remove_effect(s: Seq<u64>, i: int)
    requires
        0 <= i < s.len(),
        s.no_duplicates(),
    ensures
        s.remove(i).no_duplicates(),
        s.remove(i).len() == s.len() - 1,
        forall|y: u64| s.remove(i).contains(y) <==> (y != s[i] && s.contains(y)),
{
    let t = s.remove(i);
    s.remove_ensures(i);
    assert forall|y: u64| t.contains(y) implies (y != s[i] && s.contains(y)) by {
        let j = choose|j: int| 0 <= j < t.len() && t[j] == y;
        if j < i {
            assert(t[j] == s[j]);
            assert(s.contains(s[j]));
        } else {
            assert(t[j] == s[j + 1]);
            assert(s.contains(s[j + 1]));
        }
    }
    assert forall|y: u64| (y != s[i] && s.contains(y)) implies t.contains(y) by {
        let j = choose|j: int| 0 <= j < s.len() && s[j] == y;
        if j < i {
            assert(t[j] == y);
        } else {
            assert(j > i);
            assert(t[j - 1] == s[j]);
        }
    }
    assert forall|a: int, b: int| 0 <= a < b < t.len() implies t[a] != t[b] by {
        let aa = if a < i { a } else { a + 1 };
        let bb = if b < i { b } else { b + 1 };
        assert(t[a] == s[aa] && t[b] == s[bb]);
        assert(0 <= aa < bb < s.len());
    }
}

/// Inserting a fresh element anywhere in a duplicate-free sequence keeps it
/// duplicate-free, grows it by one, and adds exactly that element.
pub proof fn lemma_seq_insert_effect(s: Seq<u64>, pos: int, x: u64)
    requires
        0 <= pos <= s.len(),
        s.no_duplicates(),
        !s.contains(x),
    ensures
        s.insert(pos, x).no_duplicates(),
        s.insert(pos, x).len() == s.len() + 1,
        forall|y: u64| s.insert(pos, x).contains(y) <==> (y == x || s.contains(y)),
        forall|i: int|
            0 <= i < s.insert(pos, x).len() ==> (#[trigger] s.insert(pos, x)[i] == x || s.contains(
                s.insert(pos, x)[i],
            )),
{
    let t = s.insert(pos, x);
    assert(t.len() == s.len() + 1);
    assert(forall|i: int| 0 <= i < pos ==> t[i] == s[i]);
    assert(t[pos] == x);
    assert(forall|i: int| pos < i < t.len() ==> t[i] == s[i - 1]);
    assert forall|y: u64| t.contains(y) implies (y == x || s.contains(y)) by {
        let i = choose|i: int| 0 <= i < t.len() && t[i] == y;
        if i < pos {
            assert(s[i] == y);
        } else if i > pos {
            assert(s[i - 1] == y);
        }
    }
    assert forall|y: u64| (y == x || s.contains(y)) implies t.contains(y) by {
        if y == x {
            assert(t[pos] == y);
        } else {
            let i = choose|i: int| 0 <= i < s.len() && s[i] == y;
            if i < pos {
                assert(t[i] == y);
            } else {
                assert(t[i + 1] == y);
            }
        }
    }
    assert forall|i: int, j: int| 0 <= i < j < t.len() implies t[i] != t[j] by {
        if i == pos {
            assert(t[j] == s[j - 1]);
            assert(s.contains(s[j - 1]));
        } else if j == pos {
            assert(t[i] == s[i]);
            assert(s.contains(s[i]));
        } else {
            let ii = if i < pos { i } else { i - 1 };
            let jj = if j < pos { j } else { j - 1 };
            assert(t[i] == s[ii] && t[j] == s[jj]);
            assert(0 <= ii < jj < s.len());
        }
    }
}

} // verus!
