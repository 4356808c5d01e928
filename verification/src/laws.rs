//! Laws of the membership model.
//!
//! The inbound path of a node is pinned down by the spec functions
//! `remember_m`, `rumor_m`, `merge_m`, `ack_m` and `process_m` (see
//! `server`): `Server::process` proves that the peer table afterwards is
//! exactly `process_m` of the peer table before. The laws here are therefore
//! stated, once and for all, over those functions.

use vstd::prelude::*;

use crate::msg::Message;
use crate::msg::MsgKind;
use crate::msg::Peer;
use crate::msg::PeerState;
use crate::msg::Rumor;
use crate::msg::RumorKind;
use crate::server::ack_m;
use crate::server::has_ping;
use crate::server::merge_m;
use crate::server::ping_of;
use crate::server::process_m;
use crate::server::remember_m;
use crate::server::rumor_m;
use crate::server::rumor_pushed;
use crate::server::rumors_m;
use crate::server::PendingPing;
use crate::store::MAX_MEMBERS;

verus! {

/// Every peer known before and after has not lost incarnation ground.
pub open spec fn incs_nondec(pre: Map<u64, Peer>, post: Map<u64, Peer>) -> bool {
    forall|k: u64|
        pre.contains_key(k) && #[trigger] post.contains_key(k) ==> pre[k].incarnation
            <= post[k].incarnation
}

/// `post` still knows every peer of `pre`.
pub open spec fn keeps_keys(pre: Map<u64, Peer>, post: Map<u64, Peer>) -> bool {
    forall|k: u64| #[trigger] pre.contains_key(k) ==> post.contains_key(k)
}

/// The remember / merge rule never forgets a peer and never lowers a
/// stored incarnation.
pub proof fn lemma_remember_m_nondec(
    self_id: u64,
    m: Map<u64, Peer>,
    id: u64,
    addr: u64,
    incarnation: u64,
    state: PeerState,
)
    ensures
        incs_nondec(m, remember_m(self_id, m, id, addr, incarnation, state)),
        keeps_keys(m, remember_m(self_id, m, id, addr, incarnation, state)),
{
}

/// A peer's stored incarnation is non-decreasing under any single rumor.
pub proof fn lemma_rumor_m_nondec(self_id: u64, m: Map<u64, Peer>, r: Rumor)
    ensures
        incs_nondec(m, rumor_m(self_id, m, r)),
        !(r.kind is Failed) ==> keeps_keys(m, rumor_m(self_id, m, r)),
{
    match r.kind {
        RumorKind::Alive(addr) => {
            lemma_remember_m_nondec(self_id, m, r.peer_id, addr, r.incarnation, PeerState::Alive);
        },
        _ => {},
    }
}

/// A peer's stored incarnation is non-decreasing under a whole gossip tail,
/// as long as no rumor in it removes the peer: a `Failed` rumor followed by
/// a fresh `Alive` sighting restarts the peer at the new incarnation.
pub proof fn lemma_rumors_m_nondec(self_id: u64, m: Map<u64, Peer>, rs: Seq<Rumor>)
    requires
        forall|j: int| 0 <= j < rs.len() ==> !(#[trigger] rs[j].kind is Failed),
    ensures
        incs_nondec(m, rumors_m(self_id, m, rs)),
        keeps_keys(m, rumors_m(self_id, m, rs)),
    decreases rs.len(),
{
    if rs.len() > 0 {
        let m1 = rumor_m(self_id, m, rs[0]);
        lemma_rumor_m_nondec(self_id, m, rs[0]);
        assert(forall|j: int| 0 <= j < rs.skip(1).len() ==> rs.skip(1)[j] == rs[j + 1]);
        lemma_rumors_m_nondec(self_id, m1, rs.skip(1));
    }
}

/// A peer's stored incarnation is non-decreasing under a pushed or pulled
/// peer-list merge.
pub proof fn lemma_merge_m_nondec(self_id: u64, m: Map<u64, Peer>, ps: Seq<Peer>)
    ensures
        incs_nondec(m, merge_m(self_id, m, ps)),
        keeps_keys(m, merge_m(self_id, m, ps)),
    decreases ps.len(),
{
    if ps.len() > 0 {
        let m1 = remember_m(self_id, m, ps[0].id, ps[0].addr, ps[0].incarnation, ps[0].state);
        lemma_remember_m_nondec(self_id, m, ps[0].id, ps[0].addr, ps[0].incarnation, ps[0].state);
        lemma_merge_m_nondec(self_id, m1, ps.skip(1));
    }
}

/// A matching ack never lowers a stored incarnation and never forgets.
pub proof fn lemma_ack_m_nondec(
    self_id: u64,
    pings: Seq<PendingPing>,
    m: Map<u64, Peer>,
    peer_id: u64,
    incarnation: u64,
)
    ensures
        incs_nondec(m, ack_m(self_id, pings, m, peer_id, incarnation)),
        keeps_keys(m, ack_m(self_id, pings, m, peer_id, incarnation)),
{
    if !m.contains_key(peer_id) {
        lemma_remember_m_nondec(
            self_id,
            m,
            peer_id,
            ping_of(pings, peer_id).addr,
            incarnation,
            PeerState::Alive,
        );
    }
}

/// A peer's incarnation is non-decreasing at any given node: processing any
/// message whose gossip removes no peer only ever raises what is stored. A
/// `Failed` rumor forgets the peer; a later `Alive` readmits it at whatever
/// incarnation the rumor carries, which is the one escape from monotonicity.
pub proof fn lemma_process_m_nondec(
    self_id: u64,
    m: Map<u64, Peer>,
    pings: Seq<PendingPing>,
    msg: Message,
)
    requires
        forall|j: int| 0 <= j < msg.gossip@.len() ==> !(#[trigger] msg.gossip@[j].kind is Failed),
    ensures
        incs_nondec(m, process_m(self_id, m, pings, msg)),
        keeps_keys(m, process_m(self_id, m, pings, msg)),
{
    let m1 = remember_m(self_id, m, msg.sender_id, msg.sender, 0, PeerState::Alive);
    lemma_remember_m_nondec(self_id, m, msg.sender_id, msg.sender, 0, PeerState::Alive);
    match msg.kind {
        MsgKind::Ping => {
            lemma_rumors_m_nondec(self_id, m1, msg.gossip@);
        },
        MsgKind::PingReq { .. } => {
            lemma_rumors_m_nondec(self_id, m1, msg.gossip@);
        },
        MsgKind::Ack(peer_id, incarnation) => {
            if has_ping(pings, peer_id) && ping_of(pings, peer_id).seq_no == msg.seq_no {
                lemma_ack_m_nondec(self_id, pings, m1, peer_id, incarnation);
                lemma_rumors_m_nondec(
                    self_id,
                    ack_m(self_id, pings, m1, peer_id, incarnation),
                    msg.gossip@,
                );
            }
        },
        MsgKind::Push(ps) => {
            lemma_merge_m_nondec(self_id, m1, ps@);
            lemma_rumors_m_nondec(self_id, merge_m(self_id, m1, ps@), msg.gossip@);
        },
        MsgKind::Pull(ps) => {
            lemma_merge_m_nondec(self_id, m1, ps@);
            lemma_rumors_m_nondec(self_id, merge_m(self_id, m1, ps@), msg.gossip@);
        },
    }
}

/// Applying the same rumor twice is a no-op after the first application,
/// for rumors about peers other than the local node (a rumor about the
/// local node bumps the incarnation or refutes again on every sighting).
pub proof fn lemma_rumor_m_idempotent(self_id: u64, m: Map<u64, Peer>, r: Rumor)
    requires
        r.peer_id != self_id,
    ensures
        rumor_m(self_id, rumor_m(self_id, m, r), r) == rumor_m(self_id, m, r),
{
}

/// And the second application spreads nothing: once a rumor has been
/// applied, applying it again enqueues no broadcast (stated away from the
/// peer-table ceiling, where a sighting could not even be recorded).
pub proof fn lemma_rumor_applied_once(
    self_id: u64,
    self_addr: u64,
    self_inc: u64,
    m: Map<u64, Peer>,
    r: Rumor,
)
    requires
        r.peer_id != self_id,
        m.len() < MAX_MEMBERS,
    ensures
        rumor_pushed(self_id, self_addr, self_inc, rumor_m(self_id, m, r), r) is None,
{
}

/// One remember / merge step for a whole peer record.
pub open spec fn rem_peer(self_id: u64, m: Map<u64, Peer>, p: Peer) -> Map<u64, Peer> {
    remember_m(self_id, m, p.id, p.addr, p.incarnation, p.state)
}

/// Two peer lists that never tie on incarnations for a shared id, and agree
/// on the address of any shared id.
pub open spec fn lists_compatible(xs: Seq<Peer>, ys: Seq<Peer>) -> bool {
    forall|i: int, j: int|
        #![trigger xs[i], ys[j]]
        0 <= i < xs.len() && 0 <= j < ys.len() && xs[i].id == ys[j].id ==> (xs[i].incarnation
            != ys[j].incarnation && xs[i].addr == ys[j].addr)
}

/// Remembering grows the peer table by at most one entry.
pub proof fn lemma_remember_m_len(
    self_id: u64,
    m: Map<u64, Peer>,
    id: u64,
    addr: u64,
    incarnation: u64,
    state: PeerState,
)
    requires
        m.dom().finite(),
    ensures
        m.len() <= remember_m(self_id, m, id, addr, incarnation, state).len() <= m.len() + 1,
        remember_m(self_id, m, id, addr, incarnation, state).dom().finite(),
{
    let r = remember_m(self_id, m, id, addr, incarnation, state);
    if id == self_id {
    } else if m.contains_key(id) {
        if incarnation > m[id].incarnation {
            assert(r.dom() =~= m.dom());
        }
    } else if m.len() < MAX_MEMBERS {
        assert(r.dom() =~= m.dom().insert(id));
    }
}

/// Merging grows the peer table by at most the length of the list.
pub proof fn lemma_merge_m_len(self_id: u64, m: Map<u64, Peer>, ps: Seq<Peer>)
    requires
        m.dom().finite(),
    ensures
        m.len() <= merge_m(self_id, m, ps).len() <= m.len() + ps.len(),
        merge_m(self_id, m, ps).dom().finite(),
    decreases ps.len(),
{
    if ps.len() > 0 {
        let m1 = rem_peer(self_id, m, ps[0]);
        lemma_remember_m_len(self_id, m, ps[0].id, ps[0].addr, ps[0].incarnation, ps[0].state);
        lemma_merge_m_len(self_id, m1, ps.skip(1));
    }
}

/// Two single remember steps commute when they cannot tie on an incarnation
/// for the same id (and, for the same id, agree on the address), away from
/// the peer-table ceiling.
pub proof fn lemma_remember_m_comm(self_id: u64, m: Map<u64, Peer>, p: Peer, q: Peer)
    requires
        m.dom().finite(),
        p.id == q.id ==> (p.incarnation != q.incarnation && p.addr == q.addr),
        m.len() + 2 <= MAX_MEMBERS,
    ensures
        rem_peer(self_id, rem_peer(self_id, m, p), q) == rem_peer(
            self_id,
            rem_peer(self_id, m, q),
            p,
        ),
{
    let mp = rem_peer(self_id, m, p);
    let mq = rem_peer(self_id, m, q);
    lemma_remember_m_len(self_id, m, p.id, p.addr, p.incarnation, p.state);
    lemma_remember_m_len(self_id, m, q.id, q.addr, q.incarnation, q.state);
    assert(rem_peer(self_id, mp, q) =~= rem_peer(self_id, mq, p));
}

/// A single remember step commutes past a whole merge of a compatible list.
pub proof fn lemma_merge_m_one_comm(self_id: u64, m: Map<u64, Peer>, p: Peer, ys: Seq<Peer>)
    requires
        m.dom().finite(),
        forall|j: int|
            0 <= j < ys.len() ==> (p.id == #[trigger] ys[j].id ==> (p.incarnation
                != ys[j].incarnation && p.addr == ys[j].addr)),
        m.len() + 1 + ys.len() <= MAX_MEMBERS,
    ensures
        merge_m(self_id, rem_peer(self_id, m, p), ys) == rem_peer(
            self_id,
            merge_m(self_id, m, ys),
            p,
        ),
    decreases ys.len(),
{
    if ys.len() == 0 {
    } else {
        let y0 = ys[0];
        lemma_remember_m_comm(self_id, m, p, y0);
        lemma_remember_m_len(self_id, m, y0.id, y0.addr, y0.incarnation, y0.state);
        lemma_merge_m_one_comm(self_id, rem_peer(self_id, m, y0), p, ys.skip(1));
        assert(merge_m(self_id, rem_peer(self_id, m, p), ys) == merge_m(
            self_id,
            rem_peer(self_id, rem_peer(self_id, m, p), y0),
            ys.skip(1),
        ));
        assert(merge_m(self_id, m, ys) == merge_m(self_id, rem_peer(self_id, m, y0), ys.skip(1)));
    }
}

/// Anti-entropy is order-independent: `process(Pull(X))` followed by
/// `process(Push(Y))` settles the peer table at the two merges, and merging
/// `X` then `Y` equals merging `Y` then `X`, provided no id shared by the
/// two lists carries the same incarnation in both, the lists agree on the
/// address of any shared id, and the peer table stays under its ceiling.
pub proof fn lemma_merge_m_comm(self_id: u64, m: Map<u64, Peer>, xs: Seq<Peer>, ys: Seq<Peer>)
    requires
        m.dom().finite(),
        lists_compatible(xs, ys),
        m.len() + xs.len() + ys.len() <= MAX_MEMBERS,
    ensures
        merge_m(self_id, merge_m(self_id, m, xs), ys) == merge_m(
            self_id,
            merge_m(self_id, m, ys),
            xs,
        ),
    decreases xs.len(),
{
    if xs.len() == 0 {
    } else {
        let x0 = xs[0];
        lemma_remember_m_len(self_id, m, x0.id, x0.addr, x0.incarnation, x0.state);
        assert(lists_compatible(xs.skip(1), ys)) by {
            assert forall|i: int, j: int|
                #![trigger xs.skip(1)[i], ys[j]]
                0 <= i < xs.skip(1).len() && 0 <= j < ys.len() && xs.skip(1)[i].id == ys[j].id
                    implies (xs.skip(1)[i].incarnation != ys[j].incarnation && xs.skip(1)[i].addr
                    == ys[j].addr) by {
                assert(xs.skip(1)[i] == xs[i + 1]);
            }
        }
        lemma_merge_m_comm(self_id, rem_peer(self_id, m, x0), xs.skip(1), ys);
        assert(forall|j: int|
            0 <= j < ys.len() ==> (x0.id == #[trigger] ys[j].id ==> (x0.incarnation
                != ys[j].incarnation && x0.addr == ys[j].addr)));
        lemma_merge_m_one_comm(self_id, m, x0, ys);
        assert(merge_m(self_id, merge_m(self_id, m, xs), ys) == merge_m(
            self_id,
            merge_m(self_id, rem_peer(self_id, m, x0), xs.skip(1)),
            ys,
        ));
        assert(merge_m(self_id, merge_m(self_id, m, ys), xs) == merge_m(
            self_id,
            rem_peer(self_id, merge_m(self_id, m, ys), x0),
            xs.skip(1),
        ));
    }
}

/// The peer list carried by an anti-entropy message.
pub open spec fn peers_of(kind: MsgKind) -> Seq<Peer> {
    match kind {
        MsgKind::Push(ps) => ps@,
        MsgKind::Pull(ps) => ps@,
        _ => Seq::<Peer>::empty(),
    }
}

/// `process(Pull(X))` followed by `process(Push(Y))` yields the same
/// membership as the two merges applied in either order: for anti-entropy
/// messages without gossip tails, from already-known senders, processing in
/// either order settles the peer table at the order-independent double
/// merge, under the compatibility conditions of `lemma_merge_m_comm`.
pub proof fn lemma_pull_push_order_independent(
    self_id: u64,
    m: Map<u64, Peer>,
    pings1: Seq<PendingPing>,
    pings2: Seq<PendingPing>,
    msg1: Message,
    msg2: Message,
)
    requires
        m.dom().finite(),
        msg1.kind is Pull,
        msg2.kind is Push,
        msg1.gossip@.len() == 0,
        msg2.gossip@.len() == 0,
        m.contains_key(msg1.sender_id),
        m.contains_key(msg2.sender_id),
        lists_compatible(peers_of(msg1.kind), peers_of(msg2.kind)),
        m.len() + peers_of(msg1.kind).len() + peers_of(msg2.kind).len() <= MAX_MEMBERS,
    ensures
        process_m(self_id, process_m(self_id, m, pings1, msg1), pings2, msg2) == merge_m(
            self_id,
            merge_m(self_id, m, peers_of(msg1.kind)),
            peers_of(msg2.kind),
        ),
        process_m(self_id, process_m(self_id, m, pings2, msg2), pings1, msg1) == merge_m(
            self_id,
            merge_m(self_id, m, peers_of(msg2.kind)),
            peers_of(msg1.kind),
        ),
        process_m(self_id, process_m(self_id, m, pings1, msg1), pings2, msg2) == process_m(
            self_id,
            process_m(self_id, m, pings2, msg2),
            pings1,
            msg1,
        ),
{
    let xs = peers_of(msg1.kind);
    let ys = peers_of(msg2.kind);
    let mx = merge_m(self_id, m, xs);
    let my = merge_m(self_id, m, ys);
    lemma_merge_m_nondec(self_id, m, xs);
    lemma_merge_m_nondec(self_id, m, ys);
    assert(process_m(self_id, m, pings1, msg1) == mx) by {
        assert(remember_m(self_id, m, msg1.sender_id, msg1.sender, 0, PeerState::Alive) == m);
        assert(rumors_m(self_id, mx, msg1.gossip@) == mx);
    }
    assert(process_m(self_id, m, pings2, msg2) == my) by {
        assert(remember_m(self_id, m, msg2.sender_id, msg2.sender, 0, PeerState::Alive) == m);
        assert(rumors_m(self_id, my, msg2.gossip@) == my);
    }
    assert(process_m(self_id, mx, pings2, msg2) == merge_m(self_id, mx, ys)) by {
        assert(mx.contains_key(msg2.sender_id));
        assert(remember_m(self_id, mx, msg2.sender_id, msg2.sender, 0, PeerState::Alive) == mx);
        assert(rumors_m(self_id, merge_m(self_id, mx, ys), msg2.gossip@) == merge_m(
            self_id,
            mx,
            ys,
        ));
    }
    assert(process_m(self_id, my, pings1, msg1) == merge_m(self_id, my, xs)) by {
        assert(my.contains_key(msg1.sender_id));
        assert(remember_m(self_id, my, msg1.sender_id, msg1.sender, 0, PeerState::Alive) == my);
        assert(rumors_m(self_id, merge_m(self_id, my, xs), msg1.gossip@) == merge_m(
            self_id,
            my,
            xs,
        ));
    }
    lemma_merge_m_comm(self_id, m, xs, ys);
}

} // verus!
