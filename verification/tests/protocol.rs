use swim::msg::Message;
use swim::msg::MsgKind;
use swim::msg::Peer;
use swim::msg::PeerState;
use swim::msg::Rumor;
use swim::msg::RumorKind;
use swim::server::PingState;
use swim::server::Server;

fn node(id: u64, addr: u64) -> Server {
    Server::new(id, addr, 10, 2, 30, 120)
}

fn peer(id: u64, addr: u64, state: PeerState, incarnation: u64) -> Peer {
    Peer { id, addr, state, incarnation }
}

fn push_from(sender_id: u64, sender: u64, recipient: u64, peers: Vec<Peer>) -> Message {
    Message {
        recipient,
        sender_id,
        sender,
        seq_no: 0,
        kind: MsgKind::Push(peers),
        gossip: Vec::new(),
    }
}

fn ping_with_gossip(
    sender_id: u64,
    sender: u64,
    recipient: u64,
    seq_no: u64,
    gossip: Vec<Rumor>,
) -> Message {
    Message { recipient, sender_id, sender, seq_no, kind: MsgKind::Ping, gossip }
}

/// The non-self rows of the membership snapshot, sorted by id.
fn others(s: &Server) -> Vec<Peer> {
    let mut v: Vec<Peer> = s
        .current_membership()
        .into_iter()
        .filter(|p| p.id != s.id)
        .collect();
    v.sort_by_key(|p| p.id);
    v
}

#[test]
fn join_pull_push_converges() {
    let mut a = node(1, 100);
    let mut b = node(2, 200);
    a.join(2, 200);
    let out = a.tick(0);
    assert_eq!(out.len(), 1);
    assert_eq!(out[0].recipient, 2);
    assert!(matches!(out[0].kind, MsgKind::Pull(_)));

    b.process(out.into_iter().next().unwrap(), 0);
    let bout = b.take_outbox();
    assert_eq!(bout.len(), 1);
    let push = bout.into_iter().next().unwrap();
    assert_eq!(push.recipient, 1);
    match &push.kind {
        MsgKind::Push(peers) => {
            let mut ids: Vec<u64> = peers.iter().map(|p| p.id).collect();
            ids.sort();
            assert_eq!(ids, vec![1, 2]);
        },
        _ => panic!("expected a Push reply"),
    }

    a.process(push, 0);
    let mut ids: Vec<u64> = a.current_membership().iter().map(|p| p.id).collect();
    ids.sort();
    assert_eq!(ids, vec![1, 2]);
    assert!(a.current_membership().iter().all(|p| p.state == PeerState::Alive));
    // the memberlist mirrors the membership map (which excludes self)
    assert_eq!(a.memberlist.len(), a.current_membership().len() - 1);
}

#[test]
fn join_of_known_peer_sends_nothing() {
    let mut a = node(1, 100);
    a.process(push_from(2, 200, 1, vec![peer(2, 200, PeerState::Alive, 1)]), 0);
    a.join(2, 200);
    assert!(a.take_outbox().is_empty());
}

#[test]
fn direct_ack_clears_pending_ping() {
    let mut a = node(1, 100);
    let mut b = node(2, 200);
    a.process(push_from(2, 200, 1, vec![peer(2, 200, PeerState::Alive, 1)]), 0);
    let out = a.tick(0);
    let ping = out
        .into_iter()
        .find(|m| matches!(m.kind, MsgKind::Ping))
        .expect("tick should ping the only member");
    assert_eq!(ping.recipient, 2);
    let seq = ping.seq_no;
    assert!(a.has_pending_ping(2));

    b.process(ping, 0);
    let bout = b.take_outbox();
    let ack = bout
        .into_iter()
        .find(|m| matches!(m.kind, MsgKind::Ack(_, _)))
        .expect("B should ack the ping");
    assert_eq!(ack.recipient, 1);
    assert_eq!(ack.seq_no, seq, "the ack answers the ping's sequence number");
    match ack.kind {
        MsgKind::Ack(pid, inc) => {
            assert_eq!(pid, 2);
            assert!(inc >= 1);
        },
        _ => unreachable!(),
    }

    a.process(ack, 1);
    assert!(!a.has_pending_ping(2));
}

#[test]
fn indirect_ping_after_ping_interval() {
    let mut a = node(1, 100);
    a.process(
        push_from(
            2,
            200,
            1,
            vec![peer(2, 200, PeerState::Alive, 1), peer(3, 300, PeerState::Alive, 1)],
        ),
        0,
    );
    let out = a.tick(0);
    let ping = out.into_iter().find(|m| matches!(m.kind, MsgKind::Ping)).unwrap();
    let target = ping.recipient;
    let seq = ping.seq_no;
    let other = if target == 2 { 3 } else { 2 };

    // no ack arrives; ping_interval (10) elapses
    let out2 = a.tick(15);
    let reqs: Vec<&Message> = out2
        .iter()
        .filter(|m| matches!(m.kind, MsgKind::PingReq { .. }))
        .collect();
    // min(k, |members| - 1) = 1 distinct recipient, excluding the target
    assert_eq!(reqs.len(), 1);
    assert_eq!(reqs[0].recipient, other);
    assert_eq!(reqs[0].seq_no, seq, "the ping-req carries the original sequence number");
    match reqs[0].kind {
        MsgKind::PingReq { target_id, target: taddr } => {
            assert_eq!(target_id, target);
            assert_eq!(taddr, if target == 2 { 200 } else { 300 });
        },
        _ => unreachable!(),
    }
    assert!(a
        .pings
        .iter()
        .any(|p| p.target == target && p.state == PingState::Forwarded));
}

#[test]
fn suspect_rumor_after_protocol_period() {
    let mut a = node(1, 100);
    a.process(
        push_from(
            2,
            200,
            1,
            vec![peer(2, 200, PeerState::Alive, 1), peer(3, 300, PeerState::Alive, 1)],
        ),
        0,
    );
    let out = a.tick(0);
    let target = out
        .into_iter()
        .find(|m| matches!(m.kind, MsgKind::Ping))
        .unwrap()
        .recipient;
    a.tick(15); // promotes the pending ping to Forwarded
    // protocol_period (30) elapses without an ack
    let out3 = a.tick(40);
    let suspected = out3.iter().any(|m| {
        m.gossip
            .iter()
            .any(|r| r.peer_id == target && matches!(r.kind, RumorKind::Suspect))
    });
    assert!(suspected, "a Suspect rumor about the target should be gossiped");
    // the peer itself is still listed (only the rumor is spread)
    assert!(a.current_membership().iter().any(|p| p.id == target));
}

#[test]
fn failed_after_suspicion_period_and_rejoin() {
    let mut a = node(1, 100);
    a.process(
        push_from(
            2,
            200,
            1,
            vec![peer(2, 200, PeerState::Alive, 1), peer(3, 300, PeerState::Alive, 1)],
        ),
        0,
    );
    let out = a.tick(0);
    let target = out
        .into_iter()
        .find(|m| matches!(m.kind, MsgKind::Ping))
        .unwrap()
        .recipient;
    let target_addr = if target == 2 { 200 } else { 300 };
    let other = if target == 2 { 3 } else { 2 };
    a.tick(15); // Forwarded
    // suspicion_period = protocol_period * max_sends = 30 * 2 = 60 elapses
    let out4 = a.tick(70);
    assert!(a.current_membership().iter().all(|p| p.id != target));
    assert_eq!(a.memberlist.len(), a.current_membership().len() - 1);
    let failed = out4.iter().any(|m| {
        m.gossip
            .iter()
            .any(|r| r.peer_id == target && matches!(r.kind, RumorKind::Failed))
    });
    assert!(failed, "a Failed rumor about the target should be gossiped");

    // a later Alive rumor at a strictly higher incarnation readmits the peer
    a.process(
        ping_with_gossip(
            other,
            if other == 2 { 200 } else { 300 },
            1,
            9,
            vec![Rumor { peer_id: target, incarnation: 100, kind: RumorKind::Alive(target_addr) }],
        ),
        80,
    );
    assert!(a
        .current_membership()
        .iter()
        .any(|p| p.id == target && p.state == PeerState::Alive && p.incarnation == 100));
}

#[test]
fn refutation_bumps_incarnation() {
    let mut b = node(2, 200);
    let suspected_at = b.incarnation;
    b.process(
        ping_with_gossip(
            1,
            100,
            2,
            7,
            vec![Rumor { peer_id: 2, incarnation: suspected_at, kind: RumorKind::Suspect }],
        ),
        0,
    );
    let _ = b.take_outbox();
    // the refutation rides the next outgoing message
    b.process(ping_with_gossip(1, 100, 2, 8, Vec::new()), 1);
    let out = b.take_outbox();
    let ack = out
        .into_iter()
        .find(|m| matches!(m.kind, MsgKind::Ack(_, _)))
        .unwrap();
    let refutation = ack
        .gossip
        .iter()
        .find(|r| r.peer_id == 2 && matches!(r.kind, RumorKind::Alive(_)))
        .expect("a self-Alive rumor should be gossiped");
    assert!(refutation.incarnation > suspected_at);
}

#[test]
fn same_rumor_twice_is_noop() {
    let mut a = node(1, 100);
    let rumor = Rumor { peer_id: 3, incarnation: 5, kind: RumorKind::Alive(300) };
    a.process(ping_with_gossip(9, 900, 1, 0, vec![rumor]), 0);
    let snap1 = others(&a);
    a.process(ping_with_gossip(9, 900, 1, 1, vec![rumor]), 0);
    let snap2 = others(&a);
    assert_eq!(snap1, snap2);
    assert!(snap1
        .iter()
        .any(|p| p.id == 3 && p.incarnation == 5 && p.state == PeerState::Alive));
}

#[test]
fn pull_then_push_matches_push_then_pull() {
    let x = vec![peer(3, 300, PeerState::Alive, 5)];
    let y = vec![peer(3, 300, PeerState::Suspect, 6), peer(4, 400, PeerState::Alive, 2)];

    let mut one = node(1, 100);
    one.process(
        Message {
            recipient: 1,
            sender_id: 9,
            sender: 900,
            seq_no: 0,
            kind: MsgKind::Pull(x.clone()),
            gossip: Vec::new(),
        },
        0,
    );
    one.process(push_from(9, 900, 1, y.clone()), 0);

    let mut two = node(1, 100);
    two.process(push_from(9, 900, 1, y), 0);
    two.process(
        Message {
            recipient: 1,
            sender_id: 9,
            sender: 900,
            seq_no: 0,
            kind: MsgKind::Pull(x),
            gossip: Vec::new(),
        },
        0,
    );

    assert_eq!(others(&one), others(&two));
    assert!(others(&one)
        .iter()
        .any(|p| p.id == 3 && p.state == PeerState::Suspect && p.incarnation == 6));
}

#[test]
fn incarnation_never_decreases() {
    let mut a = node(1, 100);
    a.process(
        ping_with_gossip(
            9,
            900,
            1,
            0,
            vec![Rumor { peer_id: 3, incarnation: 5, kind: RumorKind::Alive(300) }],
        ),
        0,
    );
    // a stale Suspect at a lower incarnation changes nothing
    a.process(
        ping_with_gossip(
            9,
            900,
            1,
            1,
            vec![Rumor { peer_id: 3, incarnation: 4, kind: RumorKind::Suspect }],
        ),
        0,
    );
    assert!(others(&a)
        .iter()
        .any(|p| p.id == 3 && p.state == PeerState::Alive && p.incarnation == 5));
    // a fresher Suspect wins
    a.process(
        ping_with_gossip(
            9,
            900,
            1,
            2,
            vec![Rumor { peer_id: 3, incarnation: 6, kind: RumorKind::Suspect }],
        ),
        0,
    );
    assert!(others(&a)
        .iter()
        .any(|p| p.id == 3 && p.state == PeerState::Suspect && p.incarnation == 6));
}

#[test]
fn stale_ack_is_dropped_with_its_gossip() {
    let mut a = node(1, 100);
    a.process(push_from(2, 200, 1, vec![peer(2, 200, PeerState::Alive, 1)]), 0);
    let out = a.tick(0);
    let seq = out
        .into_iter()
        .find(|m| matches!(m.kind, MsgKind::Ping))
        .unwrap()
        .seq_no;
    a.process(
        Message {
            recipient: 1,
            sender_id: 2,
            sender: 200,
            seq_no: seq + 100,
            kind: MsgKind::Ack(2, 50),
            gossip: vec![Rumor { peer_id: 7, incarnation: 1, kind: RumorKind::Alive(700) }],
        },
        1,
    );
    // the pending ping is cleared, but nothing else is believed
    assert!(!a.has_pending_ping(2));
    assert!(others(&a).iter().any(|p| p.id == 2 && p.incarnation < 50));
    assert!(others(&a).iter().all(|p| p.id != 7));
}

#[test]
fn unexpected_ack_is_dropped_with_its_gossip() {
    let mut a = node(1, 100);
    a.process(
        Message {
            recipient: 1,
            sender_id: 2,
            sender: 200,
            seq_no: 3,
            kind: MsgKind::Ack(5, 4),
            gossip: vec![Rumor { peer_id: 7, incarnation: 1, kind: RumorKind::Alive(700) }],
        },
        0,
    );
    // the sender is still remembered, the rest is dropped
    let rest = others(&a);
    assert_eq!(rest.len(), 1);
    assert_eq!(rest[0].id, 2);
}

#[test]
fn outgoing_messages_carry_at_most_ten_rumors() {
    let mut a = node(1, 100);
    a.process(push_from(2, 200, 1, vec![peer(2, 200, PeerState::Alive, 1)]), 0);
    for i in 0..15u64 {
        a.broadcasts.push(Rumor { peer_id: 100 + i, incarnation: 1, kind: RumorKind::Suspect });
    }
    let out = a.tick(0);
    assert!(!out.is_empty());
    for m in &out {
        assert!(m.gossip.len() <= 10);
    }
    let ping = out.iter().find(|m| matches!(m.kind, MsgKind::Ping)).unwrap();
    assert_eq!(ping.gossip.len(), 10);
}

#[test]
fn rumor_send_budget_caps_dissemination() {
    let mut a = node(1, 100);
    a.process(push_from(2, 200, 1, vec![peer(2, 200, PeerState::Alive, 1)]), 0);
    a.broadcasts.push(Rumor { peer_id: 50, incarnation: 1, kind: RumorKind::Suspect });
    let mut carried = 0;
    for t in 0..4u64 {
        let out = a.tick(t);
        for m in &out {
            carried += m.gossip.iter().filter(|r| r.peer_id == 50).count();
        }
    }
    // max_sends = ceil(3 * log10(1 + 2)) = 2 at one member
    assert_eq!(carried, 2);
}

#[test]
fn memberlist_mirrors_membership() {
    let mut a = node(1, 100);
    a.process(
        push_from(
            2,
            200,
            1,
            vec![
                peer(2, 200, PeerState::Alive, 1),
                peer(3, 300, PeerState::Alive, 1),
                peer(4, 400, PeerState::Suspect, 2),
            ],
        ),
        0,
    );
    assert_eq!(a.memberlist.len(), 3);
    assert_eq!(a.memberlist.len(), a.current_membership().len() - 1);
    a.process(
        ping_with_gossip(
            2,
            200,
            1,
            1,
            vec![Rumor { peer_id: 3, incarnation: 1, kind: RumorKind::Failed }],
        ),
        1,
    );
    assert_eq!(a.memberlist.len(), 2);
    assert_eq!(a.memberlist.len(), a.current_membership().len() - 1);
    a.process(
        ping_with_gossip(
            2,
            200,
            1,
            2,
            vec![Rumor { peer_id: 6, incarnation: 1, kind: RumorKind::Alive(600) }],
        ),
        2,
    );
    assert_eq!(a.memberlist.len(), 3);
    assert_eq!(a.memberlist.len(), a.current_membership().len() - 1);
}

#[test]
fn self_targeted_ping_req_is_acked_defensively() {
    let mut b = node(2, 200);
    b.process(
        Message {
            recipient: 2,
            sender_id: 1,
            sender: 100,
            seq_no: 5,
            kind: MsgKind::PingReq { target_id: 2, target: 200 },
            gossip: Vec::new(),
        },
        0,
    );
    let out = b.take_outbox();
    assert_eq!(out.len(), 1);
    assert_eq!(out[0].recipient, 1);
    assert_eq!(out[0].seq_no, 5);
    assert!(matches!(out[0].kind, MsgKind::Ack(2, _)));
    assert!(!b.has_pending_ping(2));
}

#[test]
fn expired_ping_for_someone_else_is_dropped_silently() {
    let mut c = node(3, 300);
    c.process(
        Message {
            recipient: 3,
            sender_id: 1,
            sender: 100,
            seq_no: 4,
            kind: MsgKind::PingReq { target_id: 5, target: 500 },
            gossip: Vec::new(),
        },
        0,
    );
    let _ = c.take_outbox();
    assert!(c.has_pending_ping(5));
    // ping_interval (10) passes with no ack; node 5 is nobody we may
    // indirect-ping for, and nobody we may suspect
    let out = c.tick(15);
    assert!(!c.has_pending_ping(5));
    for m in &out {
        assert!(!matches!(m.kind, MsgKind::PingReq { .. }));
        assert!(m.gossip.iter().all(|r| r.peer_id != 5));
    }
}

#[test]
fn lone_member_is_suspected_without_indirect_pings() {
    let mut a = node(1, 100);
    a.process(push_from(2, 200, 1, vec![peer(2, 200, PeerState::Alive, 1)]), 0);
    a.tick(0); // pings 2, the only member
    let out = a.tick(15); // past ping_interval, nobody to forward through
    assert!(out.iter().all(|m| !matches!(m.kind, MsgKind::PingReq { .. })));
    let suspected = out.iter().any(|m| {
        m.gossip
            .iter()
            .any(|r| r.peer_id == 2 && matches!(r.kind, RumorKind::Suspect))
    });
    assert!(suspected);
    // the old pending entry was dropped; the round-robin ping registered a
    // fresh one
    assert_eq!(a.pings.len(), 1);
    assert_eq!(a.pings[0].target, 2);
    assert_eq!(a.pings[0].sent_at, 15);
    assert_eq!(a.pings[0].state, PingState::Normal);
}

#[test]
fn seq_no_advances_per_ping() {
    let mut a = node(1, 100);
    assert_eq!(a.seq_no, 1);
    a.process(push_from(2, 200, 1, vec![peer(2, 200, PeerState::Alive, 1)]), 0);
    let out1 = a.tick(0);
    assert_eq!(out1.iter().filter(|m| matches!(m.kind, MsgKind::Ping)).count(), 1);
    assert_eq!(a.seq_no, 2);
    let out2 = a.tick(1);
    let p1 = out1.iter().find(|m| matches!(m.kind, MsgKind::Ping)).unwrap();
    let p2 = out2.iter().find(|m| matches!(m.kind, MsgKind::Ping)).unwrap();
    assert_eq!(p1.seq_no, 1);
    assert_eq!(p2.seq_no, 2);
    assert_eq!(a.seq_no, 3);
}

#[test]
fn membership_snapshot_lists_self_first() {
    let mut a = node(1, 100);
    a.process(push_from(2, 200, 1, vec![peer(2, 200, PeerState::Alive, 1)]), 0);
    let members = a.current_membership();
    assert_eq!(members[0].id, 1);
    assert_eq!(members[0].addr, 100);
    assert_eq!(members[0].state, PeerState::Alive);
    assert_eq!(members.len(), 2);
}
