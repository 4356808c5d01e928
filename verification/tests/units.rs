use swim::msg::Rumor;
use swim::msg::RumorKind;
use swim::store::max_sends;
use swim::store::BroadcastStore;

fn rumor(peer_id: u64, incarnation: u64) -> Rumor {
    Rumor { peer_id, kind: RumorKind::Suspect, incarnation }
}

#[test]
fn max_sends_formula_values() {
    // ceil(3 * log10(n + 2))
    assert_eq!(max_sends(0), 1); // 3*log10(2)  = 0.90
    assert_eq!(max_sends(1), 2); // 3*log10(3)  = 1.43
    assert_eq!(max_sends(8), 3); // 3*log10(10) = 3
    assert_eq!(max_sends(9), 4); // 3*log10(11) = 3.12
    assert_eq!(max_sends(98), 6); // 3*log10(100) = 6
    assert_eq!(max_sends(998), 9);
    assert_eq!(max_sends(1_000_000), 19); // 3*log10(1000002) ~ 18.0000026
}

#[test]
fn store_pops_least_disseminated_first() {
    let mut store = BroadcastStore::new();
    store.push(rumor(1, 1));
    store.push(rumor(2, 1));
    let first = store.pop().unwrap();
    assert_eq!(first.msg.peer_id, 1); // FIFO tiebreak at equal sends
    assert_eq!(first.sends, 0);
    store.replay_broadcast(first);
    let second = store.pop().unwrap();
    assert_eq!(second.msg.peer_id, 2); // fewer sends win over smaller id
    let third = store.pop().unwrap();
    assert_eq!(third.msg.peer_id, 1);
    assert_eq!(third.sends, 1);
    assert!(store.pop().is_none());
}

#[test]
fn store_orders_by_sends_before_id() {
    let mut store = BroadcastStore::new();
    store.push(rumor(1, 1)); // id 0
    let a = store.pop().unwrap();
    store.replay_broadcast(a); // back with sends = 1
    store.push(rumor(2, 1)); // id 1, sends = 0
    let next = store.pop().unwrap();
    assert_eq!(next.msg.peer_id, 2);
}
