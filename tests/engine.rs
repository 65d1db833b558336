use gossip_core::engine::{handle_message, pull_request, push_message, Message};
use gossip_core::queue::SendQueue;
use gossip_core::record::{GossipItem, GossipKey, ItemKind, Payload};
use gossip_core::table::GossipTable;

const TAG: u16 = 5;

fn vote(origin: u64, wallclock: u64, slot: u64) -> GossipItem {
    GossipItem { origin, shred_version: TAG, wallclock, version: 1, payload: Payload::Vote { slot } }
}

/// One pull exchange from `a` to `b` and the follow-up, delivered without loss.
fn pull_round(a: &mut GossipTable, b: &mut GossipTable) {
    let req = pull_request(a);
    let resp = handle_message(b, &req).expect("a pull request is answered");
    if let Some(follow) = handle_message(a, &resp) {
        if let Some(push) = handle_message(b, &follow) {
            assert!(handle_message(a, &push).is_none());
        }
    }
}

#[test]
fn two_nodes_converge_after_exchanges() {
    let mut a = GossipTable::new(1, TAG, 16);
    let mut b = GossipTable::new(2, TAG, 16);
    a.upsert(vote(1, 10, 100));
    a.upsert(vote(3, 20, 7));
    b.upsert(vote(2, 10, 200));
    b.upsert(vote(3, 25, 8));
    pull_round(&mut a, &mut b);
    pull_round(&mut b, &mut a);
    for origin in 1..4u64 {
        let k = GossipKey { origin, kind: ItemKind::Vote };
        assert!(a.get(k).is_some());
        assert_eq!(a.get(k), b.get(k));
    }
    assert_eq!(a.get(GossipKey { origin: 3, kind: ItemKind::Vote }), Some(vote(3, 25, 8)));
}

#[test]
fn pull_response_asks_for_keys_still_missing() {
    let mut a = GossipTable::new(1, TAG, 16);
    let mut b = GossipTable::new(2, TAG, 16);
    b.upsert(vote(9, 10, 1));
    // b answers with its digest but, as if the items were lost, none of them
    let resp = Message::PullResponse { sender: 2, shred_version: TAG, digest: b.digest(), items: vec![] };
    match handle_message(&mut a, &resp) {
        Some(Message::KeyRequest { sender, keys, .. }) => {
            assert_eq!(sender, 1);
            assert_eq!(keys, vec![GossipKey { origin: 9, kind: ItemKind::Vote }]);
        },
        other => panic!("expected a key request, got {:?}", other),
    }
}

#[test]
fn push_from_other_partition_is_dropped() {
    let mut a = GossipTable::new(1, TAG, 16);
    let mut item = vote(4, 1, 1);
    item.shred_version = TAG + 1;
    let msg = Message::Push { sender: 4, shred_version: TAG + 1, items: vec![item] };
    assert!(handle_message(&mut a, &msg).is_none());
    assert_eq!(a.len(), 0);
    let req = Message::PullRequest { sender: 4, shred_version: TAG + 1, digest: vec![] };
    assert!(handle_message(&mut a, &req).is_none());
}

#[test]
fn push_merges_items() {
    let mut a = GossipTable::new(1, TAG, 16);
    let msg = Message::Push { sender: 4, shred_version: TAG, items: vec![vote(4, 1, 1), vote(5, 1, 2)] };
    assert!(handle_message(&mut a, &msg).is_none());
    assert_eq!(a.len(), 2);
}

#[test]
fn full_send_queue_drops_oldest_first() {
    let mut q: SendQueue<u32> = SendQueue::new(2);
    q.push(1);
    q.push(2);
    assert_eq!(q.dropped(), 0);
    q.push(3);
    assert_eq!(q.dropped(), 1);
    assert_eq!(q.len(), 2);
    assert_eq!(q.pop(), Some(2));
    assert_eq!(q.pop(), Some(3));
    assert_eq!(q.pop(), None);
}

#[test]
fn push_carries_items_written_since_a_tick() {
    let mut a = GossipTable::new(1, TAG, 16);
    a.upsert(vote(1, 10, 100));
    let mark = a.clock();
    a.upsert(vote(2, 10, 200));
    a.upsert(vote(1, 11, 101));
    match push_message(&a, mark) {
        Message::Push { sender, shred_version, items } => {
            assert_eq!((sender, shred_version), (1, TAG));
            assert_eq!(items.len(), 2);
            assert!(items.contains(&vote(2, 10, 200)));
            assert!(items.contains(&vote(1, 11, 101)));
        },
        other => panic!("expected a push, got {:?}", other),
    }
    match push_message(&a, 0) {
        Message::Push { items, .. } => assert_eq!(items.len(), 2),
        other => panic!("expected a push, got {:?}", other),
    }
}
