use gossip_core::record::{
    DigestEntry, GossipItem, GossipKey, ItemKind, MergeOutcome, Payload, RejectReason,
    SocketAddress,
};
use gossip_core::table::{offered_exec, GossipTable};

const TAG: u16 = 27799;

fn addr(port: u16) -> SocketAddress {
    SocketAddress { ip: 0x7f00_0001, port }
}

fn contact(origin: u64, wallclock: u64, version: u64) -> GossipItem {
    GossipItem {
        origin,
        shred_version: TAG,
        wallclock,
        version,
        payload: Payload::Contact {
            gossip: addr(8001),
            tvu: addr(8002),
            tpu: addr(8003),
            rpc: addr(8899),
        },
    }
}

fn heartbeat(origin: u64, wallclock: u64, version: u64) -> GossipItem {
    GossipItem { origin, shred_version: TAG, wallclock, version, payload: Payload::Heartbeat { token: 7 } }
}

fn key(origin: u64, kind: ItemKind) -> GossipKey {
    GossipKey { origin, kind }
}

#[test]
fn repeated_record_is_unchanged_then_newer_is_accepted() {
    let mut b = GossipTable::new(2, TAG, 16);
    let a1 = contact(1, 100, 1);
    assert_eq!(b.upsert(a1), MergeOutcome::Accepted);
    assert_eq!(b.upsert(a1), MergeOutcome::Unchanged);
    assert_eq!(b.get(key(1, ItemKind::Contact)), Some(a1));
    let a2 = contact(1, 150, 2);
    assert_eq!(b.upsert(a2), MergeOutcome::Accepted);
    assert_eq!(b.get(key(1, ItemKind::Contact)), Some(a2));
    assert_eq!(b.len(), 1);
}

#[test]
fn applying_same_record_many_times_keeps_state() {
    let mut t = GossipTable::new(9, TAG, 8);
    let item = heartbeat(3, 10, 4);
    assert_eq!(t.upsert(item), MergeOutcome::Accepted);
    for _ in 0..5 {
        assert_eq!(t.upsert(item), MergeOutcome::Unchanged);
        assert_eq!(t.len(), 1);
        assert_eq!(t.get(item.key()), Some(item));
    }
}

#[test]
fn older_record_is_rejected_and_does_not_mutate() {
    let mut t = GossipTable::new(9, TAG, 8);
    let fresh = contact(5, 200, 3);
    assert_eq!(t.upsert(fresh), MergeOutcome::Accepted);
    assert_eq!(t.upsert(contact(5, 150, 9)), MergeOutcome::Rejected(RejectReason::Stale));
    assert_eq!(t.upsert(contact(5, 200, 2)), MergeOutcome::Rejected(RejectReason::Stale));
    assert_eq!(t.get(key(5, ItemKind::Contact)), Some(fresh));
    assert_eq!(t.len(), 1);
}

#[test]
fn same_wallclock_higher_version_wins() {
    let mut t = GossipTable::new(9, TAG, 8);
    assert_eq!(t.upsert(contact(5, 200, 3)), MergeOutcome::Accepted);
    assert_eq!(t.upsert(contact(5, 200, 4)), MergeOutcome::Accepted);
    assert_eq!(t.get(key(5, ItemKind::Contact)), Some(contact(5, 200, 4)));
}

#[test]
fn tie_keeps_local_payload() {
    let mut t = GossipTable::new(9, TAG, 8);
    let local = heartbeat(5, 50, 1);
    let mut other = local;
    other.payload = Payload::Heartbeat { token: 99 };
    assert_eq!(t.upsert(local), MergeOutcome::Accepted);
    assert_eq!(t.upsert(other), MergeOutcome::Unchanged);
    assert_eq!(t.get(local.key()), Some(local));
}

#[test]
fn kinds_are_keyed_separately() {
    let mut t = GossipTable::new(9, TAG, 8);
    assert_eq!(t.upsert(contact(5, 10, 1)), MergeOutcome::Accepted);
    assert_eq!(t.upsert(heartbeat(5, 1, 1)), MergeOutcome::Accepted);
    assert_eq!(t.len(), 2);
    assert!(t.get(key(5, ItemKind::Vote)).is_none());
}

#[test]
fn other_partition_is_never_stored() {
    let mut t = GossipTable::new(9, TAG, 8);
    let mut item = contact(5, 10, 1);
    item.shred_version = TAG + 1;
    assert_eq!(t.upsert(item), MergeOutcome::Rejected(RejectReason::Incompatible));
    assert_eq!(t.len(), 0);
    assert!(t.get(key(5, ItemKind::Contact)).is_none());
}

#[test]
fn size_stays_within_capacity_and_self_survives() {
    let me = 100;
    let mut t = GossipTable::new(me, TAG, 4);
    assert_eq!(t.upsert(contact(me, 1, 1)), MergeOutcome::Accepted);
    assert_eq!(t.upsert(heartbeat(me, 1, 1)), MergeOutcome::Accepted);
    for origin in 0..50u64 {
        assert_eq!(t.upsert(contact(origin, 10 + origin, 1)), MergeOutcome::Accepted);
        assert!(t.len() <= t.capacity());
        assert!(t.get(key(me, ItemKind::Contact)).is_some());
        assert!(t.get(key(me, ItemKind::Heartbeat)).is_some());
    }
    assert_eq!(t.len(), 4);
}

#[test]
fn full_table_evicts_least_recently_updated_peer() {
    let me = 100;
    let mut t = GossipTable::new(me, TAG, 4);
    t.upsert(contact(me, 1, 1));
    t.upsert(contact(1, 1, 1));
    t.upsert(contact(2, 1, 1));
    t.upsert(contact(3, 1, 1));
    // refresh peer 1, so peer 2 is now the least recently updated
    assert_eq!(t.upsert(contact(1, 2, 1)), MergeOutcome::Accepted);
    assert_eq!(t.upsert(contact(4, 1, 1)), MergeOutcome::Accepted);
    assert!(t.get(key(2, ItemKind::Contact)).is_none());
    assert!(t.get(key(1, ItemKind::Contact)).is_some());
    assert!(t.get(key(3, ItemKind::Contact)).is_some());
    assert!(t.get(key(4, ItemKind::Contact)).is_some());
    assert!(t.get(key(me, ItemKind::Contact)).is_some());
}

#[test]
fn digest_lists_every_entry() {
    let mut t = GossipTable::new(9, TAG, 8);
    t.upsert(contact(1, 10, 2));
    t.upsert(heartbeat(2, 20, 3));
    let d = t.digest();
    assert_eq!(d.len(), 2);
    assert!(d.contains(&DigestEntry { key: key(1, ItemKind::Contact), wallclock: 10, version: 2 }));
    assert!(d.contains(&DigestEntry { key: key(2, ItemKind::Heartbeat), wallclock: 20, version: 3 }));
}

#[test]
fn diff_against_wants_newer_and_offers_newer() {
    let mut t = GossipTable::new(9, TAG, 8);
    t.upsert(contact(1, 10, 1));
    t.upsert(contact(2, 50, 1));
    t.upsert(contact(3, 30, 1));
    let remote = vec![
        DigestEntry { key: key(1, ItemKind::Contact), wallclock: 20, version: 1 },
        DigestEntry { key: key(2, ItemKind::Contact), wallclock: 40, version: 1 },
        DigestEntry { key: key(4, ItemKind::Vote), wallclock: 5, version: 1 },
        DigestEntry { key: key(3, ItemKind::Contact), wallclock: 30, version: 1 },
    ];
    let (wanted, offer) = t.diff_against(&remote);
    assert_eq!(wanted, vec![key(1, ItemKind::Contact), key(4, ItemKind::Vote)]);
    assert_eq!(offer, vec![contact(2, 50, 1)]);
}

#[test]
fn offered_requires_strictly_newer_than_every_claim() {
    let item = contact(1, 10, 2);
    let k = key(1, ItemKind::Contact);
    assert!(offered_exec(&vec![], &item));
    assert!(offered_exec(&vec![DigestEntry { key: k, wallclock: 10, version: 1 }], &item));
    assert!(!offered_exec(&vec![DigestEntry { key: k, wallclock: 10, version: 2 }], &item));
    assert!(!offered_exec(
        &vec![
            DigestEntry { key: k, wallclock: 1, version: 1 },
            DigestEntry { key: k, wallclock: 11, version: 0 },
        ],
        &item
    ));
}

#[test]
fn pull_response_returns_held_items_in_request_order() {
    let mut t = GossipTable::new(9, TAG, 8);
    t.upsert(contact(1, 10, 1));
    t.upsert(heartbeat(2, 10, 1));
    let got = t.respond_to_pull(&vec![
        key(2, ItemKind::Heartbeat),
        key(7, ItemKind::Contact),
        key(1, ItemKind::Contact),
    ]);
    assert_eq!(got, vec![heartbeat(2, 10, 1), contact(1, 10, 1)]);
}

#[test]
fn merge_all_counts_accepted_items() {
    let mut t = GossipTable::new(9, TAG, 8);
    t.upsert(contact(1, 10, 1));
    let n = t.merge_all(&vec![contact(1, 5, 1), contact(1, 10, 1), contact(2, 1, 1), contact(1, 11, 1)]);
    assert_eq!(n, 2);
    assert_eq!(t.get(key(1, ItemKind::Contact)), Some(contact(1, 11, 1)));
    assert_eq!(t.len(), 2);
}
