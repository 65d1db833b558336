use gossip_core::peers::{pick_weighted, Admission, PeerSet};
use gossip_core::record::{GossipItem, GossipKey, ItemKind, Payload, SocketAddress};
use gossip_core::table::GossipTable;

const TAG: u16 = 11;

fn addr(port: u16) -> SocketAddress {
    SocketAddress { ip: 0x0a00_0001, port }
}

#[test]
fn other_partition_never_becomes_a_target() {
    let mut peers = PeerSet::new(1, TAG, 3);
    assert_eq!(peers.observe(2, addr(1), TAG + 1, 0), Admission::Incompatible);
    assert_eq!(peers.observe(3, addr(2), TAG, 0), Admission::Added);
    assert!(!peers.is_target(2));
    assert_eq!(peers.active_targets(), vec![3]);
    let picked = peers.select_targets(100, 8, &vec![0, 1, 2, 3, 4, 5]);
    assert_eq!(picked, vec![3]);
}

#[test]
fn self_is_never_admitted_or_selected() {
    let mut peers = PeerSet::new(1, TAG, 3);
    assert_eq!(peers.observe(1, addr(1), TAG, 0), Admission::IsSelf);
    assert_eq!(peers.observe(2, addr(2), TAG, 0), Admission::Added);
    assert_eq!(peers.observe(2, addr(2), TAG, 5), Admission::Known);
    assert_eq!(peers.len(), 1);
    assert!(!peers.select_targets(10, 4, &vec![9, 8, 7]).contains(&1));
}

#[test]
fn peer_failing_threshold_rounds_is_excluded_but_record_remains() {
    let threshold = 3;
    let mut peers = PeerSet::new(1, TAG, threshold);
    let mut table = GossipTable::new(1, TAG, 16);
    let x = GossipItem {
        origin: 7,
        shred_version: TAG,
        wallclock: 40,
        version: 1,
        payload: Payload::Contact { gossip: addr(8001), tvu: addr(8002), tpu: addr(8003), rpc: addr(8899) },
    };
    table.upsert(x);
    peers.observe(7, addr(8001), TAG, 40);
    peers.observe(8, addr(9001), TAG, 40);
    for round in 0..threshold {
        assert!(peers.is_target(7), "still a target before round {}", round);
        assert!(peers.record_failure(7));
    }
    assert!(!peers.is_target(7));
    assert_eq!(peers.active_targets(), vec![8]);
    for draw in 0..20u64 {
        assert!(!peers.select_targets(100, 2, &vec![draw, draw + 1]).contains(&7));
    }
    assert_eq!(table.get(GossipKey { origin: 7, kind: ItemKind::Contact }), Some(x));
    assert_eq!(peers.get(7).unwrap().failures, 3);
}

#[test]
fn success_resets_failures() {
    let mut peers = PeerSet::new(1, TAG, 2);
    peers.observe(7, addr(1), TAG, 0);
    peers.record_failure(7);
    peers.record_failure(7);
    assert!(!peers.is_target(7));
    assert!(peers.record_success(7, 50, 12));
    assert!(peers.is_target(7));
    let p = peers.get(7).unwrap();
    assert_eq!((p.failures, p.last_contact, p.rtt_ms), (0, 50, 12));
    assert!(!peers.record_success(99, 50, 12));
    assert!(!peers.record_failure(99));
}

#[test]
fn weighted_pick_follows_cumulative_weights() {
    let w = vec![1, 3, 6];
    assert_eq!(pick_weighted(&w, 0), 0);
    assert_eq!(pick_weighted(&w, 1), 1);
    assert_eq!(pick_weighted(&w, 3), 1);
    assert_eq!(pick_weighted(&w, 4), 2);
    assert_eq!(pick_weighted(&w, 9), 2);
    assert_eq!(pick_weighted(&w, 10), 0);
    assert_eq!(pick_weighted(&w, 14), 2);
}

#[test]
fn stale_peers_are_favoured() {
    let mut peers = PeerSet::new(1, TAG, 3);
    peers.observe(2, addr(1), TAG, 1000);
    peers.observe(3, addr(2), TAG, 0);
    // at time 1000, peer 2 weighs 1 and peer 3 weighs 1001
    assert_eq!(peers.select_targets(1000, 1, &vec![0]), vec![2]);
    assert_eq!(peers.select_targets(1000, 1, &vec![1]), vec![3]);
    assert_eq!(peers.select_targets(1000, 1, &vec![1001]), vec![3]);
    assert_eq!(peers.select_targets(1000, 2, &vec![5, 6, 0]), vec![3, 2]);
}

#[test]
fn selection_respects_fanout_and_distinctness() {
    let mut peers = PeerSet::new(1, TAG, 3);
    for id in 2..10u64 {
        peers.observe(id, addr(id as u16), TAG, 0);
    }
    let picked = peers.select_targets(10, 3, &vec![1, 1, 1, 25, 40, 77, 3]);
    assert!(picked.len() <= 3 && !picked.is_empty());
    for (i, a) in picked.iter().enumerate() {
        assert!(!picked[i + 1..].contains(a));
    }
    assert!(peers.select_targets(10, 0, &vec![1, 2]).is_empty());
    assert!(peers.select_targets(10, 3, &vec![]).is_empty());
}
