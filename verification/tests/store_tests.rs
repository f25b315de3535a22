use tracker_server::store::{now_ts, timestamp_from_secs, BtPeer, PeerStore};

const IH: &str = "0102030405060708090a0b0c0d0e0f1011121314";
const OTHER: &str = "ffffffffffffffffffffffffffffffffffffffff";

fn addrs(peers: &[BtPeer]) -> Vec<(String, u16)> {
    peers.iter().map(|p| (p.ip.clone(), p.port)).collect()
}

#[test]
fn new_store_is_empty() {
    let s = PeerStore::new();
    s.init();
    assert!(s.list_peers(IH, 10).is_empty());
    assert!(s.list_all_infohashes(10).is_empty());
    assert_eq!(s.peer_stats(IH), (0, 0));
}

#[test]
fn upsert_then_list_returns_peer() {
    let mut s = PeerStore::new();
    s.upsert_peer_at(IH, "1.2.3.4", 6881, Some(100), 1000);
    let peers = s.list_peers(IH, 10);
    assert_eq!(peers.len(), 1);
    assert_eq!(peers[0].info_hash, IH);
    assert_eq!(peers[0].ip, "1.2.3.4");
    assert_eq!(peers[0].port, 6881);
    assert_eq!(peers[0].left, Some(100));
    assert_eq!(peers[0].last_seen, 1000);
}

#[test]
fn upsert_same_peer_twice_keeps_one_entry() {
    let mut s = PeerStore::new();
    s.upsert_peer_at(IH, "1.2.3.4", 6881, Some(100), 1000);
    s.upsert_peer_at(IH, "1.2.3.4", 6881, Some(100), 1000);
    assert_eq!(s.list_peers(IH, 10).len(), 1);
}

#[test]
fn reannounce_refreshes_time_and_keeps_left_when_absent() {
    let mut s = PeerStore::new();
    s.upsert_peer_at(IH, "1.2.3.4", 6881, Some(100), 1000);
    s.upsert_peer_at(IH, "1.2.3.4", 6881, None, 2000);
    let peers = s.list_peers(IH, 10);
    assert_eq!(peers.len(), 1);
    assert_eq!(peers[0].left, Some(100));
    assert_eq!(peers[0].last_seen, 2000);
    s.upsert_peer_at(IH, "1.2.3.4", 6881, Some(0), 3000);
    assert_eq!(s.list_peers(IH, 10)[0].left, Some(0));
}

#[test]
fn peers_keep_announce_order_and_limit() {
    let mut s = PeerStore::new();
    s.upsert_peer_at(IH, "1.1.1.1", 1, None, 10);
    s.upsert_peer_at(IH, "2.2.2.2", 2, None, 10);
    s.upsert_peer_at(IH, "3.3.3.3", 3, None, 10);
    s.upsert_peer_at(IH, "1.1.1.1", 1, None, 20);
    assert_eq!(
        addrs(&s.list_peers(IH, 10)),
        vec![("1.1.1.1".to_string(), 1), ("2.2.2.2".to_string(), 2), ("3.3.3.3".to_string(), 3)]
    );
    assert_eq!(addrs(&s.list_peers(IH, 2)), vec![("1.1.1.1".to_string(), 1), ("2.2.2.2".to_string(), 2)]);
    assert!(s.list_peers(IH, 0).is_empty());
}

#[test]
fn same_ip_other_port_is_another_peer() {
    let mut s = PeerStore::new();
    s.upsert_peer_at(IH, "1.1.1.1", 1, None, 10);
    s.upsert_peer_at(IH, "1.1.1.1", 2, None, 10);
    assert_eq!(s.list_peers(IH, 10).len(), 2);
}

#[test]
fn torrents_are_kept_apart() {
    let mut s = PeerStore::new();
    s.upsert_peer_at(IH, "1.1.1.1", 1, None, 10);
    s.upsert_peer_at(OTHER, "2.2.2.2", 2, None, 10);
    assert_eq!(addrs(&s.list_peers(IH, 10)), vec![("1.1.1.1".to_string(), 1)]);
    assert_eq!(addrs(&s.list_peers(OTHER, 10)), vec![("2.2.2.2".to_string(), 2)]);
    assert_eq!(s.list_all_infohashes(10), vec![IH.to_string(), OTHER.to_string()]);
    assert_eq!(s.list_all_infohashes(1), vec![IH.to_string()]);
}

#[test]
fn remove_peer_forgets_it_and_empty_torrent() {
    let mut s = PeerStore::new();
    s.upsert_peer_at(IH, "1.1.1.1", 1, None, 10);
    s.upsert_peer_at(IH, "2.2.2.2", 2, None, 10);
    s.remove_peer(IH, "1.1.1.1", 1);
    assert_eq!(addrs(&s.list_peers(IH, 10)), vec![("2.2.2.2".to_string(), 2)]);
    s.remove_peer(IH, "2.2.2.2", 2);
    assert!(s.list_peers(IH, 10).is_empty());
    assert!(s.list_all_infohashes(10).is_empty());
}

#[test]
fn remove_unknown_peer_changes_nothing() {
    let mut s = PeerStore::new();
    s.upsert_peer_at(IH, "1.1.1.1", 1, None, 10);
    s.remove_peer(IH, "1.1.1.1", 2);
    s.remove_peer(OTHER, "1.1.1.1", 1);
    assert_eq!(s.list_peers(IH, 10).len(), 1);
}

#[test]
fn stats_count_seeders_and_leechers() {
    let mut s = PeerStore::new();
    s.upsert_peer_at(IH, "1.1.1.1", 1, Some(0), 10);
    s.upsert_peer_at(IH, "2.2.2.2", 2, Some(5), 10);
    s.upsert_peer_at(IH, "3.3.3.3", 3, None, 10);
    s.upsert_peer_at(IH, "4.4.4.4", 4, Some(0), 10);
    assert_eq!(s.peer_stats(IH), (2, 2));
    assert_eq!(s.peer_stats(OTHER), (0, 0));
}

#[test]
fn prune_removes_only_stale_peers() {
    let mut s = PeerStore::new();
    s.upsert_peer_at(IH, "1.1.1.1", 1, None, 100);
    s.upsert_peer_at(IH, "2.2.2.2", 2, None, 200);
    s.upsert_peer_at(OTHER, "3.3.3.3", 3, None, 50);
    let removed = s.prune_old_peers(150);
    assert_eq!(removed, 2);
    assert_eq!(addrs(&s.list_peers(IH, 10)), vec![("2.2.2.2".to_string(), 2)]);
    assert!(s.list_peers(OTHER, 10).is_empty());
    assert_eq!(s.list_all_infohashes(10), vec![IH.to_string()]);
}

#[test]
fn prune_keeps_peer_seen_at_cutoff() {
    let mut s = PeerStore::new();
    s.upsert_peer_at(IH, "1.1.1.1", 1, None, 150);
    assert_eq!(s.prune_old_peers(150), 0);
    assert_eq!(s.list_peers(IH, 10).len(), 1);
    assert_eq!(s.prune_old_peers(151), 1);
    assert!(s.list_peers(IH, 10).is_empty());
}

#[test]
fn upsert_with_clock_is_recent() {
    let before = now_ts();
    let mut s = PeerStore::new();
    s.upsert_peer(IH, "1.1.1.1", 1, None);
    let after = now_ts();
    let p = &s.list_peers(IH, 1)[0];
    assert!(before <= p.last_seen && p.last_seen <= after);
    assert!(before > 1_600_000_000);
}

#[test]
fn timestamp_from_clock_reading() {
    assert_eq!(timestamp_from_secs(Some(1234)), 1234);
    assert_eq!(timestamp_from_secs(None), 0);
    assert_eq!(timestamp_from_secs(Some(u64::MAX)), -1);
}

#[test]
fn duplicate_copies_every_field() {
    let p = BtPeer { info_hash: IH.to_string(), ip: "1.1.1.1".to_string(), port: 9, left: Some(3), last_seen: -4 };
    let q = p.duplicate();
    assert_eq!(q.info_hash, p.info_hash);
    assert_eq!(q.ip, p.ip);
    assert_eq!(q.port, p.port);
    assert_eq!(q.left, p.left);
    assert_eq!(q.last_seen, p.last_seen);
}
