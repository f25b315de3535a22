use tracker_server::announce::{
    clamp_numwant, client_ip, compact_wanted, effective_fast_mode, effective_left, fast_params,
    is_stopped, needs_on_demand, on_demand_params, poll_params, poll_targets, record_announce,
    record_announce_at, validate_announce, AnnounceError,
};
use tracker_server::inflight::InflightTable;
use tracker_server::query::InfoHashError;
use tracker_server::response::failure_body;
use tracker_server::store::PeerStore;
use tracker_server::upstream::FastMode;

const HEX: &str = "0102030405060708090a0b0c0d0e0f1011121314";

fn some(s: &str) -> Option<String> {
    Some(s.to_string())
}

fn refusal(
    query: Option<String>,
    info_hash: Option<String>,
    peer_id: Option<String>,
    port: Option<u16>,
) -> AnnounceError {
    match validate_announce(&query, &info_hash, &None, &peer_id, port) {
        Ok(_) => panic!("announce accepted"),
        Err(e) => e,
    }
}

#[test]
fn valid_announce_from_hex() {
    let v = match validate_announce(&None, &some(HEX), &None, &some("-UT3450-ABCDEFGHIJKL"), Some(6881)) {
        Ok(v) => v,
        Err(e) => panic!("refused: {:?}", e),
    };
    assert_eq!(v.info_hash_raw, (1u8..=20).collect::<Vec<u8>>());
    assert_eq!(v.info_hash_hex, HEX);
    assert_eq!(v.peer_id_raw, b"-UT3450-ABCDEFGHIJKL".to_vec());
    assert_eq!(v.port, 6881);
}

#[test]
fn raw_query_value_preferred_over_decoded() {
    let query = some("info_hash=%01%02%03%04%05%06%07%08%09%0a%0b%0c%0d%0e%0f%10%11%12%13%14&peer_id=x&port=1");
    let v = match validate_announce(&query, &some("garbage"), &None, &some("%41"), Some(1)) {
        Ok(v) => v,
        Err(e) => panic!("refused: {:?}", e),
    };
    assert_eq!(v.info_hash_hex, HEX);
    assert_eq!(v.peer_id_raw, b"A".to_vec());
}

#[test]
fn ih_alias_read_from_query() {
    let query = some("ih=urn:btih:AEBAGBAFAYDQQCIKBMGA2DQPCAIREEYU");
    let v = match validate_announce(&query, &None, &None, &some("p"), Some(2)) {
        Ok(v) => v,
        Err(e) => panic!("refused: {:?}", e),
    };
    assert_eq!(v.info_hash_hex, HEX);
}

#[test]
fn refused_announces_and_reasons() {
    let e = refusal(None, None, some("p"), Some(1));
    assert_eq!(e, AnnounceError::BadInfoHash(InfoHashError::Missing));
    assert_eq!(e.reason(), "bad info_hash format");
    let e = refusal(None, some("zz"), some("p"), Some(1));
    assert_eq!(e, AnnounceError::BadInfoHash(InfoHashError::Unrecognized { raw_len: 2, decoded_len: 2 }));
    let e = refusal(None, some(HEX), None, Some(1));
    assert_eq!(e, AnnounceError::MissingPeerId);
    assert_eq!(e.reason(), "missing peer_id");
    let e = refusal(None, some(HEX), some(""), Some(1));
    assert_eq!(e, AnnounceError::BadPeerIdLength);
    assert_eq!(e.reason(), "bad peer_id length");
    let e = refusal(None, some(HEX), some("p"), Some(0));
    assert_eq!(e, AnnounceError::InvalidPort);
    assert_eq!(e.reason(), "missing or invalid port");
    assert_eq!(refusal(None, some(HEX), some("p"), None), AnnounceError::InvalidPort);
    assert_eq!(AnnounceError::InfoHashLength.reason(), "info_hash must be 20 bytes");
}

#[test]
fn refusal_checks_in_order() {
    assert_eq!(refusal(None, some("zz"), None, None), AnnounceError::BadInfoHash(InfoHashError::Unrecognized {
        raw_len: 2,
        decoded_len: 2
    }));
    assert_eq!(refusal(None, some(HEX), None, None), AnnounceError::MissingPeerId);
    assert_eq!(refusal(None, some(HEX), some(""), None), AnnounceError::BadPeerIdLength);
}

#[test]
fn refusal_body() {
    assert_eq!(
        failure_body(&AnnounceError::MissingPeerId.reason()),
        b"d14:failure reason15:missing peer_ide".to_vec()
    );
}

#[test]
fn client_ip_priority() {
    let r = "9.9.9.9";
    assert_eq!(client_ip(&some("1.1.1.1"), &some("2.2.2.2"), &some("3.3.3.3"), &some("4.4.4.4"), r), "1.1.1.1");
    assert_eq!(client_ip(&None, &some("2.2.2.2"), &some("3.3.3.3"), &some("4.4.4.4"), r), "2.2.2.2");
    assert_eq!(client_ip(&None, &None, &some(" 3.3.3.3, 5.5.5.5"), &some("4.4.4.4"), r), "3.3.3.3");
    assert_eq!(client_ip(&None, &None, &None, &some("4.4.4.4"), r), "4.4.4.4");
    assert_eq!(client_ip(&None, &None, &None, &None, r), "9.9.9.9");
}

#[test]
fn left_after_events() {
    assert_eq!(effective_left(Some(5), &some("completed")), Some(0));
    assert_eq!(effective_left(None, &some("completed")), Some(0));
    assert_eq!(effective_left(Some(5), &some("started")), Some(5));
    assert_eq!(effective_left(None, &None), None);
    assert!(is_stopped(&some("stopped")));
    assert!(!is_stopped(&some("Stopped")));
    assert!(!is_stopped(&None));
}

#[test]
fn record_started_then_stopped() {
    let mut s = PeerStore::new();
    record_announce_at(&mut s, HEX, "1.2.3.4", 6881, Some(9), &some("started"), 100);
    let p = s.list_peers(HEX, 10);
    assert_eq!(p.len(), 1);
    assert_eq!((p[0].left, p[0].last_seen), (Some(9), 100));
    record_announce_at(&mut s, HEX, "1.2.3.4", 6881, Some(9), &some("stopped"), 200);
    assert!(s.list_peers(HEX, 10).is_empty());
}

#[test]
fn record_completed_makes_a_seeder() {
    let mut s = PeerStore::new();
    record_announce_at(&mut s, HEX, "1.2.3.4", 6881, Some(9), &some("completed"), 100);
    assert_eq!(s.peer_stats(HEX), (1, 0));
}

#[test]
fn record_ignores_localhost() {
    let mut s = PeerStore::new();
    record_announce_at(&mut s, HEX, "127.0.0.1", 6881, None, &None, 100);
    assert!(s.list_peers(HEX, 10).is_empty());
    record_announce(&mut s, HEX, "127.0.0.2", 6881, None, &None);
    assert_eq!(s.list_peers(HEX, 10).len(), 1);
}

#[test]
fn numwant_defaults_and_cap() {
    assert_eq!(clamp_numwant(None), 50);
    assert_eq!(clamp_numwant(Some(10)), 10);
    assert_eq!(clamp_numwant(Some(200)), 200);
    assert_eq!(clamp_numwant(Some(5000)), 200);
}

#[test]
fn fast_mode_of_unknown_torrent_waits() {
    assert_eq!(effective_fast_mode(0, FastMode::Timeout), FastMode::Wait);
    assert_eq!(effective_fast_mode(2, FastMode::Timeout), FastMode::Timeout);
    assert_eq!(effective_fast_mode(0, FastMode::Async), FastMode::Async);
    assert_eq!(effective_fast_mode(0, FastMode::Off), FastMode::Off);
}

#[test]
fn fast_fetch_parameters() {
    let pid: Vec<u8> = b"-UT3450-ABCDEFGHIJKL".to_vec();
    let p = fast_params(&pid, "OWN", 6881, None, &None, 16384, 200, 50);
    assert_eq!(p.peer_id_encoded, "%2d%55%54%33%34%35%30%2d%41%42%43%44%45%46%47%48%49%4a%4b%4c");
    assert_eq!((p.port, p.left, p.event.as_str(), p.numwant), (6881, 16384, "started", 50));
    let p = fast_params(b"short", "OWN", 1, Some(3), &some("completed"), 16384, 20, 50);
    assert_eq!(p.peer_id_encoded, "OWN");
    assert_eq!((p.left, p.event.as_str(), p.numwant), (3, "completed", 20));
}

#[test]
fn on_demand_fetch_parameters() {
    let p = on_demand_params(b"ab", 7, None, &None, 120);
    assert_eq!(p.peer_id_encoded, "%61%62");
    assert_eq!((p.port, p.left, p.event.as_str(), p.numwant), (7, 0, "started", 120));
    assert!(needs_on_demand(24, 50));
    assert!(!needs_on_demand(25, 50));
    assert!(!needs_on_demand(0, 1));
    let p = on_demand_params(b"ab", 7, Some(4), &some("stopped"), usize::MAX);
    assert_eq!((p.left, p.event.as_str(), p.numwant), (4, "stopped", u32::MAX));
}

#[test]
fn periodic_refresh_parameters() {
    let p = poll_params("OWN");
    assert_eq!(p.peer_id_encoded, "OWN");
    assert_eq!((p.port, p.left, p.event.as_str(), p.numwant), (6881, 16384, "started", 200));
}

#[test]
fn compact_unless_asked_otherwise() {
    assert!(compact_wanted(None));
    assert!(compact_wanted(Some(1)));
    assert!(!compact_wanted(Some(0)));
    assert!(!compact_wanted(Some(2)));
}

#[test]
fn refresh_targets_decode_hashes() {
    let mut s = PeerStore::new();
    s.upsert_peer_at(HEX, "1.1.1.1", 1, None, 1);
    s.upsert_peer_at("not-hex", "1.1.1.1", 1, None, 1);
    s.upsert_peer_at("abcd", "1.1.1.1", 1, None, 1);
    let t = poll_targets(&s);
    assert_eq!(t, vec![(HEX.to_string(), (1u8..=20).collect()), ("abcd".to_string(), vec![0xab, 0xcd])]);
}

#[test]
fn inflight_begin_join_finish() {
    let mut t: InflightTable<u32> = InflightTable::new();
    assert!(!t.contains(HEX));
    assert!(t.begin(HEX));
    assert!(!t.begin(HEX));
    assert!(t.contains(HEX));
    assert!(t.join(HEX, 1));
    assert!(t.join(HEX, 2));
    assert!(!t.join("other", 3));
    assert_eq!(t.finish(HEX), vec![1, 2]);
    assert!(!t.contains(HEX));
    assert!(t.finish(HEX).is_empty());
    assert!(t.begin(HEX));
}

#[test]
fn inflight_torrents_independent() {
    let mut t: InflightTable<&str> = InflightTable::new();
    assert!(t.begin("a"));
    assert!(t.begin("b"));
    assert!(t.join("b", "w"));
    assert!(t.finish("a").is_empty());
    assert!(t.contains("b"));
    assert_eq!(t.finish("b"), vec!["w"]);
}

#[test]
fn fast_fetch_asks_at_least_five_trackers() {
    assert_eq!(tracker_server::announce::fast_batch_size(0), 5);
    assert_eq!(tracker_server::announce::fast_batch_size(5), 5);
    assert_eq!(tracker_server::announce::fast_batch_size(12), 12);
}
