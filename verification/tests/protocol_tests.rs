use tracker_server::ipv4::{parse_ipv4, split_at_byte, write_ipv4};
use tracker_server::reply::{compact_peer_list, parse_and_upsert_at, reply_peer_list, upsert_peers_at, ws_peer_list};
use tracker_server::response::{announce_body, compact_peers, failure_body};
use tracker_server::store::{BtPeer, PeerStore};
use tracker_server::udp::{
    parse_port_text, udp_address, udp_announce_request, udp_announce_start, udp_connect_request,
    udp_connect_start, udp_connection_id, udp_reply_peers,
};

const IH: &str = "0102030405060708090a0b0c0d0e0f1011121314";

fn peer(ip: &str, port: u16) -> BtPeer {
    BtPeer { info_hash: IH.to_string(), ip: ip.to_string(), port, left: None, last_seen: 0 }
}

fn pair(ip: &str, port: u16) -> (String, u16) {
    (ip.to_string(), port)
}

#[test]
fn ipv4_parse_accepts_dotted_quads() {
    assert_eq!(parse_ipv4(b"1.2.3.4"), Some(vec![1, 2, 3, 4]));
    assert_eq!(parse_ipv4(b"255.255.255.255"), Some(vec![255, 255, 255, 255]));
    assert_eq!(parse_ipv4(b"0.0.0.0"), Some(vec![0, 0, 0, 0]));
}

#[test]
fn ipv4_parse_rejects_other_text() {
    assert_eq!(parse_ipv4(b"256.1.1.1"), None);
    assert_eq!(parse_ipv4(b"01.2.3.4"), None);
    assert_eq!(parse_ipv4(b"1.2.3"), None);
    assert_eq!(parse_ipv4(b"1.2.3.4.5"), None);
    assert_eq!(parse_ipv4(b"1.2..4"), None);
    assert_eq!(parse_ipv4(b"1.2.3.4 "), None);
    assert_eq!(parse_ipv4(b"::1"), None);
    assert_eq!(parse_ipv4(b"1000.2.3.4"), None);
    assert_eq!(parse_ipv4(b""), None);
}

#[test]
fn ipv4_written_back() {
    assert_eq!(write_ipv4(&[10, 0, 200, 7]), b"10.0.200.7".to_vec());
    assert_eq!(split_at_byte(b"a.b..c", b'.'), vec![b"a".to_vec(), b"b".to_vec(), vec![], b"c".to_vec()]);
}

#[test]
fn failure_body_is_bencoded() {
    assert_eq!(failure_body("bad info_hash format"), b"d14:failure reason20:bad info_hash formate".to_vec());
    assert_eq!(failure_body(""), b"d14:failure reason0:e".to_vec());
}

#[test]
fn compact_peers_skip_non_ipv4() {
    let peers = vec![peer("1.2.3.4", 6881), peer("example.org", 1), peer("::1", 2), peer("10.0.0.1", 256)];
    assert_eq!(compact_peers(&peers), vec![1, 2, 3, 4, 0x1a, 0xe1, 10, 0, 0, 1, 1, 0]);
}

#[test]
fn announce_body_compact() {
    let peers = vec![peer("1.2.3.4", 6881), peer("host", 5)];
    let body = announce_body(900, 450, "abc", 1, 2, &peers, true);
    let mut want = b"d8:intervali900e12:min intervali450e10:tracker id3:abc8:completei1e10:incompletei2e5:peers6:".to_vec();
    want.extend_from_slice(&[1, 2, 3, 4, 0x1a, 0xe1]);
    want.push(b'e');
    assert_eq!(body, want);
}

#[test]
fn announce_body_dictionary() {
    let peers = vec![peer("1.2.3.4", 6881), peer("host", 5)];
    let body = announce_body(-1, 0, "", 0, 0, &peers, false);
    let want = b"d8:intervali-1e12:min intervali0e10:tracker id0:8:completei0e10:incompletei0e5:peersld2:ip7:1.2.3.44:porti6881eed2:ip4:host4:porti5eeee".to_vec();
    assert_eq!(body, want);
}

#[test]
fn announce_body_without_peers() {
    let body = announce_body(900, 450, "t", 0, 0, &vec![], true);
    assert_eq!(body, b"d8:intervali900e12:min intervali450e10:tracker id1:t8:completei0e10:incompletei0e5:peers0:e".to_vec());
}

fn compact_reply() -> Vec<u8> {
    let mut b = b"d8:intervali900e5:peers18:".to_vec();
    b.extend_from_slice(&[1, 2, 3, 4, 0x1a, 0xe1, 127, 0, 0, 1, 0, 80, 9, 8, 7, 6, 0, 1]);
    b.push(b'e');
    b
}

#[test]
fn compact_reply_peers_without_localhost() {
    assert_eq!(reply_peer_list(&compact_reply()), vec![pair("1.2.3.4", 6881), pair("9.8.7.6", 1)]);
}

#[test]
fn dictionary_reply_peers() {
    let b = b"d8:intervali900e5:peersld2:ip7:1.2.3.44:porti6881eed2:ip9:127.0.0.14:porti1eed4:porti99e2:ip11:example.org7:peer id20:xxxxxxxxxxxxxxxxxxxxed2:ip3:a.b4:porti70000eeee";
    assert_eq!(reply_peer_list(b), vec![pair("1.2.3.4", 6881), pair("example.org", 99)]);
}

#[test]
fn dictionary_entry_skips_nested_values() {
    let b = b"d5:peersld5:extral1:a1:be2:ip7:5.6.7.84:porti1eeee";
    assert_eq!(reply_peer_list(b), vec![pair("5.6.7.8", 1)]);
    // a list value is skipped by counting `l` and `e` bytes only, so a
    // dictionary inside it ends the skip early and the entry is lost
    let b = b"d5:peersld5:extrald1:xi1eee2:ip7:5.6.7.84:porti1eeee";
    assert!(reply_peer_list(b).is_empty());
}

#[test]
fn reply_without_usable_peers() {
    assert!(reply_peer_list(b"d14:failure reason3:badee").is_empty());
    assert!(reply_peer_list(b"d5:peers5:abcdee").is_empty());
    assert!(reply_peer_list(b"d5:peers0:e").is_empty());
    assert!(reply_peer_list(b"").is_empty());
}

#[test]
fn compact_section_must_fit() {
    // says 12 bytes but holds 6
    let mut b = b"5:peers12:".to_vec();
    b.extend_from_slice(&[1, 2, 3, 4, 0, 1]);
    assert!(reply_peer_list(&b).is_empty());
}

#[test]
fn compact_list_reads_six_byte_pieces() {
    let b = [0u8, 1, 2, 3, 4, 0, 80, 5, 6, 7, 8, 1, 0, 9];
    assert_eq!(compact_peer_list(&b, 1, 13), vec![pair("1.2.3.4", 80), pair("5.6.7.8", 256)]);
    assert!(compact_peer_list(&b, 0, 5).is_empty());
}

#[test]
fn parse_and_upsert_records_each_peer() {
    let mut s = PeerStore::new();
    let n = parse_and_upsert_at(&mut s, IH, &compact_reply(), 77);
    assert_eq!(n, 2);
    let peers = s.list_peers(IH, 10);
    assert_eq!(peers.len(), 2);
    assert_eq!((peers[0].ip.as_str(), peers[0].port, peers[0].left, peers[0].last_seen), ("1.2.3.4", 6881, None, 77));
    assert_eq!((peers[1].ip.as_str(), peers[1].port), ("9.8.7.6", 1));
}

#[test]
fn upsert_peers_in_order() {
    let mut s = PeerStore::new();
    upsert_peers_at(&mut s, IH, &vec![pair("1.1.1.1", 1), pair("2.2.2.2", 2), pair("1.1.1.1", 1)], 5);
    assert_eq!(s.list_peers(IH, 10).len(), 2);
}

#[test]
fn ws_peers_skip_localhost_and_cut_port() {
    let list = vec![("1.1.1.1".to_string(), 6881u64), ("127.0.0.1".to_string(), 1), ("2.2.2.2".to_string(), 65536 + 7)];
    assert_eq!(ws_peer_list(&list), vec![pair("1.1.1.1", 6881), pair("2.2.2.2", 7)]);
}

#[test]
fn port_text_parsed_like_u16() {
    assert_eq!(parse_port_text("80"), Some(80));
    assert_eq!(parse_port_text("+80"), Some(80));
    assert_eq!(parse_port_text("65535"), Some(65535));
    assert_eq!(parse_port_text("65536"), None);
    assert_eq!(parse_port_text("0080"), Some(80));
    assert_eq!(parse_port_text("+"), None);
    assert_eq!(parse_port_text("-1"), None);
    assert_eq!(parse_port_text(""), None);
    assert_eq!(parse_port_text("8a"), None);
    assert_eq!(parse_port_text("99999999999999999999999"), None);
}

#[test]
fn udp_address_of_tracker_urls() {
    assert_eq!(udp_address("udp://tracker.example.org:1337/announce"), "tracker.example.org:1337");
    assert_eq!(udp_address("udp://udp://host:80"), "host:80");
    assert_eq!(udp_address("udp://host/announce"), "host:6969");
    assert_eq!(udp_address("udp://host:abc/x"), "host:6969");
    assert_eq!(udp_address("udp://host:+81"), "host:81");
    assert_eq!(udp_address("udp://host:65536"), "host:6969");
    assert_eq!(udp_address("host:1"), "host:1");
}

#[test]
fn udp_connect_request_bytes() {
    assert_eq!(
        udp_connect_request(5),
        vec![0x00, 0x00, 0x04, 0x17, 0x27, 0x10, 0x19, 0x80, 0, 0, 0, 0, 0, 0, 0, 5]
    );
    assert_eq!(&udp_connect_request(-1)[12..], &[0xff, 0xff, 0xff, 0xff]);
}

#[test]
fn udp_connect_start_carries_its_transaction_id() {
    let (t, req) = udp_connect_start();
    assert_eq!(req, udp_connect_request(t));
}

#[test]
fn udp_connection_id_from_reply() {
    let mut buf = [0u8; 32];
    buf[8..16].copy_from_slice(&[0x01, 0x02, 0x03, 0x04, 0x05, 0x06, 0x07, 0x08]);
    assert_eq!(udp_connection_id(&buf, 16), Some(0x0102030405060708));
    assert_eq!(udp_connection_id(&buf, 15), None);
    buf[8] = 0xff;
    assert_eq!(udp_connection_id(&buf, 20), Some(0xff02030405060708u64 as i64));
}

fn announce_bytes(pid: &[u8], key: [u8; 4]) -> Vec<u8> {
    let mut want = vec![1, 2, 3, 4, 5, 6, 7, 8, 0, 0, 0, 1, 0xff, 0xff, 0xff, 0xff];
    want.extend(1u8..=20);
    want.extend_from_slice(pid);
    want.extend_from_slice(&[0; 8]);
    want.extend_from_slice(&[0, 0, 0, 0, 0, 0, 0x40, 0]);
    want.extend_from_slice(&[0; 8]);
    want.extend_from_slice(&[0; 8]);
    want.extend_from_slice(&key);
    want.extend_from_slice(&[0xff, 0xff, 0xff, 0xff, 0x1a, 0xe1]);
    want
}

#[test]
fn udp_announce_request_bytes() {
    let ih: Vec<u8> = (1u8..=20).collect();
    let r = udp_announce_request(0x0102030405060708, -1, &ih, "short", 16384, 7, 6881);
    assert_eq!(r.len(), 98);
    assert_eq!(r, announce_bytes(&ih, [0, 0, 0, 7]));
    let r = udp_announce_request(0x0102030405060708, -1, &ih, "-qB4630-ABCDEFGHIJKL", 16384, 7, 6881);
    assert_eq!(r, announce_bytes(b"-qB4630-ABCDEFGHIJKL", [0, 0, 0, 7]));
    let r = udp_announce_request(0x0102030405060708, -1, &ih, "%2DqB4630%2DABCDEFGHIJKL", 16384, 7, 6881);
    assert_eq!(r, announce_bytes(b"-qB4630-ABCDEFGHIJKL", [0, 0, 0, 7]));
}

#[test]
fn udp_announce_start_differs_only_in_key() {
    let ih: Vec<u8> = (1u8..=20).collect();
    let r = udp_announce_start(0x0102030405060708, -1, &ih, "short", 16384, 6881);
    let key = [r[88], r[89], r[90], r[91]];
    assert_eq!(r, announce_bytes(&ih, key));
}

#[test]
fn udp_reply_peers_after_header() {
    let mut buf = vec![0u8; 20];
    buf.extend_from_slice(&[1, 2, 3, 4, 0x1a, 0xe1, 127, 0, 0, 1, 0, 1, 5, 5]);
    let n = buf.len();
    buf.extend_from_slice(&[9, 9, 9, 9, 9, 9]);
    assert_eq!(udp_reply_peers(&buf, n), vec![pair("1.2.3.4", 6881)]);
    assert!(udp_reply_peers(&buf, 19).is_empty());
    assert!(udp_reply_peers(&buf, 20).is_empty());
}

#[test]
fn written_address_reads_back() {
    for o in [[0u8, 0, 0, 0], [255, 255, 255, 255], [10, 0, 200, 7], [1, 20, 100, 9]] {
        assert_eq!(parse_ipv4(&write_ipv4(&o)), Some(o.to_vec()));
    }
}

#[test]
fn learned_compact_peers_served_back_unchanged() {
    let mut s = PeerStore::new();
    let blob = [1u8, 2, 3, 4, 0x1a, 0xe1, 200, 100, 0, 7, 255, 255];
    let mut reply = b"d5:peers12:".to_vec();
    reply.extend_from_slice(&blob);
    reply.push(b'e');
    assert_eq!(parse_and_upsert_at(&mut s, IH, &reply, 1), 2);
    let peers = s.list_peers(IH, 10);
    assert_eq!(compact_peers(&peers), blob.to_vec());
    assert_eq!(compact_peers(&peers).len() % 6, 0);
}
