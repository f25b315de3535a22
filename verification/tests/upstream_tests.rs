use tracker_server::upstream::{
    announce_path, announce_url, classify_trackers, decimal_string, fast_mode_from_name,
    first_trackers, hex8_upper_string, is_tls_error, make_peer_id, make_tracker_id, retry_backoff_ms,
    rr_step, select_trackers, shard_for, split_url_list, strategy_from_name, tracker_id_from,
    upstream_query, upstream_request_url, FastMode, UpstreamAnnounceParams, UpstreamStrategy,
};

fn list(n: usize) -> Vec<String> {
    (0..n).map(|i| format!("http://t{}/announce", i)).collect()
}

fn names(v: &[&str]) -> Vec<String> {
    v.iter().map(|s| s.to_string()).collect()
}

fn params() -> UpstreamAnnounceParams {
    UpstreamAnnounceParams {
        peer_id_encoded: "PID".to_string(),
        port: 6881,
        left: 5,
        event: "started".to_string(),
        numwant: 50,
    }
}

#[test]
fn select_from_empty_list() {
    assert!(select_trackers(&[], UpstreamStrategy::All, 3, true, 9).is_empty());
    assert!(select_trackers(&[], UpstreamStrategy::RoundRobin, 3, false, 9).is_empty());
}

#[test]
fn select_all() {
    let l = list(4);
    assert_eq!(select_trackers(&l, UpstreamStrategy::All, 2, false, 7), l);
}

#[test]
fn select_round_robin_window() {
    let l = list(5);
    assert_eq!(select_trackers(&l, UpstreamStrategy::RoundRobin, 2, false, 3), vec![l[3].clone(), l[4].clone()]);
    assert_eq!(select_trackers(&l, UpstreamStrategy::RoundRobin, 2, false, 4), vec![l[4].clone(), l[0].clone()]);
    assert_eq!(select_trackers(&l, UpstreamStrategy::RoundRobin, 9, false, 12), vec![
        l[2].clone(),
        l[3].clone(),
        l[4].clone(),
        l[0].clone(),
        l[1].clone()
    ]);
    assert!(select_trackers(&l, UpstreamStrategy::RoundRobin, 0, false, 1).is_empty());
}

#[test]
fn select_load_balance_all_rotates_whole_list() {
    let l = list(5);
    let r = select_trackers(&l, UpstreamStrategy::Random, 1, true, 7);
    assert_eq!(r, vec![l[2].clone(), l[3].clone(), l[4].clone(), l[0].clone(), l[1].clone()]);
}

#[test]
fn select_random_draws_distinct_trackers() {
    let l = list(6);
    let r = select_trackers(&l, UpstreamStrategy::Random, 4, false, 0);
    assert_eq!(r.len(), 4);
    for t in &r {
        assert!(l.contains(t));
    }
    let mut sorted = r.clone();
    sorted.sort();
    sorted.dedup();
    assert_eq!(sorted.len(), 4);
    assert_eq!(select_trackers(&l, UpstreamStrategy::Random, 10, false, 0).len(), 6);
}

#[test]
fn round_robin_counter_steps() {
    assert_eq!(rr_step(4, UpstreamStrategy::RoundRobin, 10, false), 10);
    assert_eq!(rr_step(4, UpstreamStrategy::All, 10, false), 0);
    assert_eq!(rr_step(4, UpstreamStrategy::Random, 10, false), 0);
    assert_eq!(rr_step(4, UpstreamStrategy::RoundRobin, 10, true), 1);
    assert_eq!(rr_step(0, UpstreamStrategy::RoundRobin, 10, true), 0);
    assert_eq!(rr_step(0, UpstreamStrategy::RoundRobin, 10, false), 0);
}

#[test]
fn shard_is_stable_and_in_range() {
    let ih: Vec<u8> = (1u8..=20).collect();
    let a = shard_for(&ih, 16);
    assert!(a < 16);
    assert_eq!(a, shard_for(&ih, 16));
    assert_eq!(shard_for(&ih, 1), 0);
}

#[test]
fn decimal_and_hex_text() {
    assert_eq!(decimal_string(0), "0");
    assert_eq!(decimal_string(6881), "6881");
    assert_eq!(decimal_string(u64::MAX), "18446744073709551615");
    assert_eq!(hex8_upper_string(0xABCDEF01), "ABCDEF01");
    assert_eq!(hex8_upper_string(1), "00000001");
    assert_eq!(hex8_upper_string(u32::MAX), "FFFFFFFF");
}

#[test]
fn tracker_ids() {
    assert_eq!(tracker_id_from(0x0123456789abcdef), "0123456789abcdef");
    assert_eq!(tracker_id_from(1), "0000000000000001");
    let t = make_tracker_id();
    assert_eq!(t.len(), 16);
    assert!(t.chars().all(|c| c.is_ascii_digit() || ('a'..='f').contains(&c)));
}

#[test]
fn own_peer_id_shape() {
    let p = make_peer_id();
    assert!(p.starts_with("%2DqB4630%2D"));
    let tail = &p["%2DqB4630%2D".len()..];
    assert_eq!(tail.len(), 12);
    assert!(tail.chars().all(|c| c.is_ascii_alphanumeric()));
}

#[test]
fn upstream_query_text() {
    let q = upstream_query("%01%02", &params(), 0xABCDEF01);
    assert_eq!(
        q,
        "info_hash=%01%02&peer_id=PID&port=6881&uploaded=0&downloaded=0&left=5&event=started&numwant=50&compact=1&no_peer_id=1&supportcrypto=1&redundant=0&key=ABCDEF01"
    );
}

#[test]
fn announce_paths() {
    assert_eq!(announce_path("/announce"), "/announce");
    assert_eq!(announce_path("/x/announce"), "/x/announce");
    assert_eq!(announce_path("/"), "/announce");
    assert_eq!(announce_path("/x"), "/x/announce");
    assert_eq!(announce_path(""), "/announce");
}

#[test]
fn announce_urls() {
    assert_eq!(
        announce_url("http://tracker.example.org:8080/announce", "a=1"),
        Some("http://tracker.example.org:8080/announce?a=1".to_string())
    );
    assert_eq!(announce_url("http://t.org", "a=%01&b=2"), Some("http://t.org/announce?a=%01&b=2".to_string()));
    assert_eq!(announce_url("http://t.org/x", "q"), Some("http://t.org/x/announce?q".to_string()));
    assert_eq!(announce_url("https://t.org/x/?old=1", "q"), Some("https://t.org/x/announce?q".to_string()));
    assert_eq!(announce_url("not a url", "q"), None);
}

#[test]
fn upstream_request_urls() {
    let ih: Vec<u8> = (1u8..=3).collect();
    let u = upstream_request_url("http://t.org/announce", &ih, &params()).unwrap();
    let prefix = "http://t.org/announce?info_hash=%01%02%03&peer_id=PID&port=6881&uploaded=0&downloaded=0&left=5&event=started&numwant=50&compact=1&no_peer_id=1&supportcrypto=1&redundant=0&key=";
    assert!(u.starts_with(prefix));
    let key = &u[prefix.len()..];
    assert_eq!(key.len(), 8);
    assert!(key.chars().all(|c| c.is_ascii_digit() || ('A'..='F').contains(&c)));
    assert_eq!(upstream_request_url("::", &ih, &params()), None);
}

#[test]
fn tls_errors_recognized() {
    assert!(is_tls_error("invalid peer certificate: UnknownIssuer"));
    assert!(is_tls_error("tls handshake eof"));
    assert!(is_tls_error("handshake failed"));
    assert!(!is_tls_error("connection refused"));
    assert!(!is_tls_error("TLS"));
}

#[test]
fn download_backoff_doubles_up_to_a_cap() {
    assert_eq!(retry_backoff_ms(0), 500);
    assert_eq!(retry_backoff_ms(1), 1000);
    assert_eq!(retry_backoff_ms(3), 4000);
    assert_eq!(retry_backoff_ms(8), 128000);
    assert_eq!(retry_backoff_ms(100), 128000);
}

#[test]
fn tracker_list_sorted_by_protocol() {
    let content = "http://a/announce\n # c\n\nudp://b:1\r\nwss://c\nftp://d\n  https://e  \nws://f";
    let (http, udp, ws) = classify_trackers(content);
    assert_eq!(http, names(&["http://a/announce", "https://e"]));
    assert_eq!(udp, names(&["udp://b:1"]));
    assert_eq!(ws, names(&["wss://c", "ws://f"]));
    let (h, u, w) = classify_trackers("");
    assert!(h.is_empty() && u.is_empty() && w.is_empty());
}

#[test]
fn url_list_split_on_semicolons() {
    assert_eq!(split_url_list(" a ; ;b;"), names(&["a", "b"]));
    assert_eq!(split_url_list("a,b"), names(&["a,b"]));
    assert!(split_url_list("").is_empty());
}

#[test]
fn strategy_and_mode_names() {
    assert_eq!(strategy_from_name("ALL"), UpstreamStrategy::All);
    assert_eq!(strategy_from_name("Random"), UpstreamStrategy::Random);
    assert_eq!(strategy_from_name("rr"), UpstreamStrategy::RoundRobin);
    assert_eq!(strategy_from_name("round_robin"), UpstreamStrategy::RoundRobin);
    assert_eq!(fast_mode_from_name("WAIT"), FastMode::Wait);
    assert_eq!(fast_mode_from_name("async"), FastMode::Async);
    assert_eq!(fast_mode_from_name("Off"), FastMode::Off);
    assert_eq!(fast_mode_from_name("timeout"), FastMode::Timeout);
    assert_eq!(fast_mode_from_name("other"), FastMode::Timeout);
}

#[test]
fn first_trackers_of_a_list() {
    let l = list(3);
    assert_eq!(first_trackers(&l, 2), vec![l[0].clone(), l[1].clone()]);
    assert_eq!(first_trackers(&l, 50), l);
    assert!(first_trackers(&l, 0).is_empty());
}

#[test]
fn round_robin_windows_follow_each_other() {
    let l = list(7);
    let first = select_trackers(&l, UpstreamStrategy::RoundRobin, 3, false, 5);
    let second = select_trackers(&l, UpstreamStrategy::RoundRobin, 3, false, 5 + rr_step(l.len(), UpstreamStrategy::RoundRobin, 3, false));
    let both = select_trackers(&l, UpstreamStrategy::RoundRobin, 6, false, 5);
    let mut joined = first.clone();
    joined.extend(second);
    assert_eq!(joined, both);
}
