use tracker_server::announce::{announce_first, announce_next, saturating_u32, AnnounceStep};
use tracker_server::reply::{json_get, ws_pairs, JsonModel};
use tracker_server::upstream::FastMode;
use tracker_server::download::{
    download_start, download_step, fetch_tally, needs_native_retry, tracker_outcome, DownloadAction,
    DownloadPos, FetchOutcome, RequestResult,
};
use tracker_server::query::parse_info_hash;
use tracker_server::reply::ws_reply_peers;
use tracker_server::store::PeerStore;

const IH: &str = "0102030405060708090a0b0c0d0e0f1011121314";

fn at(url: usize, attempt: usize, native: bool) -> DownloadPos {
    DownloadPos { url, attempt, native }
}

#[test]
fn download_starts_at_first_url() {
    assert_eq!(download_start(2), (at(0, 0, false), DownloadAction::Get { url: 0, native: false }));
    assert_eq!(download_start(0).1, DownloadAction::Fail);
}

#[test]
fn download_success_writes() {
    assert_eq!(download_step(2, 3, true, at(1, 2, false), FetchOutcome::Success), (at(1, 2, false), DownloadAction::WriteBody));
    assert_eq!(download_step(2, 3, true, at(0, 0, true), FetchOutcome::Success).1, DownloadAction::WriteBody);
}

#[test]
fn download_tls_failure_tries_other_client_once() {
    let tls = FetchOutcome::TransportError { tls: true };
    assert_eq!(download_step(2, 3, true, at(0, 1, false), tls), (at(0, 1, true), DownloadAction::Get { url: 0, native: true }));
    assert_eq!(download_step(2, 3, true, at(0, 1, true), tls), (at(0, 2, false), DownloadAction::Retry { sleep_ms: 1000 }));
    assert_eq!(download_step(2, 3, false, at(0, 1, false), tls), (at(0, 2, false), DownloadAction::Retry { sleep_ms: 1000 }));
    let other = FetchOutcome::TransportError { tls: false };
    assert_eq!(download_step(2, 3, true, at(0, 0, false), other), (at(0, 1, false), DownloadAction::Retry { sleep_ms: 500 }));
}

#[test]
fn download_moves_to_next_url_then_gives_up() {
    assert_eq!(download_step(2, 3, true, at(0, 2, false), FetchOutcome::BadStatus), (at(1, 0, false), DownloadAction::Retry { sleep_ms: 2000 }));
    assert_eq!(download_step(2, 3, true, at(1, 2, false), FetchOutcome::BadStatus), (at(1, 2, false), DownloadAction::GiveUp { sleep_ms: 2000 }));
    assert_eq!(download_step(1, 1, false, at(0, 0, false), FetchOutcome::BadStatus).1, DownloadAction::GiveUp { sleep_ms: 500 });
}

#[test]
fn download_runs_out_after_every_attempt() {
    // two URLs, two attempts each, every request failing on TLS
    let (mut pos, mut action) = download_start(2);
    let mut requests = 0;
    loop {
        match action {
            DownloadAction::Get { .. } => {
                requests += 1;
                let r = download_step(2, 2, true, pos, FetchOutcome::TransportError { tls: true });
                pos = r.0;
                action = r.1;
            }
            DownloadAction::Retry { .. } => action = DownloadAction::Get { url: pos.url, native: false },
            _ => break,
        }
    }
    assert_eq!(requests, 8);
    assert_eq!(action, DownloadAction::GiveUp { sleep_ms: 1000 });
}

#[test]
fn tracker_request_outcomes() {
    let tls = RequestResult::TransportError { tls: true };
    assert!(needs_native_retry(true, tls));
    assert!(!needs_native_retry(false, tls));
    assert!(!needs_native_retry(true, RequestResult::TransportError { tls: false }));
    assert!(!needs_native_retry(true, RequestResult::Refused));
    assert_eq!(tracker_outcome(RequestResult::Replied { peers: 4 }, None), (true, 4));
    assert_eq!(tracker_outcome(RequestResult::Refused, None), (false, 0));
    assert_eq!(tracker_outcome(tls, Some(RequestResult::Replied { peers: 2 })), (true, 2));
    assert_eq!(tracker_outcome(tls, Some(RequestResult::Refused)), (false, 0));
    assert_eq!(tracker_outcome(tls, None), (false, 0));
}

#[test]
fn fetch_summary() {
    assert_eq!(fetch_tally(5, &vec![(true, 3), (false, 0), (true, 0)]), (5, 2, 3));
    assert_eq!(fetch_tally(2, &vec![(true, usize::MAX), (true, 1)]), (2, 2, usize::MAX));
    assert_eq!(fetch_tally(0, &vec![]), (0, 0, 0));
}

#[test]
fn websocket_reply_peers() {
    let text = r#"{"interval":120,"peers":[{"ip":"1.1.1.1","port":6881},{"ip":"127.0.0.1","port":1},{"ip":"2.2.2.2"},{"ip":"3.3.3.3","port":65537},{"ip":4,"port":5}]}"#;
    assert_eq!(ws_reply_peers(text), vec![("1.1.1.1".to_string(), 6881), ("3.3.3.3".to_string(), 1)]);
    assert!(ws_reply_peers("not json").is_empty());
    assert!(ws_reply_peers(r#"{"peers":{}}"#).is_empty());
}

#[test]
fn counts_as_u32() {
    assert_eq!(saturating_u32(7), 7);
    assert_eq!(saturating_u32(usize::MAX), u32::MAX);
}

#[test]
fn repeat_announce_keeps_one_entry() {
    let mut s = PeerStore::new();
    s.upsert_peer_at(IH, "1.1.1.1", 1, Some(0), 10);
    s.upsert_peer_at(IH, "1.1.1.1", 1, Some(0), 20);
    assert_eq!(s.peer_stats(IH), (1, 0));
    let p = s.list_peers(IH, usize::MAX);
    assert_eq!((p.len(), p[0].last_seen), (1, 20));
}

#[test]
fn stop_after_first_announce_restores_store() {
    let mut s = PeerStore::new();
    s.upsert_peer_at("aa", "1.1.1.1", 1, None, 10);
    s.upsert_peer_at(IH, "9.9.9.9", 9, None, 10);
    s.remove_peer(IH, "9.9.9.9", 9);
    assert_eq!(s.list_all_infohashes(10), vec!["aa".to_string()]);
    assert_eq!(s.list_peers("aa", 10).len(), 1);
}

#[test]
fn prunes_compose() {
    let mut s = PeerStore::new();
    s.upsert_peer_at(IH, "1.1.1.1", 1, None, 10);
    s.upsert_peer_at(IH, "2.2.2.2", 2, None, 20);
    s.upsert_peer_at(IH, "3.3.3.3", 3, None, 30);
    assert_eq!(s.prune_old_peers(15), 1);
    assert_eq!(s.prune_old_peers(25), 1);
    assert_eq!(s.prune_old_peers(25), 0);
    assert_eq!(s.list_peers(IH, 10).len(), 1);
}

#[test]
fn info_hash_wins_and_whitespace_ignored() {
    let a = Some("  0102030405060708090A0B0C0D0E0F1011121314 ".to_string());
    let other = Some("zz".to_string());
    assert_eq!(parse_info_hash(&a, &other), parse_info_hash(&Some(a.clone().unwrap().trim().to_string()), &None));
    assert_eq!(parse_info_hash(&a, &other), Ok((1u8..=20).collect::<Vec<u8>>()));
}

#[test]
fn json_model_members_and_pairs() {
    let peer = |ip: JsonModel, port: JsonModel| JsonModel::Object(vec![("ip".to_string(), ip), ("port".to_string(), port)]);
    let reply = JsonModel::Object(vec![
        ("interval".to_string(), JsonModel::Number(Some(60))),
        ("peers".to_string(), JsonModel::Array(vec![
            peer(JsonModel::Str("1.1.1.1".to_string()), JsonModel::Number(Some(1))),
            peer(JsonModel::Str("2.2.2.2".to_string()), JsonModel::Number(None)),
            peer(JsonModel::Null, JsonModel::Number(Some(3))),
            JsonModel::Bool(true),
            peer(JsonModel::Str("4.4.4.4".to_string()), JsonModel::Number(Some(70000))),
        ])),
    ]);
    assert!(matches!(json_get(&reply, "interval"), Some(JsonModel::Number(Some(60)))));
    assert!(json_get(&reply, "missing").is_none());
    assert!(json_get(&JsonModel::Null, "peers").is_none());
    assert_eq!(ws_pairs(&Some(reply)), vec![("1.1.1.1".to_string(), 1u64), ("4.4.4.4".to_string(), 70000)]);
    assert!(ws_pairs(&None).is_empty());
    assert!(ws_pairs(&Some(JsonModel::Array(vec![]))).is_empty());
}

#[test]
fn announce_steps_in_order() {
    let mut s = announce_first();
    assert_eq!(s, AnnounceStep::Record);
    s = announce_next(s, 0, 50, FastMode::Timeout);
    assert_eq!(s, AnnounceStep::CountKnown);
    assert_eq!(announce_next(s, 0, 50, FastMode::Timeout), AnnounceStep::FastFetch(FastMode::Wait));
    assert_eq!(announce_next(s, 2, 50, FastMode::Timeout), AnnounceStep::FastFetch(FastMode::Timeout));
    assert_eq!(announce_next(AnnounceStep::FastFetch(FastMode::Off), 0, 50, FastMode::Off), AnnounceStep::Prune);
    assert_eq!(announce_next(AnnounceStep::Prune, 0, 50, FastMode::Off), AnnounceStep::List);
    assert_eq!(announce_next(AnnounceStep::List, 24, 50, FastMode::Off), AnnounceStep::OnDemand);
    assert_eq!(announce_next(AnnounceStep::List, 25, 50, FastMode::Off), AnnounceStep::Stats);
    assert_eq!(announce_next(AnnounceStep::OnDemand, 0, 50, FastMode::Off), AnnounceStep::Relist);
    assert_eq!(announce_next(AnnounceStep::Relist, 0, 50, FastMode::Off), AnnounceStep::Stats);
    assert_eq!(announce_next(AnnounceStep::Stats, 0, 50, FastMode::Off), AnnounceStep::Respond);
    assert_eq!(announce_next(AnnounceStep::Respond, 0, 50, FastMode::Off), AnnounceStep::Respond);
}
