use tracker_server::config::{read_flag, read_text, read_u32, read_u64, read_usize, settings_from, Environment};
use tracker_server::text::{is_localhost, parse_unsigned_text};
use tracker_server::upstream::{FastMode, UpstreamStrategy};

fn some(s: &str) -> Option<String> {
    Some(s.to_string())
}

fn unset() -> Environment {
    Environment {
        load_balance_all: None,
        suppress_warn: None,
        trackers_urls: None,
        trackers_url: None,
        trackers_download_attempts: None,
        trackers_file: None,
        poll_interval_secs: None,
        upstream_strategy: None,
        upstream_batch_size: None,
        fast_announce_mode: None,
        upstream_timeout_seconds: None,
        fast_max_wait_ms: None,
        agg_concurrency: None,
        upstream_shards: None,
        trackers_refresh_secs: None,
        trackers_refresh_fail_secs: None,
        upstream_numwant: None,
        upstream_left: None,
        on_demand_max_wait_ms: None,
        enable_native_tls_fallback: None,
    }
}

#[test]
fn settings_defaults() {
    let s = settings_from(&unset());
    assert!(!s.load_balance_all);
    assert!(!s.suppress_warn);
    assert_eq!(s.tracker_list_urls, vec!["https://raw.githubusercontent.com/adysec/tracker/main/trackers_all.txt".to_string()]);
    assert_eq!(s.download_attempts, 3);
    assert_eq!(s.trackers_file, "trackers.txt");
    assert_eq!(s.poll_secs, 60);
    assert_eq!(s.strategy, UpstreamStrategy::RoundRobin);
    assert_eq!(s.batch_size, 10);
    assert_eq!(s.fast_mode, FastMode::Wait);
    assert_eq!(s.timeout_secs, 10);
    assert_eq!(s.fast_max_wait_ms, 500);
    assert_eq!(s.agg_concurrency, 32);
    assert_eq!(s.upstream_shards, 16);
    assert_eq!(s.refresh_ok_secs, 86400);
    assert_eq!(s.refresh_fail_secs, 3600);
    assert_eq!(s.upstream_numwant, 200);
    assert_eq!(s.upstream_left, 16384);
    assert_eq!(s.on_demand_max_wait_ms, 4000);
    assert!(!s.native_tls_fallback);
}

#[test]
fn settings_from_values() {
    let mut e = unset();
    e.load_balance_all = some("1");
    e.trackers_urls = some("https://a/list.txt; ;https://b/list.txt");
    e.trackers_url = some("https://ignored");
    e.upstream_strategy = some("Random");
    e.fast_announce_mode = some("off");
    e.upstream_shards = some("0");
    e.upstream_batch_size = some("nope");
    e.upstream_numwant = some("4294967296");
    e.enable_native_tls_fallback = some("1");
    e.poll_interval_secs = some("+5");
    e.fast_max_wait_ms = some("1200");
    e.agg_concurrency = some("0");
    e.trackers_refresh_secs = some("60");
    e.trackers_download_attempts = some("0");
    let s = settings_from(&e);
    assert!(s.load_balance_all);
    assert_eq!(s.tracker_list_urls, vec!["https://a/list.txt".to_string(), "https://b/list.txt".to_string()]);
    assert_eq!(s.strategy, UpstreamStrategy::Random);
    assert_eq!(s.fast_mode, FastMode::Off);
    assert_eq!(s.upstream_shards, 1);
    assert_eq!(s.batch_size, 10);
    assert_eq!(s.upstream_numwant, 200);
    assert!(s.native_tls_fallback);
    assert_eq!(s.poll_secs, 5);
    assert_eq!(s.fast_max_wait_ms, 1200);
    assert_eq!(s.agg_concurrency, 1);
    assert_eq!(s.refresh_ok_secs, 60);
    assert_eq!(s.download_attempts, 1);
}

#[test]
fn single_list_url() {
    let mut e = unset();
    e.trackers_url = some("https://one");
    assert_eq!(settings_from(&e).tracker_list_urls, vec!["https://one".to_string()]);
}

#[test]
fn fast_mode_names() {
    let mut e = unset();
    e.fast_announce_mode = some("TIMEOUT");
    assert_eq!(settings_from(&e).fast_mode, FastMode::Timeout);
    e.fast_announce_mode = some("async");
    assert_eq!(settings_from(&e).fast_mode, FastMode::Async);
    e.fast_announce_mode = some("unknown");
    assert_eq!(settings_from(&e).fast_mode, FastMode::Timeout);
}

#[test]
fn single_settings() {
    assert!(read_flag(&some("1"), false));
    assert!(!read_flag(&some("true"), true));
    assert!(read_flag(&None, true));
    assert_eq!(read_u64(&some("18446744073709551615"), 1), u64::MAX);
    assert_eq!(read_u64(&some("18446744073709551616"), 1), 1);
    assert_eq!(read_u32(&some("4294967295"), 1), u32::MAX);
    assert_eq!(read_usize(&some(" 5"), 9), 9);
    assert_eq!(read_text(&None, "d"), "d");
    assert_eq!(read_text(&some(""), "d"), "");
}

#[test]
fn unsigned_numbers() {
    assert_eq!(parse_unsigned_text("42", 100), Some(42));
    assert_eq!(parse_unsigned_text("101", 100), None);
    assert_eq!(parse_unsigned_text("+0", 100), Some(0));
    assert_eq!(parse_unsigned_text("", 100), None);
}

#[test]
fn localhost_text() {
    assert!(is_localhost("127.0.0.1"));
    assert!(!is_localhost("127.0.0.2"));
    assert!(!is_localhost(" 127.0.0.1"));
}
