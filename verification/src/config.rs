//! The tracker's settings, read from the values of its environment
//! variables with their defaults.
use vstd::prelude::*;
use vstd::utf8::*;
use crate::text::{parse_unsigned, parse_unsigned_text, text_opt};
use crate::upstream::{
    fast_mode_from_name, lower_bytes, nonempty_trimmed, pieces, split_url_list, strategy_from_name,
    texts, FastMode, UpstreamStrategy,
};

verus! {

/// The value of a numeric setting: the number its text holds when it is one
/// no larger than `max`, else `default`.
pub open spec fn number_or(v: Option<Seq<char>>, max: nat, default: nat) -> nat {
    match v {
        Some(s) => match parse_unsigned(encode_utf8(s), max) {
            Some(n) => n,
            None => default,
        },
        None => default,
    }
}

/// The value of an on/off setting: on exactly when its text is `1`, else
/// `default` when it is not set.
pub open spec fn flag_or(v: Option<Seq<char>>, default: bool) -> bool {
    match v {
        Some(s) => s == "1"@,
        None => default,
    }
}

/// The value of a text setting, else `default`.
pub open spec fn text_or(v: Option<Seq<char>>, default: Seq<char>) -> Seq<char> {
    match v {
        Some(s) => s,
        None => default,
    }
}

/// An on/off setting.
pub fn read_flag(v: &Option<String>, default: bool) -> (r: bool)
    ensures
        r == flag_or(text_opt(*v), default),
{
    match v {
        Some(s) => crate::query::str_equal(s.as_str(), "1"),
        None => default,
    }
}

/// A numeric setting of type `u64`.
pub fn read_u64(v: &Option<String>, default: u64) -> (r: u64)
    ensures
        r as nat == number_or(text_opt(*v), u64::MAX as nat, default as nat),
{
    match v {
        Some(s) => match parse_unsigned_text(s.as_str(), u64::MAX) {
            Some(n) => n,
            None => default,
        },
        None => default,
    }
}

/// A numeric setting of type `u32`.
pub fn read_u32(v: &Option<String>, default: u32) -> (r: u32)
    ensures
        r as nat == number_or(text_opt(*v), u32::MAX as nat, default as nat),
{
    match v {
        Some(s) => match parse_unsigned_text(s.as_str(), u32::MAX as u64) {
            Some(n) => n as u32,
            None => default,
        },
        None => default,
    }
}

/// A numeric setting of type `usize`.
pub fn read_usize(v: &Option<String>, default: usize) -> (r: usize)
    ensures
        r as nat == number_or(text_opt(*v), usize::MAX as nat, default as nat),
{
    match v {
        Some(s) => match parse_unsigned_text(s.as_str(), usize::MAX as u64) {
            Some(n) => n as usize,
            None => default,
        },
        None => default,
    }
}

/// A text setting.
pub fn read_text(v: &Option<String>, default: &str) -> (r: String)
    ensures
        r@ == text_or(text_opt(*v), default@),
{
    match v {
        Some(s) => s.clone(),
        None => default.to_owned(),
    }
}

/// The environment variables the tracker reads, as they were found.
pub struct Environment {
    pub load_balance_all: Option<String>,
    pub suppress_warn: Option<String>,
    pub trackers_urls: Option<String>,
    pub trackers_url: Option<String>,
    pub trackers_download_attempts: Option<String>,
    pub trackers_file: Option<String>,
    pub poll_interval_secs: Option<String>,
    pub upstream_strategy: Option<String>,
    pub upstream_batch_size: Option<String>,
    pub fast_announce_mode: Option<String>,
    pub upstream_timeout_seconds: Option<String>,
    pub fast_max_wait_ms: Option<String>,
    pub agg_concurrency: Option<String>,
    pub upstream_shards: Option<String>,
    pub trackers_refresh_secs: Option<String>,
    pub trackers_refresh_fail_secs: Option<String>,
    pub upstream_numwant: Option<String>,
    pub upstream_left: Option<String>,
    pub on_demand_max_wait_ms: Option<String>,
    pub enable_native_tls_fallback: Option<String>,
}

/// The tracker's settings.
pub struct Settings {
    /// Every upstream fetch asks every HTTP tracker, in turn from a moving start.
    pub load_balance_all: bool,
    /// Warnings are not logged.
    pub suppress_warn: bool,
    /// Where the list of upstream trackers is downloaded from.
    pub tracker_list_urls: Vec<String>,
    /// Download attempts per URL, at least one.
    pub download_attempts: usize,
    /// Where the downloaded list is kept.
    pub trackers_file: String,
    /// Seconds between refreshes of the known torrents.
    pub poll_secs: u64,
    pub strategy: UpstreamStrategy,
    pub batch_size: usize,
    pub fast_mode: FastMode,
    /// Seconds an upstream request may take.
    pub timeout_secs: u64,
    /// Milliseconds an announce waits for its fetch in timeout mode.
    pub fast_max_wait_ms: u64,
    /// How many upstream HTTP requests may run at once, at least one.
    pub agg_concurrency: usize,
    /// Number of upstream fetch queues, at least one.
    pub upstream_shards: usize,
    /// Seconds to the next list download after a success, and after a failure.
    pub refresh_ok_secs: u64,
    pub refresh_fail_secs: u64,
    /// The most peers asked of an upstream tracker by an announce's own fetch.
    pub upstream_numwant: u32,
    /// What is left to download when the client did not say.
    pub upstream_left: u64,
    /// Milliseconds an announce waits for the fetch from every upstream tracker.
    pub on_demand_max_wait_ms: u64,
    /// A download that fails on TLS is tried again with another client.
    pub native_tls_fallback: bool,
}

/// Where the tracker list is downloaded from when nothing else is set.
pub open spec fn default_list_url() -> Seq<char> {
    "https://raw.githubusercontent.com/adysec/tracker/main/trackers_all.txt"@
}

/// The URLs the tracker list is downloaded from: the `;`-separated
/// `TRACKERS_URLS`, else the single `TRACKERS_URL`, else the default.
pub open spec fn list_urls(urls: Option<Seq<char>>, url: Option<Seq<char>>) -> Seq<Seq<char>> {
    match urls {
        Some(s) => nonempty_trimmed(pieces(s, ';')),
        None => seq![text_or(url, default_list_url())],
    }
}

/// A name selects a value when it is, letters made lowercase, that name.
pub open spec fn names(v: Seq<char>, name: Seq<char>) -> bool {
    lower_bytes(encode_utf8(v)) == encode_utf8(name)
}

/// The upstream strategy a setting selects: round robin when unset.
pub open spec fn strategy_setting(v: Option<Seq<char>>) -> UpstreamStrategy {
    let t = text_or(v, "round_robin"@);
    if names(t, "all"@) {
        UpstreamStrategy::All
    } else if names(t, "random"@) {
        UpstreamStrategy::Random
    } else {
        UpstreamStrategy::RoundRobin
    }
}

/// The fast-announce mode a setting selects: wait when unset.
pub open spec fn fast_mode_setting(v: Option<Seq<char>>) -> FastMode {
    let t = text_or(v, "wait"@);
    if names(t, "wait"@) {
        FastMode::Wait
    } else if names(t, "async"@) {
        FastMode::Async
    } else if names(t, "off"@) {
        FastMode::Off
    } else {
        FastMode::Timeout
    }
}

/// The settings the environment gives.
pub fn settings_from(env: &Environment) -> (r: Settings)
    ensures
        r.load_balance_all == flag_or(text_opt(env.load_balance_all), false),
        r.suppress_warn == flag_or(text_opt(env.suppress_warn), false),
        texts(r.tracker_list_urls@) == list_urls(text_opt(env.trackers_urls), text_opt(env.trackers_url)),
        r.download_attempts as nat == (if number_or(
            text_opt(env.trackers_download_attempts),
            usize::MAX as nat,
            3,
        ) == 0 {
            1
        } else {
            number_or(text_opt(env.trackers_download_attempts), usize::MAX as nat, 3)
        }),
        r.trackers_file@ == text_or(text_opt(env.trackers_file), "trackers.txt"@),
        r.poll_secs as nat == number_or(text_opt(env.poll_interval_secs), u64::MAX as nat, 60),
        r.strategy == strategy_setting(text_opt(env.upstream_strategy)),
        r.batch_size as nat == number_or(text_opt(env.upstream_batch_size), usize::MAX as nat, 10),
        r.fast_mode == fast_mode_setting(text_opt(env.fast_announce_mode)),
        r.timeout_secs as nat == number_or(text_opt(env.upstream_timeout_seconds), u64::MAX as nat, 10),
        r.fast_max_wait_ms as nat == number_or(text_opt(env.fast_max_wait_ms), u64::MAX as nat, 500),
        r.agg_concurrency as nat == (if number_or(text_opt(env.agg_concurrency), usize::MAX as nat, 32)
            == 0 {
            1
        } else {
            number_or(text_opt(env.agg_concurrency), usize::MAX as nat, 32)
        }),
        r.upstream_shards as nat == (if number_or(text_opt(env.upstream_shards), usize::MAX as nat, 16) == 0 {
            1
        } else {
            number_or(text_opt(env.upstream_shards), usize::MAX as nat, 16)
        }),
        r.refresh_ok_secs as nat == number_or(text_opt(env.trackers_refresh_secs), u64::MAX as nat, 86400),
        r.refresh_fail_secs as nat == number_or(text_opt(env.trackers_refresh_fail_secs), u64::MAX as nat, 3600),
        r.upstream_numwant as nat == number_or(text_opt(env.upstream_numwant), u32::MAX as nat, 200),
        r.upstream_left as nat == number_or(text_opt(env.upstream_left), u64::MAX as nat, 16384),
        r.on_demand_max_wait_ms as nat == number_or(text_opt(env.on_demand_max_wait_ms), u64::MAX as nat, 4000),
        r.native_tls_fallback == flag_or(text_opt(env.enable_native_tls_fallback), false),
{
    let tracker_list_urls = match &env.trackers_urls {
        Some(s) => split_url_list(s.as_str()),
        None => {
            let mut v: Vec<String> = Vec::new();
            v.push(
                read_text(
                    &env.trackers_url,
                    "https://raw.githubusercontent.com/adysec/tracker/main/trackers_all.txt",
                ),
            );
            assert(texts(v@) =~= list_urls(None, text_opt(env.trackers_url)));
            v
        },
    };
    let strategy_name = read_text(&env.upstream_strategy, "round_robin");
    let mode_name = read_text(&env.fast_announce_mode, "wait");
    let shards = read_usize(&env.upstream_shards, 16);
    let attempts = read_usize(&env.trackers_download_attempts, 3);
    let concurrency = read_usize(&env.agg_concurrency, 32);
    Settings {
        load_balance_all: read_flag(&env.load_balance_all, false),
        suppress_warn: read_flag(&env.suppress_warn, false),
        tracker_list_urls,
        download_attempts: if attempts == 0 {
            1
        } else {
            attempts
        },
        trackers_file: read_text(&env.trackers_file, "trackers.txt"),
        poll_secs: read_u64(&env.poll_interval_secs, 60),
        strategy: strategy_from_name(strategy_name.as_str()),
        batch_size: read_usize(&env.upstream_batch_size, 10),
        fast_mode: fast_mode_from_name(mode_name.as_str()),
        timeout_secs: read_u64(&env.upstream_timeout_seconds, 10),
        fast_max_wait_ms: read_u64(&env.fast_max_wait_ms, 500),
        agg_concurrency: if concurrency == 0 {
            1
        } else {
            concurrency
        },
        upstream_shards: if shards == 0 {
            1
        } else {
            shards
        },
        refresh_ok_secs: read_u64(&env.trackers_refresh_secs, 86400),
        refresh_fail_secs: read_u64(&env.trackers_refresh_fail_secs, 3600),
        upstream_numwant: read_u32(&env.upstream_numwant, 200),
        upstream_left: read_u64(&env.upstream_left, 16384),
        on_demand_max_wait_ms: read_u64(&env.on_demand_max_wait_ms, 4000),
        native_tls_fallback: read_flag(&env.enable_native_tls_fallback, false),
    }
}

} // verus!
